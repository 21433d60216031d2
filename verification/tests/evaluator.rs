use asalang::interpreter::{apply_arithmetic, comparison_result, math_result};
use asalang::{
    evaluate, program, start_interpreter, ErrorKind, Node, ParseError, ParseErrorKind, Runtime,
    Value,
};

fn evaluated(source: &str) -> Result<Value, ErrorKind> {
    let (rest, tree) = program(source).expect("the source parses");
    assert_eq!(rest, "");
    start_interpreter(&tree)
}

/// Interprets the program that consists of the bare expression around `inner`.
fn expressed(inner: Node) -> Result<Value, ErrorKind> {
    start_interpreter(&Node::Program { children: vec![Node::Expression { children: vec![inner] }] })
}

fn num(value: i32) -> Node {
    Node::Number { value }
}

fn name(value: &str) -> Node {
    Node::Identifier { value: value.to_string() }
}

fn math(op: &str, children: Vec<Node>) -> Node {
    Node::MathExpression { name: op.to_string(), children }
}

fn compare(op: &str, children: Vec<Node>) -> Node {
    Node::ComparisonExpression { name: op.to_string(), children }
}

fn returned(inner: Node) -> Node {
    Node::FunctionReturn { children: vec![inner] }
}

fn call(callee: &str, children: Vec<Node>) -> Node {
    Node::FunctionCall { name: callee.to_string(), children }
}

#[test]
fn negative_exponent_gives_one() {
    assert_eq!(evaluated("2 ^ (3 - 5)"), Ok(Value::Number(1)));
    assert_eq!(evaluated("2 ^ 0"), Ok(Value::Number(1)));
    assert_eq!(evaluated("0 ^ (0 - 1)"), Ok(Value::Number(1)));
}

#[test]
fn chains_evaluate_from_the_left() {
    assert_eq!(evaluated("10 - 2 - 3"), Ok(Value::Number(5)));
    assert_eq!(evaluated("8/4/2"), Ok(Value::Number(1)));
    assert_eq!(evaluated("2^3^2"), Ok(Value::Number(64)));
    assert_eq!(evaluated("100 / 10 * 5 / 2"), Ok(Value::Number(25)));
}

#[test]
fn arithmetic_wraps() {
    assert_eq!(evaluated("2147483647 + 1"), Ok(Value::Number(-2147483648)));
    assert_eq!(evaluated("0 - 2147483647 - 2"), Ok(Value::Number(2147483647)));
    assert_eq!(evaluated("65536 * 65536"), Ok(Value::Number(0)));
    assert_eq!(evaluated("2 ^ 31"), Ok(Value::Number(-2147483648)));
    assert_eq!(evaluated("3 ^ 21"), Ok(Value::Number(1870418611)));
}

#[test]
fn division_truncates_toward_zero() {
    assert_eq!(evaluated("7 / 2"), Ok(Value::Number(3)));
    assert_eq!(evaluated("(0 - 7) / 2"), Ok(Value::Number(-3)));
    assert_eq!(evaluated("7 / (0 - 2)"), Ok(Value::Number(-3)));
    assert_eq!(evaluated("(0 - 7) / (0 - 2)"), Ok(Value::Number(3)));
    assert_eq!(evaluated("(0 - 2147483647 - 1) / (0 - 1)"), Ok(Value::Number(-2147483648)));
}

#[test]
fn division_by_zero_is_invalid() {
    assert_eq!(evaluated("1 / 0"), Err(ErrorKind::InvalidOperands));
    assert_eq!(evaluated("0 / (1 - 1)"), Err(ErrorKind::InvalidOperands));
}

#[test]
fn arithmetic_on_other_values_is_invalid() {
    assert_eq!(evaluated("5 - false"), Err(ErrorKind::InvalidOperands));
    assert_eq!(evaluated("x + 1"), Err(ErrorKind::InvalidOperands));
    assert_eq!(evaluated("1 + foo()"), Err(ErrorKind::InvalidOperands));
    assert_eq!(
        expressed(math("+", vec![Node::Bool { value: true }, num(1)])),
        Err(ErrorKind::InvalidOperands)
    );
    assert_eq!(expressed(math("+", vec![num(1)])), Err(ErrorKind::InvalidOperands));
    assert_eq!(expressed(math("+", vec![])), Err(ErrorKind::InvalidOperands));
}

#[test]
fn unknown_operator_is_undefined() {
    assert_eq!(expressed(math("%", vec![num(7), num(2)])), Err(ErrorKind::UndefinedOperator));
    assert_eq!(expressed(math("%", vec![num(7), name("x")])), Err(ErrorKind::InvalidOperands));
}

#[test]
fn comparisons_of_numbers() {
    assert_eq!(evaluated("2 >= 2"), Ok(Value::Bool(true)));
    assert_eq!(evaluated("1 >= 2"), Ok(Value::Bool(false)));
    assert_eq!(evaluated("1 <= 0"), Ok(Value::Bool(false)));
    assert_eq!(evaluated("0 <= 0"), Ok(Value::Bool(true)));
    assert_eq!(evaluated("1 != 2"), Ok(Value::Bool(true)));
    assert_eq!(evaluated("1 == 2"), Ok(Value::Bool(false)));
    assert_eq!(evaluated("2 > 1"), Ok(Value::Bool(true)));
    assert_eq!(evaluated("2 < 1"), Ok(Value::Bool(false)));
}

#[test]
fn comparisons_of_booleans() {
    let both = |op: &str, a: bool, b: bool| {
        expressed(compare(op, vec![Node::Bool { value: a }, Node::Bool { value: b }]))
    };
    assert_eq!(both("==", true, true), Ok(Value::Bool(true)));
    assert_eq!(both("==", true, false), Ok(Value::Bool(false)));
    assert_eq!(both("!=", true, false), Ok(Value::Bool(true)));
    assert_eq!(both("<", true, false), Err(ErrorKind::InvalidComparison));
    assert_eq!(both(">=", true, true), Err(ErrorKind::InvalidComparison));
}

#[test]
fn comparisons_of_mixed_values_are_invalid() {
    assert_eq!(evaluated("1 > false"), Err(ErrorKind::InvalidComparison));
    assert_eq!(evaluated("1 > x"), Err(ErrorKind::InvalidComparison));
    assert_eq!(expressed(compare("~", vec![num(1), num(2)])), Err(ErrorKind::InvalidComparison));
    assert_eq!(expressed(compare("==", vec![num(1)])), Err(ErrorKind::InvalidComparison));
    let text = |s: &str| Node::String { value: s.to_string() };
    assert_eq!(
        expressed(compare("==", vec![text("a"), text("a")])),
        Err(ErrorKind::InvalidComparison)
    );
}

#[test]
fn interpreter_calls_the_entry_function() {
    assert_eq!(start_interpreter(&num(1)), Err(ErrorKind::UndefinedFunction));
    assert_eq!(
        start_interpreter(&Node::Expression { children: vec![num(1)] }),
        Err(ErrorKind::UndefinedFunction)
    );
    assert_eq!(expressed(num(1)), Ok(Value::Number(1)));
    let define = Node::FunctionDefine { children: vec![name("main"), returned(num(8))] };
    assert_eq!(start_interpreter(&define), Ok(Value::Number(8)));
}

#[test]
fn undefined_references() {
    assert_eq!(evaluated("x"), Err(ErrorKind::UndefinedVariable));
    assert_eq!(evaluated("foo()"), Err(ErrorKind::UndefinedFunction));
    assert_eq!(evaluated("fn foo(){return 1;}"), Err(ErrorKind::UndefinedFunction));
}

#[test]
fn function_is_looked_up_before_its_arguments() {
    assert_eq!(evaluated("foo(x)"), Err(ErrorKind::UndefinedFunction));
}

#[test]
fn frames_are_isolated() {
    assert_eq!(
        evaluated("fn main(){let x = 1; return foo();} fn foo(){return x;}"),
        Err(ErrorKind::UndefinedVariable)
    );
    assert_eq!(
        evaluated("fn main(){let y = foo(); return x;} fn foo(){let x = 1; return x;}"),
        Err(ErrorKind::UndefinedVariable)
    );
    assert_eq!(
        evaluated("fn main(){let x = 1; let y = foo(5); return x;} fn foo(x){return x;}"),
        Ok(Value::Number(1))
    );
}

#[test]
fn arguments_are_bound_by_position() {
    assert_eq!(
        evaluated("fn main(){return foo(1,2,3);} fn foo(a,b,c){return a - b - c;}"),
        Ok(Value::Number(-4))
    );
    assert_eq!(
        evaluated("fn main(){let v = 7; return foo(v,v + 1);} fn foo(a,b){return b;}"),
        Ok(Value::Number(8))
    );
}

#[test]
fn every_supplied_argument_is_evaluated() {
    assert_eq!(
        evaluated("fn main(){return foo(1,x);} fn foo(a){return a;}"),
        Err(ErrorKind::UndefinedVariable)
    );
    assert_eq!(
        evaluated("fn main(){return foo(1,2);} fn foo(a){return a;}"),
        Ok(Value::Number(1))
    );
}

#[test]
fn parameter_without_argument_stays_unbound() {
    assert_eq!(
        evaluated("fn main(){return foo(1);} fn foo(a,b){return a;}"),
        Ok(Value::Number(1))
    );
    assert_eq!(
        evaluated("fn main(){return foo(1);} fn foo(a,b){return b;}"),
        Err(ErrorKind::UndefinedVariable)
    );
}

#[test]
fn every_statement_runs_and_the_last_counts() {
    assert_eq!(evaluated("fn main(){return 1; return 2;}"), Ok(Value::Number(2)));
    assert_eq!(evaluated("fn main(){return 1; let x = 3;}"), Ok(Value::Number(3)));
    assert_eq!(evaluated("fn main(){let x = y; return 1;}"), Ok(Value::Number(1)));
    assert_eq!(evaluated("fn main(){return 1; return y;}"), Err(ErrorKind::UndefinedVariable));
}

#[test]
fn later_definition_replaces_earlier() {
    assert_eq!(evaluated("fn main(){return 1;} fn main(){return 2;}"), Ok(Value::Number(2)));
    assert_eq!(evaluated("(1) (2)"), Ok(Value::Number(2)));
    assert_eq!(
        evaluated("if true {return 1;} else {return 2;} if false {return 3;} else {return 4;}"),
        Ok(Value::Number(4))
    );
    assert_eq!(evaluated("fn main(){return 1;} (2)"), Ok(Value::Number(2)));
    assert_eq!(evaluated("(2) fn main(){return 1;}"), Ok(Value::Number(1)));
}

#[test]
fn taken_branch_ends_the_conditional() {
    let failing = || compare("<", vec![name("nowhere"), num(1)]);
    let tree = Node::IfExpression {
        children: vec![
            Node::IfBranch { children: vec![Node::Bool { value: true }, returned(num(1))] },
            Node::ElifBranch { children: vec![failing(), returned(num(2))] },
            Node::ElseBranch { children: vec![returned(call("nowhere", vec![]))] },
        ],
    };
    assert_eq!(expressed(tree), Ok(Value::Number(1)));
    let tree = Node::IfExpression {
        children: vec![
            Node::IfBranch { children: vec![Node::Bool { value: false }, returned(num(1))] },
            Node::ElifBranch { children: vec![Node::Bool { value: true }, returned(num(2))] },
            Node::ElseBranch { children: vec![returned(call("nowhere", vec![]))] },
        ],
    };
    assert_eq!(expressed(tree), Ok(Value::Number(2)));
    let tree = Node::IfExpression {
        children: vec![
            Node::IfBranch { children: vec![Node::Bool { value: false }, returned(num(1))] },
            Node::ElifBranch { children: vec![failing(), returned(num(2))] },
            Node::ElseBranch { children: vec![returned(num(3))] },
        ],
    };
    assert_eq!(expressed(tree), Err(ErrorKind::InvalidElifExpression));
    assert_eq!(
        evaluated("if false {return 1;} else if false {return 2;} else {return 3;}"),
        Ok(Value::Number(3))
    );
}

#[test]
fn conditions_may_be_computed() {
    let tree = Node::IfExpression {
        children: vec![
            Node::IfBranch { children: vec![compare("<", vec![num(2), num(1)]), returned(num(1))] },
            Node::ElseBranch { children: vec![returned(num(9))] },
        ],
    };
    assert_eq!(expressed(tree), Ok(Value::Number(9)));
}

#[test]
fn malformed_conditionals_are_invalid() {
    let conditional = |children: Vec<Node>| expressed(Node::IfExpression { children });
    let truth = |value: bool| Node::Bool { value };
    assert_eq!(conditional(vec![]), Err(ErrorKind::InvalidIfExpression));
    assert_eq!(
        conditional(vec![Node::ElseBranch { children: vec![returned(num(1))] }]),
        Err(ErrorKind::InvalidIfExpression)
    );
    assert_eq!(
        conditional(vec![
            Node::IfBranch { children: vec![num(1), returned(num(1))] },
            Node::ElseBranch { children: vec![returned(num(2))] },
        ]),
        Err(ErrorKind::InvalidIfExpression)
    );
    assert_eq!(
        conditional(vec![
            Node::IfBranch { children: vec![name("x"), returned(num(1))] },
            Node::ElseBranch { children: vec![returned(num(2))] },
        ]),
        Err(ErrorKind::InvalidIfExpression)
    );
    assert_eq!(
        conditional(vec![Node::IfBranch { children: vec![truth(false), returned(num(1))] }]),
        Err(ErrorKind::InvalidIfExpression)
    );
    assert_eq!(
        conditional(vec![
            Node::IfBranch { children: vec![truth(false), returned(num(1))] },
            Node::IfBranch { children: vec![truth(true), returned(num(1))] },
        ]),
        Err(ErrorKind::InvalidIfExpression)
    );
    assert_eq!(
        conditional(vec![Node::IfBranch { children: vec![truth(true)] }]),
        Err(ErrorKind::InvalidIfExpression)
    );
    assert_eq!(
        conditional(vec![
            Node::IfBranch { children: vec![truth(false), returned(num(1))] },
            Node::ElifBranch { children: vec![num(0), returned(num(1))] },
            Node::ElseBranch { children: vec![returned(num(2))] },
        ]),
        Err(ErrorKind::InvalidElifExpression)
    );
    assert_eq!(
        conditional(vec![
            Node::IfBranch { children: vec![truth(false), returned(num(1))] },
            Node::ElifBranch { children: vec![truth(false), returned(num(1))] },
            Node::Bool { value: true },
        ]),
        Err(ErrorKind::InvalidIfExpression)
    );
}

#[test]
fn wrappers_check_what_they_wrap() {
    let mut runtime = Runtime::new();
    assert_eq!(
        runtime.run(&Node::Statement { children: vec![num(1)] }),
        Err(ErrorKind::UnknownStatement)
    );
    assert_eq!(
        runtime.run(&Node::Statement { children: vec![] }),
        Err(ErrorKind::UnknownStatement)
    );
    assert_eq!(
        runtime.run(&Node::Expression { children: vec![returned(num(1))] }),
        Err(ErrorKind::UnknownExpression)
    );
    assert_eq!(
        runtime.run(&Node::Expression { children: vec![] }),
        Err(ErrorKind::UnknownExpression)
    );
    assert_eq!(
        runtime.run(&Node::Statement { children: vec![returned(num(4))] }),
        Ok(Value::Number(4))
    );
}

#[test]
fn nodes_that_stand_for_no_value_are_unhandled() {
    let mut runtime = Runtime::new();
    for node in [
        Node::FunctionArguments { children: vec![] },
        Node::FunctionStatements { children: vec![] },
        Node::IfBranch { children: vec![] },
        Node::ElifBranch { children: vec![] },
        Node::ElseBranch { children: vec![] },
        Node::FunctionReturn { children: vec![] },
        Node::VariableDefine { children: vec![name("x")] },
    ] {
        assert_eq!(runtime.run(&node), Err(ErrorKind::UnhandledNode));
    }
}

#[test]
fn a_function_of_parameters_only_is_unhandled() {
    let tree = Node::Program {
        children: vec![Node::FunctionDefine {
            children: vec![name("main"), Node::FunctionArguments { children: vec![] }],
        }],
    };
    assert_eq!(start_interpreter(&tree), Err(ErrorKind::UnhandledNode));
}

#[test]
fn a_function_without_entries_is_undefined() {
    let tree = Node::Program {
        children: vec![Node::FunctionDefine { children: vec![name("main")] }],
    };
    assert_eq!(start_interpreter(&tree), Err(ErrorKind::UndefinedFunction));
}

#[test]
fn endless_recursion_meets_the_ceiling() {
    assert_eq!(evaluated("fn main(){return main();}"), Err(ErrorKind::RecursionLimit));
    assert_eq!(
        evaluated("fn main(){return a();} fn a(){return b();} fn b(){return a();}"),
        Err(ErrorKind::RecursionLimit)
    );
}

#[test]
fn ceiling_counts_nested_calls() {
    let (_, tree) = program("fn main(){return a();} fn a(){return b();} fn b(){return 7;}")
        .expect("the source parses");
    let start = call("main", vec![]);
    let mut runtime = Runtime::with_max_depth(3);
    assert_eq!(runtime.run(&tree), Ok(Value::Bool(true)));
    assert_eq!(runtime.run(&start), Ok(Value::Number(7)));
    let mut runtime = Runtime::with_max_depth(2);
    assert_eq!(runtime.run(&tree), Ok(Value::Bool(true)));
    assert_eq!(runtime.run(&start), Err(ErrorKind::RecursionLimit));
    let mut runtime = Runtime::with_max_depth(0);
    assert_eq!(runtime.run(&tree), Ok(Value::Bool(true)));
    assert_eq!(runtime.run(&start), Err(ErrorKind::RecursionLimit));
    assert_eq!(runtime.run(&call("nobody", vec![])), Err(ErrorKind::UndefinedFunction));
}

#[test]
fn binding_outside_a_call_is_bound_nowhere() {
    let mut runtime = Runtime::new();
    assert_eq!(runtime.run(&name("x")), Err(ErrorKind::UndefinedVariable));
    assert_eq!(
        runtime.run(&Node::VariableDefine { children: vec![name("x"), num(3)] }),
        Ok(Value::Number(3))
    );
    assert_eq!(runtime.run(&name("x")), Err(ErrorKind::UndefinedVariable));
}

#[test]
fn one_evaluation_outside_a_call_has_a_frame_of_its_own() {
    let mut runtime = Runtime::new();
    let both = math(
        "+",
        vec![Node::VariableDefine { children: vec![name("x"), num(2)] }, name("x")],
    );
    assert_eq!(runtime.run(&both), Ok(Value::Number(4)));
    assert_eq!(runtime.run(&name("x")), Err(ErrorKind::UndefinedVariable));
}

#[test]
fn definition_without_a_name_binds_the_empty_name() {
    let tree = Node::FunctionDefine {
        children: vec![
            name("main"),
            Node::VariableDefine { children: vec![num(0), num(5)] },
            returned(name("")),
        ],
    };
    assert_eq!(start_interpreter(&tree), Ok(Value::Number(5)));
}

#[test]
fn definition_registers_what_follows_the_name() {
    let mut runtime = Runtime::new();
    let define = Node::FunctionDefine {
        children: vec![name("seven"), Node::Statement { children: vec![returned(num(7))] }],
    };
    assert_eq!(runtime.run(&define), Ok(Value::Bool(true)));
    assert_eq!(runtime.run(&call("seven", vec![])), Ok(Value::Number(7)));
    assert_eq!(runtime.run(&Node::FunctionDefine { children: vec![] }), Ok(Value::Bool(true)));
    assert_eq!(runtime.run(&Node::FunctionDefine { children: vec![num(1)] }), Ok(Value::Bool(true)));
    assert_eq!(runtime.run(&call("seven", vec![])), Ok(Value::Number(7)));
}

#[test]
fn call_takes_arguments_with_or_without_a_list() {
    let mut runtime = Runtime::new();
    let define = Node::FunctionDefine {
        children: vec![
            name("second"),
            Node::FunctionArguments {
                children: vec![
                    Node::Expression { children: vec![name("a")] },
                    Node::Expression { children: vec![name("b")] },
                ],
            },
            returned(name("b")),
        ],
    };
    assert_eq!(runtime.run(&define), Ok(Value::Bool(true)));
    assert_eq!(runtime.run(&call("second", vec![num(1), num(2)])), Ok(Value::Number(2)));
    assert_eq!(
        runtime.run(&call(
            "second",
            vec![Node::FunctionArguments { children: vec![num(3), num(4)] }]
        )),
        Ok(Value::Number(4))
    );
}

#[test]
fn evaluating_twice_gives_the_same() {
    let (_, tree) = program(
        "fn foo(a,b,c) {\n  let x = a + 1;\n  let y = bar(c - b);\n  return x * y;\n}\nfn bar(a) {\n  return a * 3;\n}\nfn main() {\n  return foo(1,2,3);\n}",
    )
    .expect("the source parses");
    let first = start_interpreter(&tree);
    let second = start_interpreter(&tree);
    assert_eq!(first, Ok(Value::Number(6)));
    assert_eq!(first, second);
    assert_eq!(start_interpreter(&tree.clone()), first);
}

#[test]
fn values_of_literals() {
    assert_eq!(evaluated("\"\""), Ok(Value::String(String::new())));
    assert_eq!(evaluated("let s = \"a b\";"), Ok(Value::String("a b".to_string())));
    assert_eq!(Value::String("x".to_string()).clone(), Value::String("x".to_string()));
}

#[test]
fn operators_by_name() {
    let op = |s: &str| s.to_string();
    assert_eq!(apply_arithmetic(&op("+"), 2, 3), Ok(Value::Number(5)));
    assert_eq!(apply_arithmetic(&op("-"), 2, 3), Ok(Value::Number(-1)));
    assert_eq!(apply_arithmetic(&op("*"), -2, 3), Ok(Value::Number(-6)));
    assert_eq!(apply_arithmetic(&op("/"), -7, 2), Ok(Value::Number(-3)));
    assert_eq!(apply_arithmetic(&op("/"), i32::MIN, -1), Ok(Value::Number(i32::MIN)));
    assert_eq!(apply_arithmetic(&op("/"), 1, 0), Err(ErrorKind::InvalidOperands));
    assert_eq!(apply_arithmetic(&op("^"), -2, 3), Ok(Value::Number(-8)));
    assert_eq!(apply_arithmetic(&op("^"), 5, -3), Ok(Value::Number(1)));
    assert_eq!(apply_arithmetic(&op("**"), 5, 3), Err(ErrorKind::UndefinedOperator));
    assert_eq!(apply_arithmetic(&op(""), 5, 3), Err(ErrorKind::UndefinedOperator));
    assert_eq!(
        math_result(&op("+"), Err(ErrorKind::UndefinedVariable), Ok(Value::Number(1))),
        Err(ErrorKind::InvalidOperands)
    );
    assert_eq!(
        math_result(&op("+"), Ok(Value::Number(1)), Ok(Value::Number(1))),
        Ok(Value::Number(2))
    );
    assert_eq!(
        comparison_result(&op("<"), Ok(Value::Number(1)), Err(ErrorKind::UndefinedFunction)),
        Err(ErrorKind::InvalidComparison)
    );
    assert_eq!(
        comparison_result(&op("<"), Ok(Value::Number(1)), Ok(Value::Number(2))),
        Ok(Value::Bool(true))
    );
}

#[test]
fn errors_have_their_words() {
    assert_eq!(ErrorKind::UndefinedFunction.message(), "Undefined function");
    assert_eq!(ErrorKind::UndefinedVariable.message(), "Undefined variable");
    assert_eq!(ErrorKind::InvalidOperands.message(), "Invalid");
    assert_eq!(ErrorKind::UndefinedOperator.message(), "Undefined operator");
    assert_eq!(ErrorKind::InvalidComparison.message(), "Invalid comparison expression");
    assert_eq!(ErrorKind::InvalidIfExpression.message(), "Invalid if expression");
    assert_eq!(ErrorKind::InvalidElifExpression.message(), "Invalid elif expression");
    assert_eq!(ErrorKind::UnknownStatement.message(), "Unknown Statement");
    assert_eq!(ErrorKind::UnknownExpression.message(), "Unknown Expression");
    assert_eq!(ErrorKind::UnhandledNode.message(), "Unhandled Node");
    assert_eq!(ErrorKind::RecursionLimit.message(), "Recursion limit reached");
}

#[test]
fn evaluate_parses_and_interprets() {
    assert_eq!(evaluate("10 + 2*6"), Ok(("", Ok(Value::Number(22)))));
    assert_eq!(evaluate("x"), Ok(("", Err(ErrorKind::UndefinedVariable))));
    assert_eq!(evaluate("1 2"), Ok((" 2", Ok(Value::Number(1)))));
    assert_eq!(evaluate("+1"), Err(ParseError { input: "+1", kind: ParseErrorKind::AlphaNumeric }));
    assert_eq!(evaluate(""), Err(ParseError { input: "", kind: ParseErrorKind::AlphaNumeric }));
}
