use asalang::{
    arguments, boolean, comparison_expression, elif_branch, else_branch, expression,
    function_call, function_definition, function_return, if_branch, if_expression, l1, l1_infix,
    l2, l2_infix, l3, l3_infix, l4, math_expression, number, other_arg,
    parenthetical_expression, program, statement, variable_define, Node, ParseError,
    ParseErrorKind,
};

fn num(value: i32) -> Node {
    Node::Number { value }
}

fn name(value: &str) -> Node {
    Node::Identifier { value: value.to_string() }
}

fn math(op: &str, left: Node, right: Node) -> Node {
    Node::MathExpression { name: op.to_string(), children: vec![left, right] }
}

fn wrapped(inner: Node) -> Node {
    Node::Expression { children: vec![inner] }
}

fn returned(inner: Node) -> Node {
    Node::FunctionReturn { children: vec![inner] }
}

fn error(input: &str, kind: ParseErrorKind) -> ParseError<'_> {
    ParseError { input, kind }
}

#[test]
fn identifier_takes_letters_and_digits() {
    assert_eq!(asalang::identifier("ab1 c"), Ok((" c", name("ab1"))));
    assert_eq!(asalang::identifier("Zz9"), Ok(("", name("Zz9"))));
}

#[test]
fn identifier_needs_one_character() {
    assert_eq!(asalang::identifier(""), Err(error("", ParseErrorKind::AlphaNumeric)));
    assert_eq!(asalang::identifier("_a"), Err(error("_a", ParseErrorKind::AlphaNumeric)));
    assert_eq!(asalang::identifier("\u{e9}t"), Err(error("\u{e9}t", ParseErrorKind::AlphaNumeric)));
}

#[test]
fn number_takes_digits() {
    assert_eq!(number("12ab"), Ok(("ab", num(12))));
    assert_eq!(number("007"), Ok(("", num(7))));
    assert_eq!(number("0"), Ok(("", num(0))));
    assert_eq!(number("2147483647"), Ok(("", num(2147483647))));
}

#[test]
fn number_needs_a_digit() {
    assert_eq!(number("x1"), Err(error("x1", ParseErrorKind::Digit)));
    assert_eq!(number(""), Err(error("", ParseErrorKind::Digit)));
}

#[test]
fn number_above_the_range_is_refused() {
    assert_eq!(number("2147483648"), Err(error("2147483648", ParseErrorKind::TooLarge)));
    assert_eq!(
        number("99999999999999999999999999 "),
        Err(error("99999999999999999999999999 ", ParseErrorKind::TooLarge))
    );
    assert_eq!(number("00000000000000000000000012"), Ok(("", num(12))));
}

#[test]
fn digits_above_the_range_read_as_a_name() {
    assert_eq!(l4("2147483648"), Ok(("", name("2147483648"))));
}

#[test]
fn boolean_takes_the_two_words() {
    assert_eq!(boolean("true!"), Ok(("!", Node::Bool { value: true })));
    assert_eq!(boolean("false"), Ok(("", Node::Bool { value: false })));
    assert_eq!(boolean("tru"), Err(error("tru", ParseErrorKind::Tag)));
    assert_eq!(boolean("True"), Err(error("True", ParseErrorKind::Tag)));
}

#[test]
fn string_takes_a_quoted_run() {
    assert_eq!(
        asalang::string("\"a b 1\"x"),
        Ok(("x", Node::String { value: "a b 1".to_string() }))
    );
    assert_eq!(asalang::string("\"  \""), Ok(("", Node::String { value: "  ".to_string() })));
}

#[test]
fn string_may_be_empty() {
    assert_eq!(asalang::string("\"\""), Ok(("", Node::String { value: String::new() })));
}

#[test]
fn string_refuses_other_characters() {
    assert_eq!(asalang::string("\"a-b\""), Err(error("-b\"", ParseErrorKind::Tag)));
    assert_eq!(asalang::string("abc"), Err(error("abc", ParseErrorKind::Tag)));
    assert_eq!(asalang::string("\"abc"), Err(error("", ParseErrorKind::Tag)));
}

#[test]
fn function_call_holds_its_argument_list() {
    assert_eq!(
        function_call("foo(1,x)+"),
        Ok((
            "+",
            Node::FunctionCall {
                name: "foo".to_string(),
                children: vec![Node::FunctionArguments {
                    children: vec![wrapped(num(1)), wrapped(name("x"))],
                }],
            }
        ))
    );
    assert_eq!(
        function_call("foo()"),
        Ok(("", Node::FunctionCall { name: "foo".to_string(), children: vec![] }))
    );
}

#[test]
fn function_call_needs_its_brackets() {
    assert_eq!(function_call("foo"), Err(error("", ParseErrorKind::Tag)));
    assert_eq!(function_call("foo(1"), Err(error("", ParseErrorKind::Tag)));
    assert_eq!(function_call("(1)"), Err(error("(1)", ParseErrorKind::AlphaNumeric)));
}

#[test]
fn function_call_takes_one_argument_list() {
    assert_eq!(function_call("f((1)(2))"), Err(error("(2))", ParseErrorKind::Tag)));
    assert_eq!(
        function_call("f((1))"),
        Ok((
            "",
            Node::FunctionCall {
                name: "f".to_string(),
                children: vec![Node::FunctionArguments { children: vec![wrapped(num(1))] }],
            }
        ))
    );
    assert_eq!(
        function_definition("fn f((1)(2)){return 1;}"),
        Err(error("(2)){return 1;}", ParseErrorKind::Tag))
    );
}

#[test]
fn arguments_are_separated_by_commas() {
    assert_eq!(
        arguments("1,2,3)"),
        Ok((
            ")",
            Node::FunctionArguments {
                children: vec![wrapped(num(1)), wrapped(num(2)), wrapped(num(3))],
            }
        ))
    );
    assert_eq!(arguments(")"), Err(error(")", ParseErrorKind::AlphaNumeric)));
}

#[test]
fn other_arg_is_a_comma_and_an_expression() {
    assert_eq!(other_arg(",a)"), Ok((")", wrapped(name("a")))));
    assert_eq!(other_arg("a"), Err(error("a", ParseErrorKind::Tag)));
    assert_eq!(other_arg(",)"), Err(error(")", ParseErrorKind::AlphaNumeric)));
}

#[test]
fn parenthetical_expression_allows_spaces() {
    assert_eq!(parenthetical_expression(" ( 1 + 2 ) x"), Ok(("x", math("+", num(1), num(2)))));
    assert_eq!(parenthetical_expression("(1"), Err(error("", ParseErrorKind::Tag)));
    assert_eq!(parenthetical_expression("1)"), Err(error("1)", ParseErrorKind::Tag)));
}

#[test]
fn atom_tries_call_number_name_bracket() {
    assert_eq!(
        l4("f()x"),
        Ok(("x", Node::FunctionCall { name: "f".to_string(), children: vec![] }))
    );
    assert_eq!(l4("12ab"), Ok(("ab", num(12))));
    assert_eq!(l4("ab12"), Ok(("", name("ab12"))));
    assert_eq!(l4("(7)"), Ok(("", num(7))));
    assert_eq!(l4("+"), Err(error("+", ParseErrorKind::Tag)));
}

#[test]
fn infix_holds_the_right_operand_only() {
    assert_eq!(
        l1_infix(" + 2*3 rest"),
        Ok((
            " rest",
            Node::MathExpression {
                name: "+".to_string(),
                children: vec![math("*", num(2), num(3))],
            }
        ))
    );
    assert_eq!(
        l2_infix("/4/2"),
        Ok(("/2", Node::MathExpression { name: "/".to_string(), children: vec![num(4)] }))
    );
    assert_eq!(
        l3_infix("^ 2"),
        Ok(("", Node::MathExpression { name: "^".to_string(), children: vec![num(2)] }))
    );
    assert_eq!(l1_infix("* 2"), Err(error("* 2", ParseErrorKind::Tag)));
    assert_eq!(l2_infix("+ 2"), Err(error("+ 2", ParseErrorKind::Tag)));
    assert_eq!(l3_infix("  * 2"), Err(error("* 2", ParseErrorKind::Tag)));
}

#[test]
fn sums_associate_to_the_left() {
    assert_eq!(
        l1("10-2-3+4"),
        Ok(("", math("+", math("-", math("-", num(10), num(2)), num(3)), num(4))))
    );
}

#[test]
fn products_associate_to_the_left() {
    assert_eq!(
        l2("8/4/2*3"),
        Ok(("", math("*", math("/", math("/", num(8), num(4)), num(2)), num(3))))
    );
}

#[test]
fn powers_associate_to_the_left() {
    assert_eq!(
        l3("2^3^2^1"),
        Ok(("", math("^", math("^", math("^", num(2), num(3)), num(2)), num(1))))
    );
}

#[test]
fn tighter_operators_bind_first() {
    assert_eq!(
        math_expression("10 + 2*6^2"),
        Ok(("", math("+", num(10), math("*", num(2), math("^", num(6), num(2))))))
    );
    assert_eq!(
        math_expression("((10+2)*6)/4"),
        Ok(("", math("/", math("*", math("+", num(10), num(2)), num(6)), num(4))))
    );
}

#[test]
fn math_expression_stops_at_what_it_cannot_read() {
    assert_eq!(math_expression("1 + "), Ok((" + ", num(1))));
    assert_eq!(math_expression("4+2"), Ok(("", math("+", num(4), num(2)))));
}

#[test]
fn comparison_reads_each_operator() {
    for op in [">=", "<=", "==", "!=", ">", "<"] {
        let source = format!("1 {} x", op);
        assert_eq!(
            comparison_expression(&source),
            Ok((
                "",
                Node::ComparisonExpression {
                    name: op.to_string(),
                    children: vec![num(1), name("x")],
                }
            ))
        );
    }
}

#[test]
fn comparison_does_not_chain() {
    assert_eq!(
        comparison_expression("1<2<3"),
        Ok((
            "<3",
            Node::ComparisonExpression { name: "<".to_string(), children: vec![num(1), num(2)] }
        ))
    );
    assert_eq!(comparison_expression("1 + 2"), Err(error("", ParseErrorKind::Tag)));
    assert_eq!(comparison_expression("1 = 2"), Err(error("= 2", ParseErrorKind::Tag)));
    assert_eq!(comparison_expression("1 < "), Err(error("", ParseErrorKind::AlphaNumeric)));
}

#[test]
fn branches_hold_condition_and_return() {
    assert_eq!(
        if_branch("if true { return 1; } x"),
        Ok((
            "x",
            Node::IfBranch {
                children: vec![Node::Bool { value: true }, returned(wrapped(num(1)))],
            }
        ))
    );
    assert_eq!(
        elif_branch("else if false {\nreturn 2;\n}\n"),
        Ok((
            "",
            Node::ElifBranch {
                children: vec![Node::Bool { value: false }, returned(wrapped(num(2)))],
            }
        ))
    );
    assert_eq!(
        else_branch("else {return 3;}"),
        Ok(("", Node::ElseBranch { children: vec![returned(wrapped(num(3)))] }))
    );
}

#[test]
fn branches_need_their_parts() {
    assert_eq!(if_branch("if x {return 1;}"), Err(error("x {return 1;}", ParseErrorKind::Tag)));
    assert_eq!(if_branch("if true {return 1}"), Err(error("}", ParseErrorKind::Tag)));
    assert_eq!(elif_branch("else {return 1;}"), Err(error("else {return 1;}", ParseErrorKind::Tag)));
    assert_eq!(else_branch("else return 1;"), Err(error("return 1;", ParseErrorKind::Tag)));
}

#[test]
fn conditional_holds_two_or_three_branches() {
    let branch = |value: bool, n: i32| vec![Node::Bool { value }, returned(wrapped(num(n)))];
    assert_eq!(
        if_expression(" if true {return 1;} else if false {return 2;} else {return 3;}"),
        Ok((
            "",
            Node::IfExpression {
                children: vec![
                    Node::IfBranch { children: branch(true, 1) },
                    Node::ElifBranch { children: branch(false, 2) },
                    Node::ElseBranch { children: vec![returned(wrapped(num(3)))] },
                ],
            }
        ))
    );
    assert_eq!(
        if_expression("if false {return 1;} else {return 3;}"),
        Ok((
            "",
            Node::IfExpression {
                children: vec![
                    Node::IfBranch { children: branch(false, 1) },
                    Node::ElseBranch { children: vec![returned(wrapped(num(3)))] },
                ],
            }
        ))
    );
    assert_eq!(if_expression("if true {return 1;}"), Err(error("", ParseErrorKind::Tag)));
}

#[test]
fn expression_wraps_the_first_that_fits() {
    assert_eq!(expression("true == 1"), Ok((" == 1", wrapped(Node::Bool { value: true }))));
    assert_eq!(
        expression("1 == 1"),
        Ok((
            "",
            wrapped(Node::ComparisonExpression {
                name: "==".to_string(),
                children: vec![num(1), num(1)],
            })
        ))
    );
    assert_eq!(expression("1+x"), Ok(("", wrapped(math("+", num(1), name("x"))))));
    assert_eq!(
        expression("\"a\""),
        Ok(("", wrapped(Node::String { value: "a".to_string() })))
    );
    assert_eq!(expression("-1"), Err(error("-1", ParseErrorKind::AlphaNumeric)));
}

#[test]
fn return_takes_a_call_an_expression_or_a_name() {
    assert_eq!(
        function_return("return f();"),
        Ok((";", returned(Node::FunctionCall { name: "f".to_string(), children: vec![] })))
    );
    assert_eq!(function_return("return 1+1;"), Ok((";", returned(wrapped(math("+", num(1), num(1)))))));
    assert_eq!(function_return("return;"), Err(error("return;", ParseErrorKind::Tag)));
    assert_eq!(function_return("return ;"), Err(error(";", ParseErrorKind::AlphaNumeric)));
}

#[test]
fn variable_define_holds_name_and_expression() {
    assert_eq!(
        variable_define("let x  =  2;"),
        Ok((";", Node::VariableDefine { children: vec![name("x"), wrapped(num(2))] }))
    );
    assert_eq!(variable_define("let x 2"), Err(error("2", ParseErrorKind::Tag)));
    assert_eq!(variable_define("letx = 2"), Err(error("letx = 2", ParseErrorKind::Tag)));
}

#[test]
fn statement_takes_what_trails_it() {
    let expected = Node::Statement {
        children: vec![Node::VariableDefine { children: vec![name("x"), wrapped(num(1))] }],
    };
    assert_eq!(statement(" \t let x = 1;;  \n\nnext"), Ok(("next", expected)));
    assert_eq!(
        statement("return x"),
        Ok(("", Node::Statement { children: vec![returned(wrapped(name("x")))] }))
    );
    assert_eq!(statement("  x = 1"), Err(error("x = 1", ParseErrorKind::Tag)));
}

#[test]
fn function_definition_holds_name_parameters_and_body() {
    let expected = Node::FunctionDefine {
        children: vec![
            name("add"),
            Node::FunctionArguments { children: vec![wrapped(name("a")), wrapped(name("b"))] },
            Node::Statement {
                children: vec![Node::VariableDefine {
                    children: vec![name("c"), wrapped(math("+", name("a"), name("b")))],
                }],
            },
            Node::Statement { children: vec![returned(wrapped(name("c")))] },
        ],
    };
    assert_eq!(
        function_definition("fn add(a,b) {\n  let c = a+b;\n  return c;\n}\n rest"),
        Ok(("rest", expected))
    );
}

#[test]
fn function_definition_needs_a_statement() {
    assert_eq!(function_definition("fn f(){}"), Err(error("}", ParseErrorKind::Tag)));
    assert_eq!(function_definition("fn f() return 1;"), Err(error("return 1;", ParseErrorKind::Tag)));
    assert_eq!(function_definition("fn (){return 1;}"), Err(error("(){return 1;}", ParseErrorKind::AlphaNumeric)));
}

#[test]
fn program_collects_its_items() {
    assert_eq!(
        program("(1) (2)"),
        Ok(("", Node::Program { children: vec![wrapped(num(1)), wrapped(num(2))] }))
    );
    assert_eq!(program("1 2"), Ok((" 2", Node::Program { children: vec![wrapped(num(1))] })));
}

#[test]
fn program_needs_one_item() {
    assert_eq!(program(""), Err(error("", ParseErrorKind::AlphaNumeric)));
    assert_eq!(program("+"), Err(error("+", ParseErrorKind::AlphaNumeric)));
}
