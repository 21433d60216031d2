use crate::ast::Tree;
use crate::value::{ErrorKind, Val};
use vstd::prelude::*;

verus! {

/// The function table: for each name the nodes registered under it.
pub type Table = Map<Seq<char>, Seq<Tree>>;

/// A frame: the values bound to the names of one call.
pub type Frame = Map<Seq<char>, Val>;

/// What an evaluation leaves: the function table, the active frame, and the value or
/// the failure.
pub struct Outcome {
    pub functions: Table,
    pub frame: Frame,
    pub result: Result<Val, ErrorKind>,
}

/// What the evaluation of a list leaves: the function table, the active frame, and the
/// values of the list in order, or the first failure.
pub struct ListOutcome {
    pub functions: Table,
    pub frame: Frame,
    pub result: Result<Seq<Val>, ErrorKind>,
}

/// The name under which a top-level statement or expression is registered, and that the
/// interpreter calls.
pub open spec fn entry_name() -> Seq<char> {
    "main"@
}

/// `x` wrapped to 32 bits, two's complement.
pub open spec fn wrap(x: int) -> i32 {
    vstd::wrapping::i32_specs::signed_crop(x)
}

/// The quotient of `a` by `b` rounded toward zero; `b` is not zero.
pub open spec fn quotient(a: int, b: int) -> int {
    if a >= 0 && b > 0 {
        a / b
    } else if a < 0 && b < 0 {
        (-a) / (-b)
    } else if a < 0 {
        -((-a) / b)
    } else {
        -(a / (-b))
    }
}

/// `base` multiplied `exponent` times into 1, wrapped after each multiplication; 1 for
/// an exponent that is zero or negative.
pub open spec fn power(base: i32, exponent: int) -> i32
    decreases exponent,
{
    if exponent <= 0 {
        1i32
    } else {
        wrap(power(base, exponent - 1) * base)
    }
}

/// The arithmetic operator `name` on the numbers `a` and `b`.
pub open spec fn arithmetic(name: Seq<char>, a: i32, b: i32) -> Result<Val, ErrorKind> {
    if name == "+"@ {
        Ok(Val::Number(wrap(a + b)))
    } else if name == "-"@ {
        Ok(Val::Number(wrap(a - b)))
    } else if name == "*"@ {
        Ok(Val::Number(wrap(a * b)))
    } else if name == "/"@ {
        if b == 0 {
            Err(ErrorKind::InvalidOperands)
        } else {
            Ok(Val::Number(wrap(quotient(a as int, b as int))))
        }
    } else if name == "^"@ {
        Ok(Val::Number(power(a, b as int)))
    } else {
        Err(ErrorKind::UndefinedOperator)
    }
}

/// The result of an arithmetic expression from the results of its two operands: two
/// numbers have the operator applied, and every other pair, a failed operand
/// included, is invalid.
pub open spec fn math(
    name: Seq<char>,
    left: Result<Val, ErrorKind>,
    right: Result<Val, ErrorKind>,
) -> Result<Val, ErrorKind> {
    match (left, right) {
        (Ok(Val::Number(a)), Ok(Val::Number(b))) => arithmetic(name, a, b),
        _ => Err(ErrorKind::InvalidOperands),
    }
}

/// The result of a comparison from the results of its two operands: two numbers have
/// the six operators, two booleans have `==` and `!=`, and nothing else compares.
pub open spec fn comparison(
    name: Seq<char>,
    left: Result<Val, ErrorKind>,
    right: Result<Val, ErrorKind>,
) -> Result<Val, ErrorKind> {
    match (left, right) {
        (Ok(Val::Number(a)), Ok(Val::Number(b))) => {
            if name == ">"@ {
                Ok(Val::Bool(a > b))
            } else if name == "<"@ {
                Ok(Val::Bool(a < b))
            } else if name == ">="@ {
                Ok(Val::Bool(a >= b))
            } else if name == "<="@ {
                Ok(Val::Bool(a <= b))
            } else if name == "=="@ {
                Ok(Val::Bool(a == b))
            } else if name == "!="@ {
                Ok(Val::Bool(a != b))
            } else {
                Err(ErrorKind::InvalidComparison)
            }
        },
        (Ok(Val::Bool(a)), Ok(Val::Bool(b))) => {
            if name == "=="@ {
                Ok(Val::Bool(a == b))
            } else if name == "!="@ {
                Ok(Val::Bool(a != b))
            } else {
                Err(ErrorKind::InvalidComparison)
            }
        },
        _ => Err(ErrorKind::InvalidComparison),
    }
}

/// The table after the definition with the parts `parts`: where the first part is an
/// identifier, the parts after it are registered under its name, in place of what was
/// registered there; otherwise nothing changes.
pub open spec fn define(functions: Table, parts: Seq<Tree>) -> Table {
    if parts.len() > 0 && parts[0] is Identifier {
        functions.insert(parts[0]->Identifier_value, parts.skip(1))
    } else {
        functions
    }
}

/// The table after one top-level item: a function definition is registered under its
/// name; a bare expression is registered as the entry function that returns it, a bare
/// statement as the entry function that consists of it; anything else is passed over.
pub open spec fn register(functions: Table, item: Tree) -> Table {
    match item {
        Tree::FunctionDefine { children } => define(functions, children),
        Tree::Expression { .. } => functions.insert(
            entry_name(),
            seq![Tree::FunctionReturn { children: seq![item] }],
        ),
        Tree::Statement { .. } => functions.insert(entry_name(), seq![item]),
        _ => functions,
    }
}

/// The table after the top-level items `items`, registered in order.
pub open spec fn register_all(functions: Table, items: Seq<Tree>) -> Table
    decreases items.len(),
{
    if items.len() == 0 {
        functions
    } else {
        register(register_all(functions, items.drop_last()), items.last())
    }
}

/// The arguments that a call supplies: the entries of a leading argument list, or the
/// children themselves where they begin with none.
pub open spec fn supplied(children: Seq<Tree>) -> Seq<Tree> {
    if children.len() > 0 && children[0] is FunctionArguments {
        children[0]->FunctionArguments_children
    } else {
        children
    }
}

/// The parameters that a registered function declares: the entries of a leading
/// parameter list, none where the body begins with no such list.
pub open spec fn parameters(body: Seq<Tree>) -> Seq<Tree> {
    if body.len() > 0 && body[0] is FunctionArguments {
        body[0]->FunctionArguments_children
    } else {
        Seq::empty()
    }
}

/// The name that a parameter declares: that of an identifier that stands first in an
/// expression.
pub open spec fn parameter_name(parameter: Tree) -> Option<Seq<char>> {
    match parameter {
        Tree::Expression { children } => if children.len() > 0 && children[0] is Identifier {
            Some(children[0]->Identifier_value)
        } else {
            None
        },
        _ => None,
    }
}

/// The frame in which the first `count` of `parameters` are bound, each to the value at
/// its own index; a parameter that declares no name, or for which no value is supplied,
/// binds nothing, and of two parameters with one name the later one counts.
pub open spec fn bind(parameters: Seq<Tree>, values: Seq<Val>, count: nat) -> Frame
    decreases count,
{
    if count == 0 {
        Map::empty()
    } else {
        let before = bind(parameters, values, (count - 1) as nat);
        let i = count - 1;
        if i < parameters.len() && i < values.len() && parameter_name(parameters[i]) is Some {
            before.insert(parameter_name(parameters[i])->0, values[i])
        } else {
            before
        }
    }
}

/// The failure `error` that leaves the table and the frame as they are.
pub open spec fn failure(functions: Table, frame: Frame, error: ErrorKind) -> Outcome {
    Outcome { functions, frame, result: Err(error) }
}

/// Whether `tree` is of a kind that an expression may wrap.
pub open spec fn is_expression_kind(tree: Tree) -> bool {
    tree is MathExpression || tree is IfExpression || tree is ComparisonExpression
        || tree is Number || tree is FunctionCall || tree is String || tree is Bool
        || tree is Identifier
}

/// Evaluates `tree` against the table `functions` and the active frame `frame`, with
/// `depth` nested calls allowed.
pub open spec fn eval(depth: nat, functions: Table, frame: Frame, tree: Tree) -> Outcome
    decreases depth, tree, 0nat,
{
    match tree {
        Tree::Program { children } => Outcome {
            functions: register_all(functions, children),
            frame,
            result: Ok(Val::Bool(true)),
        },
        Tree::FunctionDefine { children } => Outcome {
            functions: define(functions, children),
            frame,
            result: Ok(Val::Bool(true)),
        },
        Tree::MathExpression { name, children } => {
            let left = eval_operand(depth, functions, frame, children, 0, ErrorKind::InvalidOperands);
            let right = eval_operand(
                depth,
                left.functions,
                left.frame,
                children,
                1,
                ErrorKind::InvalidOperands,
            );
            Outcome {
                functions: right.functions,
                frame: right.frame,
                result: math(name, left.result, right.result),
            }
        },
        Tree::ComparisonExpression { name, children } => {
            let left = eval_operand(
                depth,
                functions,
                frame,
                children,
                0,
                ErrorKind::InvalidComparison,
            );
            let right = eval_operand(
                depth,
                left.functions,
                left.frame,
                children,
                1,
                ErrorKind::InvalidComparison,
            );
            Outcome {
                functions: right.functions,
                frame: right.frame,
                result: comparison(name, left.result, right.result),
            }
        },
        Tree::IfExpression { children } => eval_if(depth, functions, frame, children),
        Tree::FunctionCall { name, children } => {
            if !functions.contains_key(name) {
                failure(functions, frame, ErrorKind::UndefinedFunction)
            } else if depth == 0 {
                failure(functions, frame, ErrorKind::RecursionLimit)
            } else {
                let body = functions[name];
                let arguments = eval_list(depth, functions, frame, supplied(children), 0);
                match arguments.result {
                    Err(e) => failure(arguments.functions, arguments.frame, e),
                    Ok(values) => {
                        let declared = parameters(body);
                        let callee = bind(declared, values, declared.len());
                        let done = eval_body(
                            (depth - 1) as nat,
                            arguments.functions,
                            callee,
                            body,
                            0,
                            Err(ErrorKind::UndefinedFunction),
                        );
                        Outcome {
                            functions: done.functions,
                            frame: arguments.frame,
                            result: done.result,
                        }
                    },
                }
            }
        },
        Tree::FunctionReturn { children } => {
            if children.len() > 0 {
                eval(depth, functions, frame, children[0])
            } else {
                failure(functions, frame, ErrorKind::UnhandledNode)
            }
        },
        Tree::Identifier { value } => {
            if frame.contains_key(value) {
                Outcome { functions, frame, result: Ok(frame[value]) }
            } else {
                failure(functions, frame, ErrorKind::UndefinedVariable)
            }
        },
        Tree::Statement { children } => {
            if children.len() > 0 && (children[0] is VariableDefine
                || children[0] is FunctionReturn) {
                eval(depth, functions, frame, children[0])
            } else {
                failure(functions, frame, ErrorKind::UnknownStatement)
            }
        },
        Tree::VariableDefine { children } => {
            if children.len() < 2 {
                failure(functions, frame, ErrorKind::UnhandledNode)
            } else {
                let name = if children[0] is Identifier {
                    children[0]->Identifier_value
                } else {
                    Seq::empty()
                };
                let bound = eval(depth, functions, frame, children[1]);
                match bound.result {
                    Err(e) => bound,
                    Ok(value) => Outcome {
                        functions: bound.functions,
                        frame: bound.frame.insert(name, value),
                        result: Ok(value),
                    },
                }
            }
        },
        Tree::Expression { children } => {
            if children.len() > 0 && is_expression_kind(children[0]) {
                eval(depth, functions, frame, children[0])
            } else {
                failure(functions, frame, ErrorKind::UnknownExpression)
            }
        },
        Tree::Number { value } => Outcome { functions, frame, result: Ok(Val::Number(value)) },
        Tree::Bool { value } => Outcome { functions, frame, result: Ok(Val::Bool(value)) },
        Tree::String { value } => Outcome { functions, frame, result: Ok(Val::String(value)) },
        _ => failure(functions, frame, ErrorKind::UnhandledNode),
    }
}

/// Evaluates the operand at `index` of `children`; a missing operand fails with
/// `missing` and changes nothing.
pub open spec fn eval_operand(
    depth: nat,
    functions: Table,
    frame: Frame,
    children: Seq<Tree>,
    index: int,
    missing: ErrorKind,
) -> Outcome
    decreases depth, children, 0nat,
{
    if 0 <= index < children.len() {
        eval(depth, functions, frame, children[index])
    } else {
        failure(functions, frame, missing)
    }
}

/// Evaluates the entries of `list` from `from` on, in order, each against what the one
/// before it left, up to the first that fails.
pub open spec fn eval_list(
    depth: nat,
    functions: Table,
    frame: Frame,
    list: Seq<Tree>,
    from: int,
) -> ListOutcome
    decreases depth, list, list.len() - from,
{
    if 0 <= from < list.len() {
        let first = eval(depth, functions, frame, list[from]);
        match first.result {
            Err(e) => ListOutcome { functions: first.functions, frame: first.frame, result: Err(e) },
            Ok(value) => {
                let others = eval_list(depth, first.functions, first.frame, list, from + 1);
                match others.result {
                    Err(e) => others,
                    Ok(values) => ListOutcome {
                        functions: others.functions,
                        frame: others.frame,
                        result: Ok(seq![value] + values),
                    },
                }
            },
        }
    } else {
        ListOutcome { functions, frame, result: Ok(Seq::empty()) }
    }
}

/// Executes the entries of `body` from `from` on, in order, each against what the one
/// before it left, whether or not that one failed. The result is that of the last
/// entry; `last` where none is left to execute.
pub open spec fn eval_body(
    depth: nat,
    functions: Table,
    frame: Frame,
    body: Seq<Tree>,
    from: int,
    last: Result<Val, ErrorKind>,
) -> Outcome
    decreases depth, body, body.len() - from,
{
    if 0 <= from < body.len() {
        let step = eval(depth, functions, frame, body[from]);
        eval_body(depth, step.functions, step.frame, body, from + 1, step.result)
    } else {
        Outcome { functions, frame, result: last }
    }
}

/// What one branch of a conditional comes to.
pub enum Branch {
    /// The branch decided the conditional.
    Taken(Outcome),
    /// The condition was false: the table and the frame that evaluating it left.
    Skipped { functions: Table, frame: Frame },
}

/// Evaluates a branch with the parts `parts`, a condition and a body: a true
/// condition takes the body, a false one skips the branch, and any other outcome of the
/// condition, or a missing part, is the failure `error`.
pub open spec fn eval_branch(
    depth: nat,
    functions: Table,
    frame: Frame,
    parts: Seq<Tree>,
    error: ErrorKind,
) -> Branch
    decreases depth, parts, 0nat,
{
    if parts.len() == 0 {
        Branch::Taken(failure(functions, frame, error))
    } else {
        let condition = eval(depth, functions, frame, parts[0]);
        match condition.result {
            Ok(Val::Bool(true)) => {
                if parts.len() > 1 {
                    Branch::Taken(eval(depth, condition.functions, condition.frame, parts[1]))
                } else {
                    Branch::Taken(failure(condition.functions, condition.frame, error))
                }
            },
            Ok(Val::Bool(false)) => Branch::Skipped {
                functions: condition.functions,
                frame: condition.frame,
            },
            _ => Branch::Taken(failure(condition.functions, condition.frame, error)),
        }
    }
}

/// Evaluates the `else` branch `branch`: the value of its first part; a node that is no
/// `else` branch, or one with no part, makes the conditional invalid.
pub open spec fn eval_else(depth: nat, functions: Table, frame: Frame, branch: Tree) -> Outcome
    decreases depth, branch, 0nat,
{
    match branch {
        Tree::ElseBranch { children } => if children.len() > 0 {
            eval(depth, functions, frame, children[0])
        } else {
            failure(functions, frame, ErrorKind::InvalidIfExpression)
        },
        _ => failure(functions, frame, ErrorKind::InvalidIfExpression),
    }
}

/// Evaluates a conditional with the branches `branches`: the `if` branch first; where
/// its condition is false and three or more branches are there, the `else if` branch
/// that stands second, and where that one is skipped too, the `else` branch that
/// stands third; where fewer are there, the `else` branch that stands second. A branch
/// that is taken ends the evaluation: no later branch is touched.
pub open spec fn eval_if(depth: nat, functions: Table, frame: Frame, branches: Seq<Tree>) -> Outcome
    decreases depth, branches, 0nat,
{
    if branches.len() == 0 {
        failure(functions, frame, ErrorKind::InvalidIfExpression)
    } else {
        match branches[0] {
            Tree::IfBranch { children } => match eval_branch(
                depth,
                functions,
                frame,
                children,
                ErrorKind::InvalidIfExpression,
            ) {
                Branch::Taken(outcome) => outcome,
                Branch::Skipped { functions, frame } => {
                    if branches.len() > 2 {
                        match branches[1] {
                            Tree::ElifBranch { children } => match eval_branch(
                                depth,
                                functions,
                                frame,
                                children,
                                ErrorKind::InvalidElifExpression,
                            ) {
                                Branch::Taken(outcome) => outcome,
                                Branch::Skipped { functions, frame } => eval_else(
                                    depth,
                                    functions,
                                    frame,
                                    branches[2],
                                ),
                            },
                            _ => failure(functions, frame, ErrorKind::InvalidIfExpression),
                        }
                    } else if branches.len() == 2 {
                        eval_else(depth, functions, frame, branches[1])
                    } else {
                        failure(functions, frame, ErrorKind::InvalidIfExpression)
                    }
                },
            },
            _ => failure(functions, frame, ErrorKind::InvalidIfExpression),
        }
    }
}

/// The result of interpreting `tree` with `depth` nested calls allowed: `tree` is
/// evaluated against an empty table and an empty frame, and then the entry function is
/// called without arguments from an empty frame.
pub open spec fn interpret(depth: nat, tree: Tree) -> Result<Val, ErrorKind> {
    let loaded = eval(depth, Map::empty(), Map::empty(), tree);
    eval(
        depth,
        loaded.functions,
        Map::empty(),
        Tree::FunctionCall { name: entry_name(), children: Seq::empty() },
    ).result
}

/// The tree of a call of `name` with the children `children`.
pub open spec fn call(name: Seq<char>, children: Seq<Tree>) -> Tree {
    Tree::FunctionCall { name, children }
}

/// The tree of a conditional that begins with an `if` branch of `condition` and `body`
/// and goes on with `others`.
pub open spec fn conditional(condition: Tree, body: Tree, others: Seq<Tree>) -> Tree {
    Tree::IfExpression {
        children: seq![Tree::IfBranch { children: seq![condition, body] }] + others,
    }
}

/// A conditional whose `if` condition is true is its `if` body, evaluated against what
/// the condition left: whatever stands after the `if` branch is not evaluated, and so
/// changes nothing.
pub proof fn lemma_if_short_circuit(
    depth: nat,
    functions: Table,
    frame: Frame,
    condition: Tree,
    body: Tree,
    others: Seq<Tree>,
)
    requires
        eval(depth, functions, frame, condition).result == Ok::<Val, ErrorKind>(Val::Bool(true)),
    ensures
        eval(depth, functions, frame, conditional(condition, body, others)) == eval(
            depth,
            eval(depth, functions, frame, condition).functions,
            eval(depth, functions, frame, condition).frame,
            body,
        ),
{
    let branches = seq![Tree::IfBranch { children: seq![condition, body] }] + others;
    assert(branches[0] == Tree::IfBranch { children: seq![condition, body] });
    assert(eval(depth, functions, frame, conditional(condition, body, others)) == eval_if(
        depth,
        functions,
        frame,
        branches,
    ));
}

/// A conditional whose `if` condition is false and whose `else if` condition is true
/// is its `else if` body: the `else` branch is not evaluated, and so changes nothing.
pub proof fn lemma_elif_short_circuit(
    depth: nat,
    functions: Table,
    frame: Frame,
    first: Tree,
    first_body: Tree,
    second: Tree,
    second_body: Tree,
    last: Tree,
)
    requires
        eval(depth, functions, frame, first).result == Ok::<Val, ErrorKind>(Val::Bool(false)),
        eval(
            depth,
            eval(depth, functions, frame, first).functions,
            eval(depth, functions, frame, first).frame,
            second,
        ).result == Ok::<Val, ErrorKind>(Val::Bool(true)),
    ensures
        ({
            let a = eval(depth, functions, frame, first);
            let b = eval(depth, a.functions, a.frame, second);
            eval(
                depth,
                functions,
                frame,
                conditional(
                    first,
                    first_body,
                    seq![Tree::ElifBranch { children: seq![second, second_body] }, last],
                ),
            ) == eval(depth, b.functions, b.frame, second_body)
        }),
{
    let others = seq![Tree::ElifBranch { children: seq![second, second_body] }, last];
    let branches = seq![Tree::IfBranch { children: seq![first, first_body] }] + others;
    assert(branches[0] == Tree::IfBranch { children: seq![first, first_body] });
    assert(branches[1] == Tree::ElifBranch { children: seq![second, second_body] });
    assert(branches.len() == 3);
    assert(eval(depth, functions, frame, conditional(first, first_body, others)) == eval_if(
        depth,
        functions,
        frame,
        branches,
    ));
}

/// A name is bound in the frame of a call only if one of the parameters declares it,
/// and then to one of the values supplied.
pub proof fn lemma_bind_names(parameters: Seq<Tree>, values: Seq<Val>, count: nat, name: Seq<char>)
    ensures
        bind(parameters, values, count).contains_key(name) ==> exists|i: int|
            0 <= i < count && i < parameters.len() && i < values.len() && parameter_name(
                #[trigger] parameters[i],
            ) == Some(name),
    decreases count,
{
    if count > 0 {
        lemma_bind_names(parameters, values, (count - 1) as nat, name);
        let i = count - 1;
        if bind(parameters, values, count).contains_key(name) {
            if bind(parameters, values, (count - 1) as nat).contains_key(name) {
                let j = choose|j: int|
                    0 <= j < count - 1 && j < parameters.len() && j < values.len()
                        && parameter_name(#[trigger] parameters[j]) == Some(name);
                assert(0 <= j < count && parameter_name(parameters[j]) == Some(name));
            } else {
                assert(parameter_name(parameters[i]) == Some(name));
            }
        }
    }
}

/// A call is isolated from the frame of its caller. Of two calls of one function from
/// two frames, whose arguments evaluate alike, both return the same and leave the same
/// table; and a call leaves the caller's frame as the evaluation of the arguments left
/// it, so that nothing that the callee binds reaches the caller.
pub proof fn lemma_call_isolated(
    depth: nat,
    functions: Table,
    one: Frame,
    other: Frame,
    name: Seq<char>,
    children: Seq<Tree>,
)
    requires
        eval_list(depth, functions, one, supplied(children), 0).result == eval_list(
            depth,
            functions,
            other,
            supplied(children),
            0,
        ).result,
        eval_list(depth, functions, one, supplied(children), 0).functions == eval_list(
            depth,
            functions,
            other,
            supplied(children),
            0,
        ).functions,
    ensures
        eval(depth, functions, one, call(name, children)).result == eval(
            depth,
            functions,
            other,
            call(name, children),
        ).result,
        eval(depth, functions, one, call(name, children)).functions == eval(
            depth,
            functions,
            other,
            call(name, children),
        ).functions,
        functions.contains_key(name) && depth > 0 ==> eval(
            depth,
            functions,
            one,
            call(name, children),
        ).frame == eval_list(depth, functions, one, supplied(children), 0).frame,
{
}

/// A call without arguments returns the same from every frame, and leaves every frame
/// as it was.
pub proof fn lemma_call_ignores_frame(
    depth: nat,
    functions: Table,
    one: Frame,
    other: Frame,
    name: Seq<char>,
)
    ensures
        eval(depth, functions, one, call(name, Seq::empty())).result == eval(
            depth,
            functions,
            other,
            call(name, Seq::empty()),
        ).result,
        eval(depth, functions, one, call(name, Seq::empty())).frame == one,
{
    assert(supplied(Seq::<Tree>::empty()) =~= Seq::<Tree>::empty());
    lemma_call_isolated(depth, functions, one, other, name, Seq::empty());
}

/// The entry function is what the last bare item registers: of a program that ends
/// with a bare expression, the function that returns that expression; of one that ends
/// with a bare statement, the function that consists of that statement. What bare
/// items stand before the last is overwritten.
pub proof fn lemma_last_item_is_entry(functions: Table, items: Seq<Tree>, last: Tree)
    requires
        last is Expression || last is Statement,
    ensures
        register_all(functions, items.push(last)).contains_key(entry_name()),
        last is Expression ==> register_all(functions, items.push(last))[entry_name()]
            == seq![Tree::FunctionReturn { children: seq![last] }],
        last is Statement ==> register_all(functions, items.push(last))[entry_name()]
            == seq![last],
{
    assert(items.push(last).drop_last() =~= items);
}

/// Interpretation depends on the tree alone: two interpretations of one tree with one
/// ceiling come to the same.
pub proof fn lemma_interpret_repeatable(depth: nat, one: Tree, other: Tree)
    requires
        one == other,
    ensures
        interpret(depth, one) == interpret(depth, other),
{
}

} // verus!
