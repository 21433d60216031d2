use crate::ast::{clone_nodes, lemma_trees_of, trees_of, Node, Tree};
use crate::grammar;
use crate::parser::{program, ParseResult};
use crate::semantics::{
    arithmetic, bind, comparison, define, eval, eval_body, eval_branch, eval_else, eval_if,
    eval_list, eval_operand, interpret, math, parameters, power, quotient, register_all,
    supplied, wrap, Branch, Frame, ListOutcome, Table,
};
use crate::value::{result_view, ErrorKind, Val, Value};
use vstd::hash_map::StringHashMap;
use vstd::prelude::*;
use vstd::string::StringExecFns;

verus! {

/// The number of nested calls that a runtime allows unless it is made with another.
pub const DEFAULT_MAX_DEPTH: usize = 200;

/// The frame that a map of bindings stands for.
pub open spec fn frame_of(bindings: StringHashMap<Value>) -> Frame {
    bindings@.map_values(|v: Value| v@)
}

/// The table that a map of function bodies stands for.
pub open spec fn table_of(bodies: StringHashMap<Vec<Node>>) -> Table {
    bodies@.map_values(|body: Vec<Node>| trees_of(body@))
}

/// The values that a list of values stands for.
pub open spec fn vals_of(values: Seq<Value>) -> Seq<Val> {
    values.map_values(|v: Value| v@)
}

/// The state of an evaluator: the function table, the stack of frames, the frame of
/// the innermost call last, and the number of nested calls allowed.
pub struct Machine {
    pub functions: Table,
    pub stack: Seq<Frame>,
    pub limit: nat,
}

/// An evaluator: a function table, a stack of frames, and a ceiling on the nesting of
/// calls. A frame is on the stack from the start of a call to its return, so that a
/// runtime holds none before its first call. While a node is evaluated, the frame
/// that it is evaluated against is held apart from the stack, which meanwhile holds
/// the frames of the calls that wait.
pub struct Runtime {
    functions: StringHashMap<Vec<Node>>,
    stack: Vec<StringHashMap<Value>>,
    max_depth: usize,
}

impl View for Runtime {
    type V = Machine;

    closed spec fn view(&self) -> Machine {
        Machine {
            functions: table_of(self.functions),
            stack: self.stack@.map_values(|f: StringHashMap<Value>| frame_of(f)),
            limit: self.max_depth as nat,
        }
    }
}

/// Whether `name` is the word `word`.
fn is_word(name: &String, word: &str) -> (same: bool)
    ensures
        same == (name@ == word@),
{
    let other = String::from_str(word);
    *name == other
}

/// The arithmetic operator `name` on the numbers `a` and `b`.
pub fn apply_arithmetic(name: &String, a: i32, b: i32) -> (res: Result<Value, ErrorKind>)
    ensures
        result_view(res) == arithmetic(name@, a, b),
{
    if is_word(name, "+") {
        let sum = a.wrapping_add(b);
        assert(sum == wrap(a + b));
        Ok(Value::Number(sum))
    } else if is_word(name, "-") {
        let difference = a.wrapping_sub(b);
        assert(difference == wrap(a - b));
        Ok(Value::Number(difference))
    } else if is_word(name, "*") {
        Ok(Value::Number(a.wrapping_mul(b)))
    } else if is_word(name, "/") {
        if b == 0 {
            Err(ErrorKind::InvalidOperands)
        } else {
            match a.checked_div(b) {
                Some(q) => {
                    assert(q == wrap(quotient(a as int, b as int)));
                    Ok(Value::Number(q))
                },
                None => {
                    assert(i32::MIN == wrap(quotient(a as int, b as int)));
                    Ok(Value::Number(i32::MIN))
                },
            }
        }
    } else if is_word(name, "^") {
        let mut result: i32 = 1;
        let mut i: i32 = 0;
        while i < b
            invariant
                0 <= i,
                i <= b || i == 0,
                result == power(a, i as int),
            decreases b - i,
        {
            result = result.wrapping_mul(a);
            i = i + 1;
        }
        Ok(Value::Number(result))
    } else {
        Err(ErrorKind::UndefinedOperator)
    }
}

/// The result of an arithmetic expression from the results of its two operands.
pub fn math_result(
    name: &String,
    left: Result<Value, ErrorKind>,
    right: Result<Value, ErrorKind>,
) -> (res: Result<Value, ErrorKind>)
    ensures
        result_view(res) == math(name@, result_view(left), result_view(right)),
{
    match (left, right) {
        (Ok(Value::Number(a)), Ok(Value::Number(b))) => apply_arithmetic(name, a, b),
        _ => Err(ErrorKind::InvalidOperands),
    }
}

/// The result of a comparison from the results of its two operands.
pub fn comparison_result(
    name: &String,
    left: Result<Value, ErrorKind>,
    right: Result<Value, ErrorKind>,
) -> (res: Result<Value, ErrorKind>)
    ensures
        result_view(res) == comparison(name@, result_view(left), result_view(right)),
{
    match (left, right) {
        (Ok(Value::Number(a)), Ok(Value::Number(b))) => {
            if is_word(name, ">") {
                Ok(Value::Bool(a > b))
            } else if is_word(name, "<") {
                Ok(Value::Bool(a < b))
            } else if is_word(name, ">=") {
                Ok(Value::Bool(a >= b))
            } else if is_word(name, "<=") {
                Ok(Value::Bool(a <= b))
            } else if is_word(name, "==") {
                Ok(Value::Bool(a == b))
            } else if is_word(name, "!=") {
                Ok(Value::Bool(a != b))
            } else {
                Err(ErrorKind::InvalidComparison)
            }
        },
        (Ok(Value::Bool(a)), Ok(Value::Bool(b))) => {
            if is_word(name, "==") {
                Ok(Value::Bool(a == b))
            } else if is_word(name, "!=") {
                Ok(Value::Bool(a != b))
            } else {
                Err(ErrorKind::InvalidComparison)
            }
        },
        _ => Err(ErrorKind::InvalidComparison),
    }
}


/// Whether `node` is of a kind that a statement may wrap.
fn is_statement_kind(node: &Node) -> (yes: bool)
    ensures
        yes == (node@ is VariableDefine || node@ is FunctionReturn),
{
    match node {
        Node::VariableDefine { .. } | Node::FunctionReturn { .. } => true,
        _ => false,
    }
}

/// Whether `node` is of a kind that an expression may wrap.
fn is_expression_kind(node: &Node) -> (yes: bool)
    ensures
        yes == crate::semantics::is_expression_kind(node@),
{
    match node {
        Node::MathExpression { .. }
        | Node::IfExpression { .. }
        | Node::ComparisonExpression { .. }
        | Node::Number { .. }
        | Node::FunctionCall { .. }
        | Node::String { .. }
        | Node::Bool { .. }
        | Node::Identifier { .. } => true,
        _ => false,
    }
}

/// A copy of the nodes of `nodes` from index 1 on.
fn clone_tail(nodes: &Vec<Node>) -> (tail: Vec<Node>)
    requires
        nodes.len() > 0,
    ensures
        trees_of(tail@) == trees_of(nodes@).skip(1),
{
    let mut tail: Vec<Node> = Vec::new();
    let mut i: usize = 1;
    while i < nodes.len()
        invariant
            1 <= i <= nodes.len(),
            tail.len() == i - 1,
            forall|j: int| 0 <= j < i - 1 ==> (#[trigger] tail@[j])@ == nodes@[j + 1]@,
        decreases nodes.len() - i,
    {
        tail.push(nodes[i].clone());
        i += 1;
    }
    proof {
        lemma_trees_of(tail@);
        lemma_trees_of(nodes@);
        assert(trees_of(tail@) =~= trees_of(nodes@).skip(1));
    }
    tail
}

/// The frame of a call of the function with the body `body` on the values `values`.
fn bind_frame(body: &Vec<Node>, values: &Vec<Value>) -> (frame: StringHashMap<Value>)
    ensures
        frame_of(frame) == bind(
            parameters(trees_of(body@)),
            vals_of(values@),
            parameters(trees_of(body@)).len(),
        ),
{
    let mut frame: StringHashMap<Value> = StringHashMap::new();
    assert(frame_of(frame) =~= Map::<Seq<char>, Val>::empty());
    proof {
        lemma_trees_of(body@);
    }
    if body.len() == 0 {
        return frame;
    }
    match &body[0] {
        Node::FunctionArguments { children: declared } => {
            let mut i: usize = 0;
            while i < declared.len()
                invariant
                    i <= declared.len(),
                    frame_of(frame) == bind(trees_of(declared@), vals_of(values@), i as nat),
                decreases declared.len() - i,
            {
                proof {
                    lemma_trees_of(declared@);
                }
                if i < values.len() {
                    match &declared[i] {
                        Node::Expression { children } => {
                            proof {
                                lemma_trees_of(children@);
                            }
                            if children.len() > 0 {
                                match &children[0] {
                                    Node::Identifier { value } => {
                                        let ghost before = frame_of(frame);
                                        let v = values[i].clone();
                                        frame.insert(value.clone(), v);
                                        assert(frame_of(frame) =~= before.insert(value@, v@));
                                    },
                                    _ => {},
                                }
                            }
                        },
                        _ => {},
                    }
                }
                i += 1;
            }
            proof {
                lemma_trees_of(declared@);
            }
            frame
        },
        _ => frame,
    }
}

/// `prefix` put before the values that `outcome` holds.
pub open spec fn after_values(prefix: Seq<Val>, outcome: ListOutcome) -> ListOutcome {
    match outcome.result {
        Ok(values) => ListOutcome {
            functions: outcome.functions,
            frame: outcome.frame,
            result: Ok(prefix + values),
        },
        Err(_) => outcome,
    }
}

impl Runtime {
    /// The frame against which the runtime evaluates: the last of the stack, or an
    /// empty frame where the stack holds none.
    pub open spec fn active(&self) -> Frame {
        if self@.stack.len() > 0 {
            self@.stack.last()
        } else {
            Map::empty()
        }
    }

    /// Whether `self` is what `before` becomes when an evaluation leaves the table
    /// `functions`: the frames on the stack and the ceiling stay.
    closed spec fn follows(&self, before: Runtime, functions: Table) -> bool {
        &&& table_of(self.functions) == functions
        &&& self.stack@ == before.stack@
        &&& self.max_depth == before.max_depth
    }

    /// A runtime with an empty table, no frame, and the default ceiling.
    pub fn new() -> (runtime: Runtime)
        ensures
            runtime@ == (Machine {
                functions: Map::empty(),
                stack: Seq::empty(),
                limit: DEFAULT_MAX_DEPTH as nat,
            }),
    {
        Runtime::with_max_depth(DEFAULT_MAX_DEPTH)
    }

    /// A runtime with an empty table and no frame that allows `max_depth` nested calls.
    pub fn with_max_depth(max_depth: usize) -> (runtime: Runtime)
        ensures
            runtime@ == (Machine {
                functions: Map::empty(),
                stack: Seq::empty(),
                limit: max_depth as nat,
            }),
    {
        let runtime = Runtime { functions: StringHashMap::new(), stack: Vec::new(), max_depth };
        proof {
            assert(table_of(runtime.functions) =~= Map::<Seq<char>, Seq<Tree>>::empty());
            assert(runtime@.stack =~= Seq::<Frame>::empty());
        }
        runtime
    }

    /// Registers `body` under `name`.
    fn install(&mut self, name: String, body: Vec<Node>)
        ensures
            final(self).follows(
                *old(self),
                table_of(old(self).functions).insert(name@, trees_of(body@)),
            ),
    {
        self.functions.insert(name, body);
        assert(table_of(self.functions) =~= table_of(old(self).functions).insert(
            name@,
            trees_of(body@),
        ));
    }

    /// Registers the definition with the parts `parts`.
    fn define(&mut self, parts: &Vec<Node>)
        ensures
            final(self).follows(
                *old(self),
                define(table_of(old(self).functions), trees_of(parts@)),
            ),
    {
        proof {
            lemma_trees_of(parts@);
        }
        if parts.len() > 0 {
            match &parts[0] {
                Node::Identifier { value } => {
                    let body = clone_tail(parts);
                    self.install(value.clone(), body);
                },
                _ => {},
            }
        }
    }

    /// Registers the top-level items `items` in order.
    fn register_items(&mut self, items: &Vec<Node>)
        ensures
            final(self).follows(
                *old(self),
                register_all(table_of(old(self).functions), trees_of(items@)),
            ),
    {
        let mut i: usize = 0;
        proof {
            lemma_trees_of(items@);
            assert(trees_of(items@).take(0) =~= Seq::<Tree>::empty());
        }
        while i < items.len()
            invariant
                i <= items.len(),
                trees_of(items@).len() == items@.len(),
                forall|j: int| 0 <= j < items@.len() ==> #[trigger] trees_of(items@)[j] == items@[j]@,
                self.follows(
                    *old(self),
                    register_all(table_of(old(self).functions), trees_of(items@).take(i as int)),
            ),
            decreases items.len() - i,
        {
            let ghost now = trees_of(items@).take(i + 1);
            proof {
                assert(now.drop_last() =~= trees_of(items@).take(i as int));
                assert(now.last() == items@[i as int]@);
            }
            match &items[i] {
                Node::FunctionDefine { children } => {
                    self.define(children);
                },
                Node::Expression { .. } => {
                    let body = vec![Node::FunctionReturn { children: vec![items[i].clone()] }];
                    proof {
                        lemma_trees_of(body@);
                        lemma_trees_of(body@[0]->FunctionReturn_children@);
                        assert(trees_of(body@[0]->FunctionReturn_children@) =~= seq![
                            items@[i as int]@,
                        ]);
                        assert(trees_of(body@) =~= seq![
                            Tree::FunctionReturn { children: seq![items@[i as int]@] },
                        ]);
                        reveal_strlit("main");
                    }
                    self.install(String::from_str("main"), body);
                },
                Node::Statement { .. } => {
                    let body = vec![items[i].clone()];
                    proof {
                        lemma_trees_of(body@);
                        assert(trees_of(body@) =~= seq![items@[i as int]@]);
                    }
                    self.install(String::from_str("main"), body);
                },
                _ => {},
            }
            i += 1;
        }
        assert(trees_of(items@).take(i as int) =~= trees_of(items@));
    }

    /// Evaluates the operand at `index` of `children`.
    fn run_operand(
        &mut self,
        frame: &mut StringHashMap<Value>,
        children: &Vec<Node>,
        index: usize,
        depth: usize,
        missing: ErrorKind,
    ) -> (res: Result<Value, ErrorKind>)
        ensures
            ({
                let o = eval_operand(
                    depth as nat,
                    table_of(old(self).functions),
                    frame_of(*old(frame)),
                    trees_of(children@),
                    index as int,
                    missing,
                );
                final(self).follows(*old(self), o.functions) && frame_of(*final(frame)) == o.frame
                    && result_view(res) == o.result
            }),
        decreases depth, children, 0nat,
    {
        proof {
            lemma_trees_of(children@);
        }
        if index < children.len() {
            self.run_at(frame, &children[index], depth)
        } else {
            Err(missing)
        }
    }

    /// Evaluates the entries of `list` in order, up to the first that fails.
    fn run_list(
        &mut self,
        frame: &mut StringHashMap<Value>,
        list: &Vec<Node>,
        depth: usize,
    ) -> (res: Result<Vec<Value>, ErrorKind>)
        ensures
            ({
                let o = eval_list(
                    depth as nat,
                    table_of(old(self).functions),
                    frame_of(*old(frame)),
                    trees_of(list@),
                    0,
                );
                &&& final(self).follows(*old(self), o.functions)
                &&& frame_of(*final(frame)) == o.frame
                &&& match res {
                    Ok(values) => o.result == Ok::<Seq<Val>, ErrorKind>(vals_of(values@)),
                    Err(e) => o.result == Err::<Seq<Val>, ErrorKind>(e),
                }
            }),
        decreases depth, list, 0nat,
    {
        let ghost goal = eval_list(
            depth as nat,
            table_of(old(self).functions),
            frame_of(*old(frame)),
            trees_of(list@),
            0,
        );
        let mut values: Vec<Value> = Vec::new();
        let mut i: usize = 0;
        proof {
            lemma_trees_of(list@);
            assert(vals_of(values@) =~= Seq::<Val>::empty());
            assert(after_values(vals_of(values@), goal) == goal) by {
                if let Ok(vs) = goal.result {
                    assert(Seq::<Val>::empty() + vs =~= vs);
                }
            }
        }
        while i < list.len()
            invariant
                i <= list.len(),
                trees_of(list@).len() == list@.len(),
                forall|j: int| 0 <= j < list@.len() ==> #[trigger] trees_of(list@)[j] == list@[j]@,
                self.stack@ == old(self).stack@,
                self.max_depth == old(self).max_depth,
                goal == eval_list(
                    depth as nat,
                    table_of(old(self).functions),
                    frame_of(*old(frame)),
                    trees_of(list@),
                    0,
                ),
                goal == after_values(
                    vals_of(values@),
                    eval_list(
                        depth as nat,
                        table_of(self.functions),
                        frame_of(*frame),
                        trees_of(list@),
                        i as int,
                    ),
                ),
            decreases list.len() - i,
        {
            let ghost before = vals_of(values@);
            let ghost here = eval_list(
                depth as nat,
                table_of(self.functions),
                frame_of(*frame),
                trees_of(list@),
                i as int,
            );
            let ghost next = eval_list(
                depth as nat,
                eval(
                    depth as nat,
                    table_of(self.functions),
                    frame_of(*frame),
                    list@[i as int]@,
                ).functions,
                eval(
                    depth as nat,
                    table_of(self.functions),
                    frame_of(*frame),
                    list@[i as int]@,
                ).frame,
                trees_of(list@),
                i + 1,
            );
            match self.run_at(frame, &list[i], depth) {
                Ok(value) => {
                    values.push(value);
                    proof {
                        assert(vals_of(values@) =~= before.push(value@));
                        if let Ok(vs) = next.result {
                            assert(before + (seq![value@] + vs) =~= before.push(value@) + vs);
                        }
                    }
                },
                Err(e) => {
                    assert(here.result == Err::<Seq<Val>, ErrorKind>(e));
                    assert(goal == here);

                    return Err(e);
                },
            }
            i += 1;
        }
        assert(vals_of(values@) + Seq::<Val>::empty() =~= vals_of(values@));
        Ok(values)
    }

    /// Executes the entries of `body` in order, whether or not one fails, and hands back
    /// the result of the last.
    fn run_body(
        &mut self,
        frame: &mut StringHashMap<Value>,
        body: &Vec<Node>,
        depth: usize,
    ) -> (res: Result<Value, ErrorKind>)
        ensures
            ({
                let o = eval_body(
                    depth as nat,
                    table_of(old(self).functions),
                    frame_of(*old(frame)),
                    trees_of(body@),
                    0,
                    Err(ErrorKind::UndefinedFunction),
                );
                final(self).follows(*old(self), o.functions) && frame_of(*final(frame)) == o.frame
                    && result_view(res) == o.result
            }),
        decreases depth, body, 0nat,
    {
        let ghost goal = eval_body(
            depth as nat,
            table_of(old(self).functions),
            frame_of(*old(frame)),
            trees_of(body@),
            0,
            Err(ErrorKind::UndefinedFunction),
        );
        let mut last: Result<Value, ErrorKind> = Err(ErrorKind::UndefinedFunction);
        let mut i: usize = 0;
        proof {
            lemma_trees_of(body@);
        }
        while i < body.len()
            invariant
                i <= body.len(),
                trees_of(body@).len() == body@.len(),
                forall|j: int| 0 <= j < body@.len() ==> #[trigger] trees_of(body@)[j] == body@[j]@,
                self.stack@ == old(self).stack@,
                self.max_depth == old(self).max_depth,
                goal == eval_body(
                    depth as nat,
                    table_of(self.functions),
                    frame_of(*frame),
                    trees_of(body@),
                    i as int,
                    result_view(last),
                ),
            decreases body.len() - i,
        {
            last = self.run_at(frame, &body[i], depth);
            i += 1;
        }
        last
    }

    /// Evaluates a branch with the parts `parts`, a condition and a body. `None` says
    /// that the condition was false.
    fn run_branch(
        &mut self,
        frame: &mut StringHashMap<Value>,
        parts: &Vec<Node>,
        depth: usize,
        error: ErrorKind,
    ) -> (res: Option<Result<Value, ErrorKind>>)
        ensures
            match eval_branch(
                depth as nat,
                table_of(old(self).functions),
                frame_of(*old(frame)),
                trees_of(parts@),
                error,
            ) {
                Branch::Taken(o) => {
                    &&& final(self).follows(*old(self), o.functions)
                &&& frame_of(*final(frame)) == o.frame
                    &&& res matches Some(r)
                    &&& result_view(r) == o.result
                },
                Branch::Skipped { functions: table, frame: kept } => {
                    &&& final(self).follows(*old(self), table)
                    &&& frame_of(*final(frame)) == kept
                    &&& res is None
                },
            },
        decreases depth, parts, 0nat,
    {
        proof {
            lemma_trees_of(parts@);
        }
        if parts.len() == 0 {
            return Some(Err(error));
        }
        match self.run_at(frame, &parts[0], depth) {
            Ok(Value::Bool(true)) => {
                if parts.len() > 1 {
                    Some(self.run_at(frame, &parts[1], depth))
                } else {
                    Some(Err(error))
                }
            },
            Ok(Value::Bool(false)) => None,
            _ => Some(Err(error)),
        }
    }

    /// Evaluates the `else` branch `branch`.
    fn run_else(
        &mut self,
        frame: &mut StringHashMap<Value>,
        branch: &Node,
        depth: usize,
    ) -> (res: Result<Value, ErrorKind>)
        ensures
            ({
                let o = eval_else(
                    depth as nat,
                    table_of(old(self).functions),
                    frame_of(*old(frame)),
                    branch@,
                );
                final(self).follows(*old(self), o.functions) && frame_of(*final(frame)) == o.frame
                    && result_view(res) == o.result
            }),
        decreases depth, branch, 0nat,
    {
        match branch {
            Node::ElseBranch { children } => {
                proof {
                    lemma_trees_of(children@);
                }
                if children.len() > 0 {
                    self.run_at(frame, &children[0], depth)
                } else {
                    Err(ErrorKind::InvalidIfExpression)
                }
            },
            _ => Err(ErrorKind::InvalidIfExpression),
        }
    }

    /// Evaluates a conditional with the branches `branches`.
    fn run_if(
        &mut self,
        frame: &mut StringHashMap<Value>,
        branches: &Vec<Node>,
        depth: usize,
    ) -> (res: Result<Value, ErrorKind>)
        ensures
            ({
                let o = eval_if(
                    depth as nat,
                    table_of(old(self).functions),
                    frame_of(*old(frame)),
                    trees_of(branches@),
                );
                final(self).follows(*old(self), o.functions) && frame_of(*final(frame)) == o.frame
                    && result_view(res) == o.result
            }),
        decreases depth, branches, 0nat,
    {
        proof {
            lemma_trees_of(branches@);
        }
        if branches.len() == 0 {
            return Err(ErrorKind::InvalidIfExpression);
        }
        match &branches[0] {
            Node::IfBranch { children } => {
                if let Some(decided) = self.run_branch(frame, children, depth, ErrorKind::InvalidIfExpression) {
                    return decided;
                }
            },
            _ => {
                return Err(ErrorKind::InvalidIfExpression);
            },
        }
        if branches.len() > 2 {
            match &branches[1] {
                Node::ElifBranch { children } => {
                    if let Some(decided) = self.run_branch(frame, children,
                        depth,
                        ErrorKind::InvalidElifExpression,
                    ) {
                        return decided;
                    }
                    self.run_else(frame, &branches[2], depth)
                },
                _ => Err(ErrorKind::InvalidIfExpression),
            }
        } else if branches.len() == 2 {
            self.run_else(frame, &branches[1], depth)
        } else {
            Err(ErrorKind::InvalidIfExpression)
        }
    }

    /// Evaluates the arguments that a call with the children `children` supplies.
    fn run_arguments(
        &mut self,
        frame: &mut StringHashMap<Value>,
        children: &Vec<Node>,
        depth: usize,
    ) -> (res: Result<Vec<Value>, ErrorKind>)
        ensures
            ({
                let o = eval_list(
                    depth as nat,
                    table_of(old(self).functions),
                    frame_of(*old(frame)),
                    supplied(trees_of(children@)),
                    0,
                );
                &&& final(self).follows(*old(self), o.functions)
                &&& frame_of(*final(frame)) == o.frame
                &&& match res {
                    Ok(values) => o.result == Ok::<Seq<Val>, ErrorKind>(vals_of(values@)),
                    Err(e) => o.result == Err::<Seq<Val>, ErrorKind>(e),
                }
            }),
        decreases depth, children, 1nat,
    {
        proof {
            lemma_trees_of(children@);
        }
        if children.len() > 0 {
            match &children[0] {
                Node::FunctionArguments { children: inner } => self.run_list(frame, inner, depth),
                _ => self.run_list(frame, children, depth),
            }
        } else {
            self.run_list(frame, children, depth)
        }
    }

    /// Calls the function `name` on the arguments that `children` supplies.
    fn run_call(
        &mut self,
        frame: &mut StringHashMap<Value>,
        name: &String,
        children: &Vec<Node>,
        depth: usize,
    ) -> (res: Result<Value, ErrorKind>)
        ensures
            ({
                let o = eval(
                    depth as nat,
                    table_of(old(self).functions),
                    frame_of(*old(frame)),
                    Tree::FunctionCall { name: name@, children: trees_of(children@) },
                );
                final(self).follows(*old(self), o.functions) && frame_of(*final(frame)) == o.frame
                    && result_view(res) == o.result
            }),
        decreases depth, children, 2nat,
    {
        let body = match self.functions.get(name.as_str()) {
            Some(found) => clone_nodes(found),
            None => {
                return Err(ErrorKind::UndefinedFunction);
            },
        };
        if depth == 0 {
            return Err(ErrorKind::RecursionLimit);
        }
        let values = match self.run_arguments(frame, children, depth) {
            Ok(values) => values,
            Err(e) => {
                return Err(e);
            },
        };
        let mut other = bind_frame(&body, &values);
        std::mem::swap(frame, &mut other);
        self.stack.push(other);
        let res = self.run_body(frame, &body, depth - 1);
        match self.stack.pop() {
            Some(caller) => {
                *frame = caller;
            },
            None => {},
        }
        assert(self.stack@ =~= old(self).stack@);
        res
    }

    /// Evaluates `node` with `depth` nested calls allowed.
    fn run_at(
        &mut self,
        frame: &mut StringHashMap<Value>,
        node: &Node,
        depth: usize,
    ) -> (res: Result<Value, ErrorKind>)
        ensures
            ({
                let o = eval(
                    depth as nat,
                    table_of(old(self).functions),
                    frame_of(*old(frame)),
                    node@,
                );
                final(self).follows(*old(self), o.functions) && frame_of(*final(frame)) == o.frame
                    && result_view(res) == o.result
            }),
        decreases depth, node, 0nat,
    {
        match node {
            Node::Program { children } => {
                self.register_items(children);
                Ok(Value::Bool(true))
            },
            Node::FunctionDefine { children } => {
                self.define(children);
                Ok(Value::Bool(true))
            },
            Node::MathExpression { name, children } => {
                let left = self.run_operand(frame, children, 0, depth, ErrorKind::InvalidOperands);
                let right = self.run_operand(frame, children, 1, depth, ErrorKind::InvalidOperands);
                math_result(name, left, right)
            },
            Node::ComparisonExpression { name, children } => {
                let left = self.run_operand(frame, children, 0, depth, ErrorKind::InvalidComparison);
                let right = self.run_operand(frame, children, 1, depth, ErrorKind::InvalidComparison);
                comparison_result(name, left, right)
            },
            Node::IfExpression { children } => self.run_if(frame, children, depth),
            Node::FunctionCall { name, children } => self.run_call(frame, name, children, depth),
            Node::FunctionReturn { children } => {
                proof {
                    lemma_trees_of(children@);
                }
                if children.len() > 0 {
                    self.run_at(frame, &children[0], depth)
                } else {
                    Err(ErrorKind::UnhandledNode)
                }
            },
            Node::Identifier { value } => {
                match frame.get(value.as_str()) {
                    Some(bound) => Ok(bound.clone()),
                    None => Err(ErrorKind::UndefinedVariable),
                }
            },
            Node::Statement { children } => {
                proof {
                    lemma_trees_of(children@);
                }
                if children.len() > 0 && is_statement_kind(&children[0]) {
                    self.run_at(frame, &children[0], depth)
                } else {
                    Err(ErrorKind::UnknownStatement)
                }
            },
            Node::VariableDefine { children } => {
                proof {
                    lemma_trees_of(children@);
                }
                if children.len() < 2 {
                    return Err(ErrorKind::UnhandledNode);
                }
                let name = match &children[0] {
                    Node::Identifier { value } => value.clone(),
                    _ => String::new(),
                };
                match self.run_at(frame, &children[1], depth) {
                    Ok(value) => {
                        let ghost before = frame_of(*frame);
                        let copy = value.clone();
                        frame.insert(name, copy);
                        assert(frame_of(*frame) =~= before.insert(name@, value@));
                        Ok(value)
                    },
                    Err(e) => Err(e),
                }
            },
            Node::Expression { children } => {
                proof {
                    lemma_trees_of(children@);
                }
                if children.len() > 0 && is_expression_kind(&children[0]) {
                    self.run_at(frame, &children[0], depth)
                } else {
                    Err(ErrorKind::UnknownExpression)
                }
            },
            Node::Number { value } => Ok(Value::Number(*value)),
            Node::Bool { value } => Ok(Value::Bool(*value)),
            Node::String { value } => Ok(Value::String(value.clone())),
            _ => Err(ErrorKind::UnhandledNode),
        }
    }

    /// Evaluates `node` against the table and the active frame, the last of the stack;
    /// the frames below it stay as they are. Where the stack holds no frame, `node` is
    /// evaluated against an empty frame of its own, which is dropped afterwards, so
    /// that what `node` binds outside a call is bound nowhere. Calls nest no deeper
    /// than the runtime's ceiling.
    pub fn run(&mut self, node: &Node) -> (res: Result<Value, ErrorKind>)
        ensures
            ({
                let o = eval(old(self)@.limit, old(self)@.functions, old(self).active(), node@);
                &&& final(self)@.functions == o.functions
                &&& final(self)@.stack == if old(self)@.stack.len() > 0 {
                    old(self)@.stack.drop_last().push(o.frame)
                } else {
                    Seq::<Frame>::empty()
                }
                &&& result_view(res) == o.result
                &&& final(self)@.limit == old(self)@.limit
            }),
    {
        let depth = self.max_depth;
        match self.stack.pop() {
            Some(top) => {
                let mut frame = top;
                let res = self.run_at(&mut frame, node, depth);
                self.stack.push(frame);
                assert(self@.stack =~= old(self)@.stack.drop_last().push(frame_of(frame)));
                res
            },
            None => {
                let mut frame: StringHashMap<Value> = StringHashMap::new();
                assert(frame_of(frame) =~= Map::<Seq<char>, Val>::empty());
                let res = self.run_at(&mut frame, node, depth);
                assert(self@.stack =~= Seq::<Frame>::empty());
                res
            },
        }
    }
}

/// Interprets `node`: evaluates it with a fresh runtime, then calls the function
/// `main` without arguments and hands back what the call returns.
pub fn start_interpreter(node: &Node) -> (res: Result<Value, ErrorKind>)
    ensures
        result_view(res) == interpret(DEFAULT_MAX_DEPTH as nat, node@),
{
    let mut runtime = Runtime::new();
    let _ = runtime.run(node);
    let start_main = Node::FunctionCall { name: String::from_str("main"), children: Vec::new() };
    proof {
        reveal_strlit("main");
        lemma_trees_of(start_main->FunctionCall_children@);
        assert(trees_of(start_main->FunctionCall_children@) =~= Seq::<Tree>::empty());
    }
    runtime.run(&start_main)
}

/// Parses `source` as a program and interprets what was read. A text that does not
/// begin with a program is refused with the parser's error, before anything is
/// evaluated; otherwise the text that the program left unread comes back beside the
/// interpreter's result.
pub fn evaluate<'a>(source: &'a str) -> (res: ParseResult<'a, Result<Value, ErrorKind>>)
    ensures
        match grammar::program(source@) {
            Ok((rest, tree)) => res matches Ok((unread, outcome)) && unread@ == rest
                && result_view(outcome) == interpret(DEFAULT_MAX_DEPTH as nat, tree),
            Err(failure) => res matches Err(e) && e@ == failure,
        },
{
    match program(source) {
        Ok((rest, tree)) => Ok((rest, start_interpreter(&tree))),
        Err(e) => Err(e),
    }
}

} // verus!
