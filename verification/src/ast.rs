use vstd::prelude::*;

verus! {

/// A node of the syntax tree. Every compound kind keeps its parts in `children`;
/// operators and calls carry their symbol or callee in `name`.
#[derive(Debug, PartialEq, Eq)]
#[allow(inconsistent_fields)]
pub enum Node {
    Program { children: Vec<Node> },
    Statement { children: Vec<Node> },
    FunctionReturn { children: Vec<Node> },
    FunctionDefine { children: Vec<Node> },
    FunctionArguments { children: Vec<Node> },
    FunctionStatements { children: Vec<Node> },
    Expression { children: Vec<Node> },
    IfExpression { children: Vec<Node> },
    IfBranch { children: Vec<Node> },
    ElifBranch { children: Vec<Node> },
    ElseBranch { children: Vec<Node> },
    ComparisonExpression { name: String, children: Vec<Node> },
    MathExpression { name: String, children: Vec<Node> },
    FunctionCall { name: String, children: Vec<Node> },
    VariableDefine { children: Vec<Node> },
    Number { value: i32 },
    Bool { value: bool },
    Identifier { value: String },
    String { value: String },
}

/// The mathematical syntax tree that a `Node` stands for: the same shape, with
/// sequences for child lists and character sequences for text.
#[allow(inconsistent_fields)]
pub enum Tree {
    Program { children: Seq<Tree> },
    Statement { children: Seq<Tree> },
    FunctionReturn { children: Seq<Tree> },
    FunctionDefine { children: Seq<Tree> },
    FunctionArguments { children: Seq<Tree> },
    FunctionStatements { children: Seq<Tree> },
    Expression { children: Seq<Tree> },
    IfExpression { children: Seq<Tree> },
    IfBranch { children: Seq<Tree> },
    ElifBranch { children: Seq<Tree> },
    ElseBranch { children: Seq<Tree> },
    ComparisonExpression { name: Seq<char>, children: Seq<Tree> },
    MathExpression { name: Seq<char>, children: Seq<Tree> },
    FunctionCall { name: Seq<char>, children: Seq<Tree> },
    VariableDefine { children: Seq<Tree> },
    Number { value: i32 },
    Bool { value: bool },
    Identifier { value: Seq<char> },
    String { value: Seq<char> },
}

/// The tree of a node.
pub open spec fn tree_of(n: Node) -> Tree
    decreases n,
{
    match n {
        Node::Program { children } => Tree::Program { children: trees_of(children@) },
        Node::Statement { children } => Tree::Statement { children: trees_of(children@) },
        Node::FunctionReturn { children } => Tree::FunctionReturn { children: trees_of(children@) },
        Node::FunctionDefine { children } => Tree::FunctionDefine { children: trees_of(children@) },
        Node::FunctionArguments { children } => Tree::FunctionArguments {
            children: trees_of(children@),
        },
        Node::FunctionStatements { children } => Tree::FunctionStatements {
            children: trees_of(children@),
        },
        Node::Expression { children } => Tree::Expression { children: trees_of(children@) },
        Node::IfExpression { children } => Tree::IfExpression { children: trees_of(children@) },
        Node::IfBranch { children } => Tree::IfBranch { children: trees_of(children@) },
        Node::ElifBranch { children } => Tree::ElifBranch { children: trees_of(children@) },
        Node::ElseBranch { children } => Tree::ElseBranch { children: trees_of(children@) },
        Node::ComparisonExpression { name, children } => Tree::ComparisonExpression {
            name: name@,
            children: trees_of(children@),
        },
        Node::MathExpression { name, children } => Tree::MathExpression {
            name: name@,
            children: trees_of(children@),
        },
        Node::FunctionCall { name, children } => Tree::FunctionCall {
            name: name@,
            children: trees_of(children@),
        },
        Node::VariableDefine { children } => Tree::VariableDefine { children: trees_of(children@) },
        Node::Number { value } => Tree::Number { value },
        Node::Bool { value } => Tree::Bool { value },
        Node::Identifier { value } => Tree::Identifier { value: value@ },
        Node::String { value } => Tree::String { value: value@ },
    }
}

/// The trees of a sequence of nodes, in order.
pub open spec fn trees_of(nodes: Seq<Node>) -> Seq<Tree>
    decreases nodes,
{
    if nodes.len() == 0 {
        Seq::empty()
    } else {
        trees_of(nodes.drop_last()).push(tree_of(nodes.last()))
    }
}

impl View for Node {
    type V = Tree;

    open spec fn view(&self) -> Tree {
        tree_of(*self)
    }
}

/// `trees_of` works element by element.
pub proof fn lemma_trees_of(nodes: Seq<Node>)
    ensures
        trees_of(nodes).len() == nodes.len(),
        forall|i: int| 0 <= i < nodes.len() ==> #[trigger] trees_of(nodes)[i] == tree_of(nodes[i]),
    decreases nodes.len(),
{
    if nodes.len() > 0 {
        lemma_trees_of(nodes.drop_last());
    }
}

/// A copy of a list of nodes that stands for the same trees.
pub fn clone_nodes(nodes: &Vec<Node>) -> (copy: Vec<Node>)
    ensures
        trees_of(copy@) == trees_of(nodes@),
    decreases nodes,
{
    let mut copy: Vec<Node> = Vec::new();
    let mut i: usize = 0;
    while i < nodes.len()
        invariant
            i <= nodes.len(),
            copy.len() == i,
            forall|j: int| 0 <= j < i ==> tree_of(#[trigger] copy@[j]) == tree_of(nodes@[j]),
        decreases nodes.len() - i,
    {
        let c = nodes[i].clone();
        copy.push(c);
        i += 1;
    }
    proof {
        lemma_trees_of(copy@);
        lemma_trees_of(nodes@);
        assert(trees_of(copy@) =~= trees_of(nodes@));
    }
    copy
}

impl Clone for Node {
    fn clone(&self) -> (copy: Node)
        ensures
            copy@ == self@,
        decreases self,
    {
        match self {
            Node::Program { children } => Node::Program { children: clone_nodes(children) },
            Node::Statement { children } => Node::Statement { children: clone_nodes(children) },
            Node::FunctionReturn { children } => Node::FunctionReturn {
                children: clone_nodes(children),
            },
            Node::FunctionDefine { children } => Node::FunctionDefine {
                children: clone_nodes(children),
            },
            Node::FunctionArguments { children } => Node::FunctionArguments {
                children: clone_nodes(children),
            },
            Node::FunctionStatements { children } => Node::FunctionStatements {
                children: clone_nodes(children),
            },
            Node::Expression { children } => Node::Expression { children: clone_nodes(children) },
            Node::IfExpression { children } => Node::IfExpression {
                children: clone_nodes(children),
            },
            Node::IfBranch { children } => Node::IfBranch { children: clone_nodes(children) },
            Node::ElifBranch { children } => Node::ElifBranch { children: clone_nodes(children) },
            Node::ElseBranch { children } => Node::ElseBranch { children: clone_nodes(children) },
            Node::ComparisonExpression { name, children } => Node::ComparisonExpression {
                name: name.clone(),
                children: clone_nodes(children),
            },
            Node::MathExpression { name, children } => Node::MathExpression {
                name: name.clone(),
                children: clone_nodes(children),
            },
            Node::FunctionCall { name, children } => Node::FunctionCall {
                name: name.clone(),
                children: clone_nodes(children),
            },
            Node::VariableDefine { children } => Node::VariableDefine {
                children: clone_nodes(children),
            },
            Node::Number { value } => Node::Number { value: *value },
            Node::Bool { value } => Node::Bool { value: *value },
            Node::Identifier { value } => Node::Identifier { value: value.clone() },
            Node::String { value } => Node::String { value: value.clone() },
        }
    }
}

} // verus!
