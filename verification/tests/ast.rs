use asalang::Node;

#[test]
fn clone_keeps_the_tree() {
    let n = Node::MathExpression {
        name: "+".to_string(),
        children: vec![Node::Number { value: 1 }, Node::Identifier { value: "x".to_string() }],
    };
    assert_eq!(n.clone(), n);
}
