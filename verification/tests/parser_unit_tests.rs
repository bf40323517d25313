use resharp::{parse, RegexOptions, SyntaxKind, SyntaxNode};

fn parse_pattern(pattern: &str) -> SyntaxNode {
    let options = RegexOptions::EXPLICIT_CAPTURE() | RegexOptions::NON_BACKTRACKING();
    let green = parse(pattern, options).expect("parse should succeed");
    SyntaxNode::new_root(green)
}

fn get_root_child(node: &SyntaxNode) -> Option<SyntaxNode> {
    // Root -> Capture -> actual content
    node.children().into_iter()
        .next()
        .and_then(|capture| capture.children().into_iter().next())
}

#[test]
fn parser_test_simple_literal() {
    let tree = parse_pattern("abc");
    let node = get_root_child(&tree).expect("should have child");
    // Should be Alternate -> Conjunction -> Concatenate -> Multi
    assert!(node.children().into_iter().any(|_| true));
}

#[test]
fn parser_test_conjunction() {
    let tree = parse_pattern("a&b");
    let capture = tree.children().into_iter().next().expect("should have capture");
    let alt = capture.children().into_iter().next().expect("should have alternation");
    let conj = alt.children().into_iter().next().expect("should have conjunction");
    assert_eq!(conj.kind(), SyntaxKind::Conjunction);
}

#[test]
fn parser_test_alternation() {
    let tree = parse_pattern("a|b");
    let capture = tree.children().into_iter().next().expect("should have capture");
    let alt = capture.children().into_iter().next().expect("should have alternation");
    assert_eq!(alt.kind(), SyntaxKind::Alternate);
}
