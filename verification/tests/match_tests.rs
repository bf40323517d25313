use resharp::{cst_to_ir, parse, PrettyPrinter, RegexOptions, SyntaxNode};

// These tests verify that patterns can be parsed and converted to IR.

/// Parse a pattern to IR.
fn parse_to_ir(pattern: &str) -> Result<(), String> {
    let options = RegexOptions::EXPLICIT_CAPTURE() | RegexOptions::NON_BACKTRACKING();
    let green = parse(pattern, options).map_err(|e| format!("Parse error: {:?}", e))?;
    let tree: SyntaxNode = SyntaxNode::new_root(green);
    let (arena, node_id) = cst_to_ir::<u64>(&tree);

    // Try to print it (exercises more code paths)
    let mut printer = PrettyPrinter::new(&arena);
    let _printed = printer.print(node_id);

    Ok(())
}

/// Test basic anchored pattern parsing
#[test]
fn test_anchored_digit() {
    let pattern = r"^\d$";
    parse_to_ir(pattern).expect("Pattern should compile");
}

/// Test complement pattern parsing
#[test]
fn test_complement_pattern() {
    let pattern = r"~(_*\d\d_*)";
    parse_to_ir(pattern).expect("Pattern should compile");
}

/// Test intersection pattern parsing
#[test]
fn test_intersection_pattern() {
    let pattern = r".*a.*&.*b.*&.*c.*";
    parse_to_ir(pattern).expect("Pattern should compile");
}

/// Test lookahead pattern parsing
#[test]
fn test_lookahead_pattern() {
    let pattern = r".*(?=aaa)";
    parse_to_ir(pattern).expect("Pattern should compile");
}

/// Test lookbehind pattern parsing
#[test]
fn test_lookbehind_pattern() {
    let pattern = r"(?<=author).*";
    parse_to_ir(pattern).expect("Pattern should compile");
}

/// Test word boundary pattern parsing
#[test]
fn test_word_boundary_pattern() {
    let pattern = r"\b1\b";
    parse_to_ir(pattern).expect("Pattern should compile");
}

/// Test complex date pattern parsing
#[test]
fn test_complex_date_pattern() {
    let pattern = r"((\d{2})|(\d))\/((\d{2})|(\d))\/((\d{4})|(\d{2}))";
    parse_to_ir(pattern).expect("Pattern should compile");
}
