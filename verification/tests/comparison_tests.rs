use resharp::{cst_to_ir, parse, RegexOptions, SyntaxNode};

// These tests check that patterns of common regex usage are parsed and
// converted to IR.

/// Parse a pattern to IR, returning an error message on failure.
fn parse_to_ir(pattern: &str) -> Result<(), String> {
    let options = RegexOptions::EXPLICIT_CAPTURE() | RegexOptions::NON_BACKTRACKING();
    let green = parse(pattern, options).map_err(|e| format!("Parse error: {:?}", e))?;
    let tree: SyntaxNode = SyntaxNode::new_root(green);
    let (_arena, _node_id) = cst_to_ir::<u64>(&tree);
    Ok(())
}

// =============================================================================
// Pattern Compilation Tests
// =============================================================================
// These tests verify that all comparison patterns can be parsed and converted
// to IR without errors.

/// same as runtime 1: short
#[test]
fn same_as_runtime_1_pattern_compiles() {
    let pattern = r#"^(31|(0[1-9]))$"#;
    parse_to_ir(pattern).expect("Pattern should compile");
}

/// same as runtime 3 - complex date pattern
#[test]
fn same_as_runtime_3_pattern_compiles() {
    let pattern = r#"^(((0?[1-9]|[12]\d|3[01])[\.\-\/](0?[13578]|1[02])[\.\-\/]((1[6-9]|[2-9]\d)?\d{2}))|((0?[1-9]|[12]\d|30)[\.\-\/](0?[13456789]|1[012])[\.\-\/]((1[6-9]|[2-9]\d)?\d{2}))|((0?[1-9]|1\d|2[0-8])[\.\-\/]0?2[\.\-\/]((1[6-9]|[2-9]\d)?\d{2}))|(29[\.\-\/]0?2[\.\-\/]((1[6-9]|[2-9]\d)?(0[48]|[2468][048]|[13579][26])|((16|[2468][048]|[3579][26])00)|00)))$"#;
    parse_to_ir(pattern).expect("Pattern should compile");
}

/// same as runtime 4
#[test]
fn same_as_runtime_4_pattern_compiles() {
    let pattern = r#"^((0?[13578]\.)|(0?[13456789]\.))$"#;
    parse_to_ir(pattern).expect("Pattern should compile");
}

/// same as runtime 5 - postal code pattern
#[test]
fn same_as_runtime_5_pattern_compiles() {
    let pattern = r#"^((\d{5}-\d{4})|(\d{5})|([A-Z]\d[A-Z]\s\d[A-Z]\d))$"#;
    parse_to_ir(pattern).expect("Pattern should compile");
}

/// same as runtime 7 - postal code without end anchor
#[test]
fn same_as_runtime_7_pattern_compiles() {
    let pattern = r#"^((\d{5}-\d{4})|(\d{5})|([A-Z]\d[A-Z]\s\d[A-Z]\d))"#;
    parse_to_ir(pattern).expect("Pattern should compile");
}

/// same as runtime 8 - postal code with end anchor
#[test]
fn same_as_runtime_8_pattern_compiles() {
    let pattern = r#"^((\d{5}-\d{4})|(\d{5})|([A-Z]\d[A-Z]\s\d[A-Z]\d))$"#;
    parse_to_ir(pattern).expect("Pattern should compile");
}

/// same as runtime 9 - single digit
#[test]
fn same_as_runtime_9_pattern_compiles() {
    let pattern = r#"^\d$"#;
    parse_to_ir(pattern).expect("Pattern should compile");
}

/// same as runtime 10 - or nullability test
#[test]
fn same_as_runtime_10_pattern_compiles() {
    let pattern = r#"(\s|\n|^)h:"#;
    parse_to_ir(pattern).expect("Pattern should compile");
}

/// regex with label 3 - named capture
#[test]
fn regex_with_label_3_pattern_compiles() {
    let pattern = r#"(?<Time>^\d)"#;
    parse_to_ir(pattern).expect("Pattern should compile");
}

/// deduplication test - multiline comments
#[test]
fn deduplication_test_pattern_compiles() {
    let pattern = r#"(\/\*(\s*|.*)*\*\/)|(\/\/.*)"#;
    parse_to_ir(pattern).expect("Pattern should compile");
}

/// deduplication test 2 - name pattern
#[test]
fn deduplication_test_2_pattern_compiles() {
    let pattern = r#"^[a-zA-Z]+(([\'\,\.\- ][a-zA-Z ])?[a-zA-Z]*)*$"#;
    parse_to_ir(pattern).expect("Pattern should compile");
}

/// simple 1
#[test]
fn simple_1_pattern_compiles() {
    let pattern = "types";
    parse_to_ir(pattern).expect("Pattern should compile");
}

/// multi-nodes ordering comparison
#[test]
fn multi_nodes_ordering_pattern_compiles() {
    let pattern = r#"((\s*|.*)*q/)"#;
    parse_to_ir(pattern).expect("Pattern should compile");
}

/// http address optional
#[test]
fn http_address_optional_pattern_compiles() {
    let pattern = r#"^(ht|f)tp(s?)\:\/\/[a-zA-Z0-9\-\._]+(\.[a-zA-Z0-9\-\._]+){2,}(\/?)([a-zA-Z0-9\-\.\?\,\'\/\\\+\&%\$#_]*)?$"#;
    parse_to_ir(pattern).expect("Pattern should compile");
}

/// massive or pattern - date validation
#[test]
fn massive_or_pattern_compiles() {
    let pattern = r#"^((\d{2}((0[13578]|1[02])(0[1-9]|[12]\d|3[01])|(0[13456789]|1[012])(0[1-9]|[12]\d|30)|02(0[1-9]|1\d|2[0-8])))|([02468][048]|[13579][26])0229)$"#;
    parse_to_ir(pattern).expect("Pattern should compile");
}

/// semantics test 1
#[test]
fn semantics_test_1_pattern_compiles() {
    let pattern = r#"(a|ab)*"#;
    parse_to_ir(pattern).expect("Pattern should compile");
}

/// top level duplicate test - phone number
#[test]
fn top_level_duplicate_test_pattern_compiles() {
    let pattern = r#"((\(\d{3}\)?)|(\d{3}))([\s-./]?)(\d{3})([\s-./]?)(\d{4})"#;
    parse_to_ir(pattern).expect("Pattern should compile");
}
