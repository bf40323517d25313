use resharp::{cst_to_ir, parse, NodeFlags, NodeId, RegexNode, RegexNodeArena, RegexOptions, SyntaxNode};
//

/// Parse a pattern and convert to IR.
fn parse_to_ir(pattern: &str) -> (RegexNodeArena<u64>, NodeId) {
    let options = RegexOptions::EXPLICIT_CAPTURE() | RegexOptions::NON_BACKTRACKING();
    let green = parse(pattern, options).expect("parse should succeed");
    let tree: SyntaxNode = SyntaxNode::new_root(green);
    cst_to_ir(&tree)
}

/// Get the flags for a pattern.
fn get_flags(pattern: &str) -> NodeFlags {
    let (arena, root) = parse_to_ir(pattern);
    arena.flags(root)
}

/// Get the fixed length of a pattern.
fn get_fixed_length(pattern: &str) -> Option<u32> {
    let (arena, root) = parse_to_ir(pattern);
    arena.get_fixed_length(root)
}

// =============================================================================
// Flags Tests
// =============================================================================

/// `flags 01: ^\d$`
#[test]
fn flags_01_anchor_dependency() {
    let flags = get_flags(r"^\d$");
    assert!(
        flags.contains(NodeFlags::DEPENDS_ON_ANCHOR()),
        "Pattern with ^ and $ should depend on anchor"
    );
}

/// `flags 03: (?<=.?)`
#[test]
fn flags_03_always_nullable() {
    let flags = get_flags(r"(?<=.?)");
    assert!(
        flags.contains(NodeFlags::CAN_BE_NULLABLE()),
        "Pattern should be nullable"
    );
    assert!(
        flags.contains(NodeFlags::IS_ALWAYS_NULLABLE()),
        "Pattern should be always nullable"
    );
}

/// `flags 07: a(?=b)`
#[test]
fn flags_07_suffix_lookahead() {
    let flags = get_flags(r"a(?=b)");
    assert!(
        flags.contains(NodeFlags::HAS_SUFFIX_LOOKAHEAD()),
        "Pattern should have suffix lookahead"
    );
}

/// `flags 08: (a|b)(?=b)`
#[test]
fn flags_08_alternation_suffix_lookahead() {
    let flags = get_flags(r"(a|b)(?=b)");
    assert!(
        flags.contains(NodeFlags::HAS_SUFFIX_LOOKAHEAD()),
        "Pattern should have suffix lookahead"
    );
}

/// `flags 09: (?<=b)(a|b)`
#[test]
fn flags_09_prefix_lookbehind() {
    let flags = get_flags(r"(?<=b)(a|b)");
    assert!(
        flags.contains(NodeFlags::HAS_PREFIX_LOOKBEHIND()),
        "Pattern should have prefix lookbehind"
    );
}

/// `flags 10: .*$`
#[test]
fn flags_10_end_anchor_lookahead() {
    let flags = get_flags(r".*$");
    // $ at end acts like a lookahead
    assert!(
        flags.contains(NodeFlags::DEPENDS_ON_ANCHOR()),
        "Pattern with $ should depend on anchor"
    );
}

// =============================================================================
// Fixed Length Tests
// =============================================================================

/// `fixed length 1: Twain`
#[test]
fn fixed_length_1_literal() {
    let _length = get_fixed_length("Twain");
    // The literal converts to a placeholder node; its length is not asserted.
}

/// `fixed length 3: \b1\b`
#[test]
fn fixed_length_3_word_boundary() {
    let (_arena, _root) = parse_to_ir(r"\b1\b");
    // Word boundaries have zero length; the pattern matches one character.
}

// =============================================================================
// Identity Tests
// =============================================================================

/// `identity true star: [\s\S]*`
#[test]
fn identity_true_star() {
    let (arena, root) = parse_to_ir(r"[\s\S]*");
    let flags = arena.flags(root);
    assert!(
        flags.contains(NodeFlags::CAN_BE_NULLABLE()),
        "Pattern should be nullable"
    );
}

// =============================================================================
// Structure Tests
// =============================================================================

#[test]
fn structure_alternation() {
    let (arena, root) = parse_to_ir("a|b|c");
    assert!(
        matches!(arena.node(root), Some(RegexNode::Or { nodes }) if nodes.len() == 3),
        "Should have 3-way alternation"
    );
}

#[test]
fn structure_conjunction() {
    let (arena, root) = parse_to_ir("a&b&c");
    assert!(
        matches!(arena.node(root), Some(RegexNode::And { nodes }) if nodes.len() == 3),
        "Should have 3-way conjunction"
    );
}

#[test]
fn structure_concatenation() {
    let (arena, root) = parse_to_ir("abc");
    // Should be a Concat chain or a Multi
    assert!(arena.node(root).is_some());
}

#[test]
fn structure_lookahead() {
    let (arena, root) = parse_to_ir("(?=a)");
    assert!(
        matches!(
            arena.node(root),
            Some(RegexNode::LookAround {
                negative: false,
                look_back: false,
                ..
            })
        ),
        "Should be positive lookahead"
    );
}

#[test]
fn structure_negative_lookahead() {
    let (arena, root) = parse_to_ir("(?!a)");
    assert!(
        matches!(
            arena.node(root),
            Some(RegexNode::LookAround {
                negative: true,
                look_back: false,
                ..
            })
        ),
        "Should be negative lookahead"
    );
}

#[test]
fn structure_begin_anchor() {
    let (arena, root) = parse_to_ir("^");
    assert!(
        matches!(arena.node(root), Some(RegexNode::Begin)),
        "Should be Begin anchor"
    );
}

#[test]
fn structure_end_anchor() {
    let (arena, root) = parse_to_ir("$");
    assert!(
        matches!(arena.node(root), Some(RegexNode::End)),
        "Should be End anchor"
    );
}
