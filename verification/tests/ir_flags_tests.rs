use resharp::{NodeFlags};

#[test]
fn test_flag_combinations() {
    let nullable = NodeFlags::CAN_BE_NULLABLE() | NodeFlags::IS_ALWAYS_NULLABLE();
    assert!(nullable.is_always_nullable());
    assert!(nullable.can_be_nullable());
    assert!(!nullable.depends_on_anchor());
}

#[test]
fn test_flag_helpers() {
    let flags = NodeFlags::DEPENDS_ON_ANCHOR() | NodeFlags::HAS_SUFFIX_LOOKAHEAD();
    assert!(flags.depends_on_anchor());
    assert!(flags.has_suffix_lookahead());
    assert!(!flags.has_prefix_lookbehind());
}
