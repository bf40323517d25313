use resharp::{NodeFlags, NodeId, RegexNodeArena};

#[test]
fn test_special_nodes() {
    let arena: RegexNodeArena<u64> = RegexNodeArena::new();

    // EPSILON should be nullable
    let eps_flags = arena.flags(NodeId::EPSILON());
    assert!(eps_flags.contains(NodeFlags::CAN_BE_NULLABLE()));
    assert!(eps_flags.contains(NodeFlags::IS_ALWAYS_NULLABLE()));

    // TOP_STAR should be nullable
    let top_flags = arena.flags(NodeId::TOP_STAR());
    assert!(top_flags.contains(NodeFlags::CAN_BE_NULLABLE()));
}

#[test]
fn test_fixed_length() {
    let arena: RegexNodeArena<u64> = RegexNodeArena::new();

    // ANY has fixed length 1
    assert_eq!(arena.get_fixed_length(NodeId::ANY()), Some(1));

    // EPSILON has fixed length 0
    assert_eq!(arena.get_fixed_length(NodeId::EPSILON()), Some(0));

    // TOP_STAR has no fixed length
    assert_eq!(arena.get_fixed_length(NodeId::TOP_STAR()), None);
}
