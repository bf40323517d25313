use resharp::{NodeId, PrettyPrinter, RegexNodeArena};

#[test]
fn test_print_special_nodes() {
    let arena: RegexNodeArena<u64> = RegexNodeArena::new();
    let mut printer = PrettyPrinter::new(&arena);

    assert_eq!(printer.print(NodeId::TOP_STAR()), "_*");
    assert_eq!(printer.print(NodeId::NOTHING()), "(?!)");
}
