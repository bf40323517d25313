use resharp::{BitSetSolver, NodeId, RegexBuilder, RegexNode};

#[test]
fn test_or_identity() {
    let solver = BitSetSolver;
    let mut builder = RegexBuilder::new(solver);

    // A | ⊥ = A
    let a = builder.singleton(0b1010);
    assert_eq!(builder.or(a, NodeId::NOTHING()), a);
    assert_eq!(builder.or(NodeId::NOTHING(), a), a);

    // A | ⊤* = ⊤*
    assert_eq!(builder.or(a, NodeId::TOP_STAR()), NodeId::TOP_STAR());
}

#[test]
fn test_and_identity() {
    let solver = BitSetSolver;
    let mut builder = RegexBuilder::new(solver);

    // A & ⊤* = A
    let a = builder.singleton(0b1010);
    assert_eq!(builder.and(a, NodeId::TOP_STAR()), a);
    assert_eq!(builder.and(NodeId::TOP_STAR(), a), a);

    // A & ⊥ = ⊥
    assert_eq!(builder.and(a, NodeId::NOTHING()), NodeId::NOTHING());
}

#[test]
fn test_singleton_merge() {
    let solver = BitSetSolver;
    let mut builder = RegexBuilder::new(solver);

    let a = builder.singleton(0b0011);
    let b = builder.singleton(0b1100);

    // [a] | [b] = [ab]
    let or_result = builder.or(a, b);
    if let Some(RegexNode::Singleton(s)) = builder.arena().node(or_result) {
        assert_eq!(*s, 0b1111);
    } else {
        panic!("Expected Singleton");
    }

    // [a] & [b] = [a∩b] = ∅ = ⊥
    let and_result = builder.and(a, b);
    assert_eq!(and_result, NodeId::NOTHING());
}

#[test]
fn test_double_negation() {
    let solver = BitSetSolver;
    let mut builder = RegexBuilder::new(solver);

    let a = builder.singleton(0b1010);
    let not_a = builder.not(a);
    let not_not_a = builder.not(not_a);

    assert_eq!(not_not_a, a);
}

#[test]
fn test_complementary_or() {
    let solver = BitSetSolver;
    let mut builder = RegexBuilder::new(solver);

    let a = builder.singleton(0b1010);
    let not_a = builder.not(a);

    // A | ~A = ⊤*
    assert_eq!(builder.or(a, not_a), NodeId::TOP_STAR());
}

#[test]
fn test_complementary_and() {
    let solver = BitSetSolver;
    let mut builder = RegexBuilder::new(solver);

    let a = builder.singleton(0b1010);
    let not_a = builder.not(a);

    // A & ~A = ⊥
    assert_eq!(builder.and(a, not_a), NodeId::NOTHING());
}

#[test]
fn test_loop_normalization() {
    let solver = BitSetSolver;
    let mut builder = RegexBuilder::new(solver);

    let a = builder.singleton(0b1010);

    // a{1,1} = a
    assert_eq!(builder.loop_(a, 1, 1, false), a);

    // a{0,0} = ε
    assert_eq!(builder.loop_(a, 0, 0, false), NodeId::EPSILON());

    // ε* = ε
    assert_eq!(
        builder.loop_(NodeId::EPSILON(), 0, u32::MAX, false),
        NodeId::EPSILON()
    );
}

#[test]
fn test_concat_identity() {
    let solver = BitSetSolver;
    let mut builder = RegexBuilder::new(solver);

    let a = builder.singleton(0b1010);

    // a · ε = a
    assert_eq!(builder.concat(a, NodeId::EPSILON()), a);
    assert_eq!(builder.concat(NodeId::EPSILON(), a), a);

    // a · ⊥ = ⊥
    assert_eq!(builder.concat(a, NodeId::NOTHING()), NodeId::NOTHING());
}
