use resharp::{derivative, is_nullable, BitSetSolver, LocationKind, NodeId, RegexBuilder, RegexNode};

fn new_builder() -> RegexBuilder<BitSetSolver> {
    RegexBuilder::new(BitSetSolver)
}

#[test]
fn test_is_nullable_epsilon() {
    let builder = new_builder();
    assert!(is_nullable(&builder, LocationKind::Center, NodeId::EPSILON()));
    assert!(is_nullable(&builder, LocationKind::Begin, NodeId::EPSILON()));
    assert!(is_nullable(&builder, LocationKind::End, NodeId::EPSILON()));
}

#[test]
fn test_is_nullable_nothing() {
    let builder = new_builder();
    assert!(!is_nullable(
        &builder,
        LocationKind::Center,
        NodeId::NOTHING()
    ));
}

#[test]
fn test_is_nullable_top_star() {
    let builder = new_builder();
    assert!(is_nullable(
        &builder,
        LocationKind::Center,
        NodeId::TOP_STAR()
    ));
}

#[test]
fn test_derivative_singleton() {
    let mut builder = new_builder();
    let a = builder.singleton(0b0001);

    // D_a([a]) = ε
    let da = derivative(&mut builder, LocationKind::Center, 0b0001, a);
    assert_eq!(da, NodeId::EPSILON());

    // D_b([a]) = ⊥ (when b doesn't match)
    let db = derivative(&mut builder, LocationKind::Center, 0b0010, a);
    assert_eq!(db, NodeId::NOTHING());
}

#[test]
fn test_derivative_concat() {
    let mut builder = new_builder();

    // Pattern: ab
    let a = builder.singleton(0b0001);
    let b = builder.singleton(0b0010);
    let ab = builder.concat(a, b);

    // D_a(ab) = b
    let da = derivative(&mut builder, LocationKind::Center, 0b0001, ab);
    assert_eq!(da, b);

    // D_b(ab) = ⊥ (a doesn't match b)
    let db = derivative(&mut builder, LocationKind::Center, 0b0010, ab);
    assert_eq!(db, NodeId::NOTHING());
}

#[test]
fn test_derivative_or() {
    let mut builder = new_builder();

    // Pattern: a|b
    let a = builder.singleton(0b0001);
    let b = builder.singleton(0b0010);
    let a_or_b = builder.or(a, b);

    // D_a(a|b) = ε
    let da = derivative(&mut builder, LocationKind::Center, 0b0001, a_or_b);
    assert_eq!(da, NodeId::EPSILON());

    // D_b(a|b) = ε
    let db = derivative(&mut builder, LocationKind::Center, 0b0010, a_or_b);
    assert_eq!(db, NodeId::EPSILON());
}

#[test]
fn test_derivative_loop() {
    let mut builder = new_builder();

    // Pattern: a*
    let a = builder.singleton(0b0001);
    let a_star = builder.loop_(a, 0, u32::MAX, false);

    // D_a(a*) = ε · a* = a* (structurally)
    // Since D_a([a]) = ε and ε · a* = a*
    let da = derivative(&mut builder, LocationKind::Center, 0b0001, a_star);

    // The result should be a loop with the same structure
    if let Some(RegexNode::Loop {
        node, low, high, ..
    }) = builder.arena().node(da)
    {
        assert_eq!(*node, a);
        assert_eq!(*low, 0);
        assert_eq!(*high, u32::MAX);
    } else {
        panic!("Expected Loop node for D_a(a*)");
    }
}

#[test]
fn test_derivative_plus() {
    let mut builder = new_builder();

    // Pattern: a+
    let a = builder.singleton(0b0001);
    let a_plus = builder.loop_(a, 1, u32::MAX, false);

    // D_a(a+) = a*
    let da = derivative(&mut builder, LocationKind::Center, 0b0001, a_plus);
    // The result should be a loop with low=0 (a*)
    if let Some(RegexNode::Loop {
        node, low, high, ..
    }) = builder.arena().node(da)
    {
        assert_eq!(*node, a);
        assert_eq!(*low, 0);
        assert_eq!(*high, u32::MAX);
    } else {
        panic!("Expected Loop node");
    }
}

#[test]
fn test_derivative_not() {
    let mut builder = new_builder();

    // Pattern: ~[a]
    let a = builder.singleton(0b0001);
    let not_a = builder.not(a);

    // D_a(~[a]) = ~D_a([a]) = ~ε
    // ~ε matches everything EXCEPT the empty string (i.e., all non-empty strings)
    // This is NOT the same as NOTHING (⊥)
    let da = derivative(&mut builder, LocationKind::Center, 0b0001, not_a);

    // The result should be ~ε (a Not node wrapping EPSILON)
    if let Some(RegexNode::Not { inner }) = builder.arena().node(da) {
        assert_eq!(*inner, NodeId::EPSILON());
    } else {
        panic!("Expected Not(EPSILON) for D_a(~[a])");
    }
}
