use resharp::{minterms_log, BitSetSolver, CharSetSolver};

#[test]
fn test_minterms_log() {
    // Powers of 2: log2(n) bits needed
    assert_eq!(minterms_log(1), 0); // 1 value needs 0 bits (just one state)
    assert_eq!(minterms_log(2), 1); // 2 values need 1 bit
    assert_eq!(minterms_log(4), 2); // 4 values need 2 bits
    assert_eq!(minterms_log(8), 3); // 8 values need 3 bits
    assert_eq!(minterms_log(16), 4); // 16 values need 4 bits
    assert_eq!(minterms_log(32), 5); // 32 values need 5 bits

    // Non-powers of 2: ceil(log2(n)) bits needed
    assert_eq!(minterms_log(7), 3); // 7 values need 3 bits
    assert_eq!(minterms_log(15), 4); // 15 values need 4 bits
    assert_eq!(minterms_log(31), 5); // 31 values need 5 bits
    assert_eq!(minterms_log(33), 6); // 33 values need 6 bits
}

#[test]
fn test_bitset_solver() {
    let solver = BitSetSolver;

    assert!(solver.is_empty(&solver.empty()));
    assert!(solver.is_full(&solver.full()));

    let a = 0b1100u64;
    let b = 0b1010u64;

    assert_eq!(solver.and(&a, &b), 0b1000);
    assert_eq!(solver.or(&a, &b), 0b1110);

    // b is not contained in a (b has bit 1 which a doesn't)
    assert!(!solver.contains(&a, &b));

    // 0b1000 is contained in a
    assert!(solver.contains(&a, &0b1000));

    // 0b0100 is contained in a
    assert!(solver.contains(&a, &0b0100));
}

#[test]
fn test_containment() {
    let solver = BitSetSolver;

    // Full contains everything
    assert!(solver.contains(&solver.full(), &0b1111));

    // Everything contains empty
    assert!(solver.contains(&0b1111, &solver.empty()));

    // Self-containment
    let set = 0b1010u64;
    assert!(solver.contains(&set, &set));
}
