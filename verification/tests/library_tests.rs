use resharp::{
    derivative, is_nullable, LocationKind, minterms_log, parse, CharSetDisplay, Match, NodeId, ParseError, PrettyPrinter, Regex, RegexBuilder,
    RegexNode, RegexNodeArena, RegexOptions, BitSetSolver, SyntaxKind, SyntaxNode,
};

fn parse_err(pattern: &str) -> ParseError {
    parse(pattern, RegexOptions::NONE()).expect_err("pattern should be rejected")
}

fn printed(pattern: &str) -> String {
    Regex::new(pattern).expect("valid pattern").pretty_print()
}

#[test]
fn error_unexpected_eof_after_backslash() {
    assert_eq!(parse_err("\\"), ParseError::UnexpectedEof { pos: 1 });
    assert_eq!(parse_err("ab\\"), ParseError::UnexpectedEof { pos: 3 });
}

#[test]
fn error_unexpected_eof_after_tilde() {
    assert_eq!(parse_err("a~"), ParseError::UnexpectedEof { pos: 2 });
}

#[test]
fn error_unexpected_char() {
    assert_eq!(parse_err("*"), ParseError::UnexpectedChar { ch: '*', pos: 0 });
    assert_eq!(parse_err("a{}]"), ParseError::UnexpectedChar { ch: ']', pos: 3 });
    assert_eq!(parse_err("~|"), ParseError::UnexpectedChar { ch: '|', pos: 1 });
}

#[test]
fn error_unclosed_group() {
    assert_eq!(parse_err("(a"), ParseError::UnclosedGroup { pos: 0 });
    assert_eq!(parse_err("x(?:a"), ParseError::UnclosedGroup { pos: 1 });
    assert_eq!(parse_err("(?<=a"), ParseError::UnclosedGroup { pos: 0 });
    assert_eq!(parse_err("(?<n>a"), ParseError::UnclosedGroup { pos: 0 });
}

#[test]
fn error_unclosed_char_class() {
    assert_eq!(parse_err("[a"), ParseError::UnclosedCharClass { pos: 0 });
    assert_eq!(parse_err("b[a-"), ParseError::UnclosedCharClass { pos: 1 });
}

#[test]
fn error_invalid_group_name() {
    assert_eq!(parse_err("(?<>a)"), ParseError::InvalidGroupName { pos: 3 });
    assert_eq!(parse_err("(?<ab"), ParseError::InvalidGroupName { pos: 3 });
}

#[test]
fn error_unknown_group_type() {
    assert_eq!(parse_err("(?x)"), ParseError::UnknownGroupType { pos: 0 });
    assert_eq!(parse_err("a(?"), ParseError::UnknownGroupType { pos: 1 });
}

#[test]
fn error_positions_are_byte_offsets() {
    // 'é' takes two bytes in UTF-8
    assert_eq!(parse_err("é["), ParseError::UnclosedCharClass { pos: 2 });
    assert_eq!(parse_err("日本("), ParseError::UnclosedGroup { pos: 6 });
}

#[test]
fn regex_new_reports_parse_errors() {
    match Regex::new("(a") {
        Err(resharp::Error::Parse(e)) => assert_eq!(e, ParseError::UnclosedGroup { pos: 0 }),
        Ok(_) => panic!("pattern should be rejected"),
    }
}

#[test]
fn trailing_close_paren_ends_the_pattern() {
    let green = parse("a)b", RegexOptions::NONE()).expect("parse should succeed");
    let tree = SyntaxNode::new_root(green);
    assert_eq!(tree.kind(), SyntaxKind::Root);
    assert_eq!(tree.children().len(), 1);
}

#[test]
fn multiline_option_selects_line_anchors() {
    let tree = SyntaxNode::new_root(parse("^$", RegexOptions::MULTILINE()).expect("parse"));
    let concat = tree.children()[0].children()[0].children()[0].children()[0].clone();
    let kinds: Vec<SyntaxKind> = concat.children().iter().map(|c| c.kind()).collect();
    assert_eq!(kinds, vec![SyntaxKind::Bol, SyntaxKind::Eol]);
    let tree = SyntaxNode::new_root(parse("^$", RegexOptions::NONE()).expect("parse"));
    let concat = tree.children()[0].children()[0].children()[0].children()[0].clone();
    let kinds: Vec<SyntaxKind> = concat.children().iter().map(|c| c.kind()).collect();
    assert_eq!(kinds, vec![SyntaxKind::Beginning, SyntaxKind::EndZ]);
}

#[test]
fn ecma_option_selects_ecma_boundaries() {
    let tree = SyntaxNode::new_root(parse(r"\b\B", RegexOptions::ECMA_SCRIPT()).expect("parse"));
    let concat = tree.children()[0].children()[0].children()[0].children()[0].clone();
    let kinds: Vec<SyntaxKind> = concat.children().iter().map(|c| c.kind()).collect();
    assert_eq!(kinds, vec![SyntaxKind::ECMABoundary, SyntaxKind::NonECMABoundary]);
}

#[test]
fn quantifiers_wrap_the_preceding_atom() {
    let tree = SyntaxNode::new_root(parse("a{2,3}?b*", RegexOptions::NONE()).expect("parse"));
    let concat = tree.children()[0].children()[0].children()[0].children()[0].clone();
    let kinds: Vec<SyntaxKind> = concat.children().iter().map(|c| c.kind()).collect();
    assert_eq!(kinds, vec![SyntaxKind::Lazyloop, SyntaxKind::Loop]);
    assert_eq!(concat.children()[0].children()[0].kind(), SyntaxKind::One);
}

#[test]
fn pretty_print_of_compiled_patterns() {
    assert_eq!(printed("a|b"), "φ|φ");
    assert_eq!(printed("a*"), "φ*");
    assert_eq!(printed("^a$"), "^φ$");
    assert_eq!(printed("(?=a)b"), "(?=φ)φ");
    assert_eq!(printed("(?<!a)"), "(?<!φ)");
    assert_eq!(printed("~(ab)"), "~φ");
    assert_eq!(printed("a&b"), "(φ&φ)");
    assert_eq!(printed(""), "");
}

#[test]
fn pretty_print_of_loop_bounds() {
    let mut builder = RegexBuilder::new(BitSetSolver);
    let a = builder.singleton(1);
    let l1 = builder.loop_(a, 2, 5, false);
    let l2 = builder.loop_(a, 3, 3, false);
    let l3 = builder.loop_(a, 2, u32::MAX, false);
    let l4 = builder.loop_(a, 0, 1, false);
    let l5 = builder.loop_(a, 1, u32::MAX, false);
    let l6 = builder.loop_(a, 0, u32::MAX, true);
    let l7 = builder.loop_(a, 12, 345, false);
    let arena = builder.into_arena();
    let mut p = PrettyPrinter::new(&arena);
    assert_eq!(p.print(l1), "φ{2,5}");
    assert_eq!(p.print(l2), "φ{3}");
    assert_eq!(p.print(l3), "φ{2,}");
    assert_eq!(p.print(l4), "φ?");
    assert_eq!(p.print(l5), "φ+");
    assert_eq!(p.print(l6), "φ*?");
    assert_eq!(p.print(l7), "φ{12,345}");
    assert_eq!(p.print(NodeId::EPSILON()), "");
    assert_eq!(p.print(NodeId::ANY()), "φ");
}

#[test]
fn char_display_escapes_syntax_characters() {
    let mut s = String::new();
    '*'.fmt_charset(&mut s);
    'a'.fmt_charset(&mut s);
    '\n'.fmt_charset(&mut s);
    '\t'.fmt_charset(&mut s);
    '\\'.fmt_charset(&mut s);
    assert_eq!(s, "\\*a\\n\\t\\\\");
}

#[test]
fn minterms_log_extremes() {
    assert_eq!(minterms_log(0), 0);
    assert_eq!(minterms_log(u32::MAX), 32);
    assert_eq!(minterms_log(1 << 31), 31);
    assert_eq!(minterms_log((1 << 31) + 1), 32);
}

#[test]
fn empty_pattern_matches_everywhere_in_order() {
    let re = Regex::new("").expect("valid pattern");
    let mut it = re.find_iter("abc");
    let mut starts = Vec::new();
    while let Some(m) = it.next() {
        assert!(m.is_empty());
        starts.push(m.start);
    }
    assert_eq!(starts, vec![0, 1, 2, 3]);
    assert!(re.is_match(""));
}

#[test]
fn placeholder_sets_match_the_zero_byte_only() {
    // Character sets are placeholders (`0`) in the IR, so a literal matches
    // only the byte 0, whose minterm is 0.
    let re = Regex::new("a").expect("valid pattern");
    assert!(!re.is_match("a"));
    let re = Regex::new("\u{0}").expect("valid pattern");
    let m = re.find("x\u{0}y").expect("a match");
    assert_eq!(m, Match { start: 1, end: 2 });
    assert_eq!(m.len(), 1);
    assert_eq!(m.as_str("x\u{0}y"), "\u{0}");
}

#[test]
fn match_as_str_takes_the_matched_bytes() {
    let m = Match { start: 2, end: 5 };
    assert_eq!(m.as_str("abcdefg"), "cde");
    assert_eq!(m.len(), 3);
    assert!(!m.is_empty());
    let e = Match { start: 4, end: 4 };
    assert_eq!(e.as_str("abcdefg"), "");
}

#[test]
fn regex_keeps_its_pattern_and_ir() {
    let re = Regex::new("a|b").expect("valid pattern");
    assert_eq!(re.pattern(), "a|b");
    assert!(matches!(re.arena().node(re.root()), Some(resharp::RegexNode::Or { .. })));
    let arena: &RegexNodeArena<u64> = re.arena();
    assert_eq!(arena.get_fixed_length(re.root()), Some(1));
}

/// Whether the pattern `id` matches `word`: derive by each character in turn,
/// then ask whether what is left matches the empty word.
fn accepts(builder: &mut RegexBuilder<BitSetSolver>, id: NodeId, word: &[u64]) -> bool {
    let mut cur = id;
    for &c in word {
        cur = derivative(builder, LocationKind::Center, c, cur);
    }
    is_nullable(builder, LocationKind::Center, cur)
}

#[test]
fn derivatives_decide_words_of_concat_union_and_star() {
    let (a, b, c) = (0b001u64, 0b010u64, 0b100u64);
    let mut builder = RegexBuilder::new(BitSetSolver);
    // (ab|a)c*
    let sa = builder.singleton(a);
    let sb = builder.singleton(b);
    let sc = builder.singleton(c);
    let ab = builder.concat(sa, sb);
    let alt = builder.or(ab, sa);
    let cs = builder.loop_(sc, 0, u32::MAX, false);
    let re = builder.concat(alt, cs);
    for (word, expected) in [
        (vec![a], true),
        (vec![a, b], true),
        (vec![a, c], true),
        (vec![a, b, c, c], true),
        (vec![], false),
        (vec![b], false),
        (vec![a, a], false),
        (vec![a, b, b], false),
        (vec![c, a], false),
    ] {
        assert_eq!(accepts(&mut builder, re, &word), expected, "word {:?}", word);
    }
}

#[test]
fn derivatives_decide_words_of_negation_and_intersection() {
    let (a, b) = (0b01u64, 0b10u64);
    let mut builder = RegexBuilder::new(BitSetSolver);
    // ~(a*) & (a|b)*: words over {a, b} with at least one b
    let sa = builder.singleton(a);
    let sab = builder.singleton(a | b);
    let astar = builder.loop_(sa, 0, u32::MAX, false);
    let not_astar = builder.not(astar);
    let abstar = builder.loop_(sab, 0, u32::MAX, false);
    let re = builder.and(not_astar, abstar);
    for (word, expected) in [
        (vec![b], true),
        (vec![a, b], true),
        (vec![b, a, a], true),
        (vec![], false),
        (vec![a], false),
        (vec![a, a, a], false),
        (vec![0b100u64], false),
    ] {
        assert_eq!(accepts(&mut builder, re, &word), expected, "word {:?}", word);
    }
}

#[test]
fn derivatives_decide_words_of_bounded_loops() {
    let a = 0b1u64;
    let mut builder = RegexBuilder::new(BitSetSolver);
    // a{1,3}
    let sa = builder.singleton(a);
    let re = builder.loop_(sa, 1, 3, false);
    for n in 0..6usize {
        let word = vec![a; n];
        assert_eq!(accepts(&mut builder, re, &word), (1..=3).contains(&n), "length {}", n);
    }
}

#[test]
fn derivatives_decide_words_of_loops_with_a_high_lower_bound() {
    let (a, b) = (0b01u64, 0b10u64);
    let mut builder = RegexBuilder::new(BitSetSolver);
    // a{2,5}, a{3} and (ab){2,3}
    let sa = builder.singleton(a);
    let sb = builder.singleton(b);
    let a25 = builder.loop_(sa, 2, 5, false);
    let a3 = builder.loop_(sa, 3, 3, false);
    let ab = builder.concat(sa, sb);
    let ab23 = builder.loop_(ab, 2, 3, false);
    for n in 0..8usize {
        let word = vec![a; n];
        assert_eq!(accepts(&mut builder, a25, &word), (2..=5).contains(&n), "a{{2,5}} length {}", n);
        assert_eq!(accepts(&mut builder, a3, &word), n == 3, "a{{3}} length {}", n);
    }
    assert!(!accepts(&mut builder, a25, &[a, b]));
    for (word, expected) in [
        (vec![a, b, a, b], true),
        (vec![a, b, a, b, a, b], true),
        (vec![a, b], false),
        (vec![a, b, a], false),
        (vec![a, b, a, b, a, b, a, b], false),
    ] {
        assert_eq!(accepts(&mut builder, ab23, &word), expected, "word {:?}", word);
    }
}

#[test]
fn error_positions_are_within_the_pattern() {
    for pattern in ["(", "(a|b", "[ab", "\\", "a\\", "(?<>a)", "(?x)", "~", "*", "é(", "[é", "(?<né"] {
        let pos = match parse_err(pattern) {
            ParseError::UnexpectedEof { pos }
            | ParseError::UnexpectedChar { pos, .. }
            | ParseError::UnclosedGroup { pos }
            | ParseError::UnclosedCharClass { pos }
            | ParseError::InvalidEscape { pos }
            | ParseError::InvalidQuantifier { pos }
            | ParseError::QuantifierMinGreaterThanMax { pos, .. }
            | ParseError::NothingToRepeat { pos }
            | ParseError::InvalidGroupName { pos }
            | ParseError::UnknownGroupType { pos } => pos,
        };
        assert!(pos <= pattern.len(), "pattern {:?} error at {}", pattern, pos);
    }
}

#[test]
fn derivatives_decide_words_of_a_loop_over_a_loop() {
    let a = 0b1u64;
    let mut arena: RegexNodeArena<u64> = RegexNodeArena::new();
    // (a{1,2}){0,2}, built node by node so that the loops stay nested
    let sa = arena.alloc_node(RegexNode::Singleton(a));
    let inner = arena.alloc_node(RegexNode::Loop { node: sa, low: 1, high: 2, lazy: false });
    let outer = arena.alloc_node(RegexNode::Loop { node: inner, low: 0, high: 2, lazy: false });
    let mut builder = RegexBuilder::with_arena(arena, BitSetSolver);
    for n in 0..7usize {
        let word = vec![a; n];
        assert_eq!(accepts(&mut builder, outer, &word), n <= 4, "length {}", n);
    }
    assert!(!accepts(&mut builder, outer, &[0b10u64]));
}

#[test]
fn derivatives_decide_words_of_three_nested_loops() {
    let a = 0b1u64;
    let mut arena: RegexNodeArena<u64> = RegexNodeArena::new();
    // ((a{0,2}){1,2}){0,2}: up to eight a's
    let sa = arena.alloc_node(RegexNode::Singleton(a));
    let l1 = arena.alloc_node(RegexNode::Loop { node: sa, low: 0, high: 2, lazy: false });
    let l2 = arena.alloc_node(RegexNode::Loop { node: l1, low: 1, high: 2, lazy: false });
    let l3 = arena.alloc_node(RegexNode::Loop { node: l2, low: 0, high: 2, lazy: false });
    let mut builder = RegexBuilder::with_arena(arena, BitSetSolver);
    for n in 0..11usize {
        let word = vec![a; n];
        assert_eq!(accepts(&mut builder, l3, &word), n <= 8, "length {}", n);
    }
}

#[test]
fn loop_lengths_multiply_the_body_lengths() {
    let mut b = RegexBuilder::new(BitSetSolver);
    let a = b.singleton(0b0001);
    let c = b.singleton(0b0010);
    let ac = b.concat(a, c);
    // (ac){2}: only words of length 4
    let l = b.loop_(ac, 2, 2, false);
    let info = b.get_info(l).unwrap();
    assert_eq!(info.min_length, Some(4));
    assert_eq!(info.max_length, Some(4));
    assert_eq!(b.arena().get_fixed_length(l), Some(4));
    // (ac){1,3}: words of length 2 to 6
    let l2 = b.loop_(ac, 1, 3, false);
    let info2 = b.get_info(l2).unwrap();
    assert_eq!(info2.min_length, Some(2));
    assert_eq!(info2.max_length, Some(6));
    // (ac){0,}: unbounded, and empty allowed
    let star = b.loop_(ac, 0, u32::MAX, false);
    let info3 = b.get_info(star).unwrap();
    assert_eq!(info3.min_length, Some(0));
    assert_eq!(info3.max_length, None);
    // a loop over a body without a maximum has none either
    let astar = b.loop_(a, 0, u32::MAX, false);
    let l4 = b.loop_(astar, 2, 3, false);
    assert_eq!(b.get_info(l4).unwrap().max_length, None);
}

#[test]
fn quantifier_min_above_max_is_rejected() {
    assert_eq!(parse_err("a{5,2}"), ParseError::QuantifierMinGreaterThanMax { min: 5, max: 2, pos: 1 });
    assert_eq!(parse_err("~a{3,1}"), ParseError::QuantifierMinGreaterThanMax { min: 3, max: 1, pos: 2 });
    assert_eq!(parse_err("é{10,9}"), ParseError::QuantifierMinGreaterThanMax { min: 10, max: 9, pos: 2 });
    assert_eq!(
        parse_err("a{99999999999,1}"),
        ParseError::QuantifierMinGreaterThanMax { min: u32::MAX, max: 1, pos: 1 }
    );
    for ok in ["a{2,5}", "a{5,5}", "a{5}", "a{5,}", "a{,2}", "a{0,0}", "a{2,5}?"] {
        assert!(parse(ok, RegexOptions::NONE()).is_ok(), "pattern {:?}", ok);
    }
}

#[test]
fn alloc_of_a_node_with_missing_children() {
    let mut arena: RegexNodeArena<u64> = RegexNodeArena::new();
    // children 40 and 41 are not in the arena: they count as flagless and of
    // unknown length
    let id = arena.alloc_node(RegexNode::Concat { head: NodeId(40), tail: NodeId(41) });
    assert_eq!(id, NodeId(4));
    assert_eq!(arena.flags(id), resharp::NodeFlags::empty());
    let info = arena.get(id).expect("allocated");
    assert_eq!(info.min_length, None);
    assert_eq!(info.max_length, None);
    assert!(arena.get(NodeId(5)).is_none());
}

#[test]
fn derivatives_decide_words_over_multi_bit_classes() {
    // classes 0b0011 and 0b1100 are each held whole or not at all by the
    // sets 0b0011, 0b1100 and 0b1111
    let (x, y) = (0b0011u64, 0b1100u64);
    let mut builder = RegexBuilder::new(BitSetSolver);
    let sx = builder.singleton(x);
    let sy = builder.singleton(y);
    let sxy = builder.singleton(x | y);
    // ([x] | [y]) · [x|y]*
    let alt = builder.or(sx, sy);
    let star = builder.loop_(sxy, 0, u32::MAX, false);
    let re = builder.concat(alt, star);
    for (word, expected) in [
        (vec![x], true),
        (vec![y, x, y], true),
        (vec![], false),
        (vec![0b1_0000u64], false),
        (vec![x, 0b1_0000u64], false),
    ] {
        assert_eq!(accepts(&mut builder, re, &word), expected, "word {:?}", word);
    }
}

#[test]
fn derivatives_decide_words_with_dot() {
    let (a, b) = (0b01u64, 0b10u64);
    let mut builder = RegexBuilder::new(BitSetSolver);
    let sa = builder.singleton(a);
    let any = NodeId::ANY();
    // a., .{2,3} and ~.
    let a_dot = builder.concat(sa, any);
    let dots = builder.loop_(any, 2, 3, false);
    let not_dot = builder.not(any);
    for (word, expected) in [(vec![a, b], true), (vec![a, a], true), (vec![a], false), (vec![b, a], false)] {
        assert_eq!(accepts(&mut builder, a_dot, &word), expected, "a. word {:?}", word);
    }
    for n in 0..6usize {
        let word = vec![b; n];
        assert_eq!(accepts(&mut builder, dots, &word), (2..=3).contains(&n), ".{{2,3}} length {}", n);
        assert_eq!(accepts(&mut builder, not_dot, &word), n != 1, "~. length {}", n);
    }
}

#[test]
fn derivatives_decide_words_of_nested_loops_with_a_high_inner_lower_bound() {
    let a = 0b1u64;
    let mut arena: RegexNodeArena<u64> = RegexNodeArena::new();
    // (a{2}){3} is a{6}; (a{2,3}){2,5} is a{4,15}
    let sa = arena.alloc_node(RegexNode::Singleton(a));
    let a2 = arena.alloc_node(RegexNode::Loop { node: sa, low: 2, high: 2, lazy: false });
    let a2_3 = arena.alloc_node(RegexNode::Loop { node: a2, low: 3, high: 3, lazy: false });
    let a23 = arena.alloc_node(RegexNode::Loop { node: sa, low: 2, high: 3, lazy: false });
    let a23_25 = arena.alloc_node(RegexNode::Loop { node: a23, low: 2, high: 5, lazy: false });
    let mut builder = RegexBuilder::with_arena(arena, BitSetSolver);
    for n in 0..18usize {
        let word = vec![a; n];
        assert_eq!(accepts(&mut builder, a2_3, &word), n == 6, "(a{{2}}){{3}} length {}", n);
        assert_eq!(accepts(&mut builder, a23_25, &word), (4..=15).contains(&n), "(a{{2,3}}){{2,5}} length {}", n);
    }
}

#[test]
fn try_concat_refuses_a_minimum_length_beyond_u32() {
    let a = 0b1u64;
    let mut builder = RegexBuilder::new(BitSetSolver);
    let sa = builder.singleton(a);
    let big = builder.loop_(sa, 4_000_000_000, 4_000_000_000, false);
    let before = builder.arena().get(NodeId(u32::MAX - 1)).is_none();
    assert!(before);
    assert_eq!(builder.try_concat(big, big), None);
    let pair = builder.try_concat(sa, sa).expect("fits");
    assert_eq!(builder.arena().get_fixed_length(pair), Some(2));
    assert_eq!(builder.try_concat(sa, NodeId::EPSILON()), Some(sa));
}

#[test]
fn derivatives_decide_words_of_loops_over_pre_allocated_nodes() {
    let (a, b) = (0b01u64, 0b10u64);
    let mut arena: RegexNodeArena<u64> = RegexNodeArena::new();
    // (_*){2,3} matches every word, ε{1,4} only the empty one, ⊥{0,2} only
    // the empty one, ⊥{1,2} none
    let top = arena.alloc_node(RegexNode::Loop { node: NodeId::TOP_STAR(), low: 2, high: 3, lazy: false });
    let eps = arena.alloc_node(RegexNode::Loop { node: NodeId::EPSILON(), low: 1, high: 4, lazy: false });
    let none0 = arena.alloc_node(RegexNode::Loop { node: NodeId::NOTHING(), low: 0, high: 2, lazy: false });
    let none1 = arena.alloc_node(RegexNode::Loop { node: NodeId::NOTHING(), low: 1, high: 2, lazy: false });
    let mut builder = RegexBuilder::with_arena(arena, BitSetSolver);
    for word in [vec![], vec![a], vec![b, a, b]] {
        let empty = word.is_empty();
        assert!(accepts(&mut builder, top, &word), "(_*){{2,3}} word {:?}", word);
        assert_eq!(accepts(&mut builder, eps, &word), empty, "eps word {:?}", word);
        assert_eq!(accepts(&mut builder, none0, &word), empty, "nothing{{0,2}} word {:?}", word);
        assert!(!accepts(&mut builder, none1, &word), "nothing{{1,2}} word {:?}", word);
    }
}

#[test]
fn derivatives_decide_words_of_unions_of_overlapping_loops() {
    let (x, a) = (0b10u64, 0b01u64);
    let mut builder = RegexBuilder::new(BitSetSolver);
    // x·a{2,3} | x·a{3,5}: the derivative by x merges the two loops into a{2,5}
    let sx = builder.singleton(x);
    let sa = builder.singleton(a);
    let l1 = builder.loop_(sa, 2, 3, false);
    let l2 = builder.loop_(sa, 3, 5, false);
    let c1 = builder.concat(sx, l1);
    let c2 = builder.concat(sx, l2);
    let re = builder.or(c1, c2);
    for n in 0..8usize {
        let mut word = vec![x];
        word.extend(vec![a; n]);
        assert_eq!(accepts(&mut builder, re, &word), (2..=5).contains(&n), "x a^{}", n);
    }
}

#[test]
fn derivatives_decide_words_of_a_union_of_a_node_and_its_loop() {
    let (x, a) = (0b10u64, 0b01u64);
    let mut builder = RegexBuilder::new(BitSetSolver);
    // x·a | x·a{2,4}: the derivative by x merges a and a{2,4} into a{1,4}
    let sx = builder.singleton(x);
    let sa = builder.singleton(a);
    let l = builder.loop_(sa, 2, 4, false);
    let c1 = builder.concat(sx, sa);
    let c2 = builder.concat(sx, l);
    let re = builder.or(c1, c2);
    for n in 0..7usize {
        let mut word = vec![x];
        word.extend(vec![a; n]);
        assert_eq!(accepts(&mut builder, re, &word), (1..=4).contains(&n), "x a^{}", n);
    }
}
