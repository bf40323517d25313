//! Where the parser stops and where its errors point.
//!
//! Every part of the grammar, read from a position in the pattern, either
//! ends at a later position within the pattern or fails with an error whose
//! byte position is within the pattern. So every error of `parse` points
//! into the pattern it was given.
use vstd::prelude::*;
use crate::error::ParseError;
use crate::parser::{
    brace_end, bpos, byte_offset, class_char, close_group, cur, digits_end, escape_body, hex_end,
    lemma_byte_offset_mono, literal_end, name_end, p_alternation, p_alternation_rest, p_atom, p_char_class,
    p_class_items, p_concat_items, p_concatenation, p_conjunction, p_conjunction_rest, p_escape, p_group,
    p_group_modifier, p_named_group, p_negated_atom, p_term, parse_spec, wrap_quantifier,
};
use crate::syntax::{SpecEvent, SyntaxKind};

verus! {

/// The byte position an error points at.
pub open spec fn error_pos(e: ParseError) -> usize {
    match e {
        ParseError::UnexpectedEof { pos } => pos,
        ParseError::UnexpectedChar { pos, .. } => pos,
        ParseError::UnclosedGroup { pos } => pos,
        ParseError::UnclosedCharClass { pos } => pos,
        ParseError::InvalidEscape { pos } => pos,
        ParseError::InvalidQuantifier { pos } => pos,
        ParseError::QuantifierMinGreaterThanMax { pos, .. } => pos,
        ParseError::NothingToRepeat { pos } => pos,
        ParseError::InvalidGroupName { pos } => pos,
        ParseError::UnknownGroupType { pos } => pos,
    }
}

/// A result of reading from `p`: it ends between `p` and the end of `s`, or
/// its error points into `s`.
pub open spec fn within(s: Seq<char>, p: int, r: Result<(Seq<SpecEvent>, int), ParseError>) -> bool {
    match r {
        Ok((_, q)) => p <= q <= s.len(),
        Err(e) => error_pos(e) <= byte_offset(s, s.len() as int),
    }
}

/// The byte position of a position within `s` is within `s`.
proof fn lemma_bpos_within(s: Seq<char>, p: int)
    requires
        0 <= p <= s.len(),
        byte_offset(s, s.len() as int) <= usize::MAX,
    ensures
        bpos(s, p) <= byte_offset(s, s.len() as int),
{
    lemma_byte_offset_mono(s, p, s.len() as int);
}

proof fn lemma_literal_end(s: Seq<char>, p: int)
    requires
        0 <= p <= s.len(),
    ensures
        p <= literal_end(s, p) <= s.len(),
    decreases s.len() - p,
{
    if p < s.len() {
        lemma_literal_end(s, p + 1);
    }
}

proof fn lemma_digits_end(s: Seq<char>, p: int)
    requires
        0 <= p <= s.len(),
    ensures
        p <= digits_end(s, p) <= s.len(),
    decreases s.len() - p,
{
    if p < s.len() {
        lemma_digits_end(s, p + 1);
    }
}

proof fn lemma_hex_end(s: Seq<char>, p: int, k: nat)
    requires
        0 <= p <= s.len(),
    ensures
        p <= hex_end(s, p, k) <= s.len(),
    decreases k,
{
    if k > 0 && p < s.len() {
        lemma_hex_end(s, p + 1, (k - 1) as nat);
    }
}

proof fn lemma_brace_end(s: Seq<char>, p: int)
    requires
        0 <= p <= s.len(),
    ensures
        p <= brace_end(s, p) <= s.len(),
    decreases s.len() - p,
{
    if p < s.len() && s[p] != '}' {
        lemma_brace_end(s, p + 1);
    }
}

proof fn lemma_name_end(s: Seq<char>, p: int)
    requires
        0 <= p <= s.len(),
    ensures
        p <= name_end(s, p) <= s.len(),
    decreases s.len() - p,
{
    if p < s.len() && s[p] != '>' {
        lemma_name_end(s, p + 1);
    }
}

proof fn lemma_escape_within(s: Seq<char>, p: int, o: u32)
    requires
        0 <= p < s.len(),
        byte_offset(s, s.len() as int) <= usize::MAX,
    ensures
        within(s, p, p_escape(s, p, o)),
{
    match cur(s, p + 1) {
        None => lemma_bpos_within(s, p + 1),
        Some(ch) => {
            let q = p + 1;
            lemma_digits_end(s, q + 1);
            lemma_hex_end(s, q + 1, 2);
            lemma_hex_end(s, q + 1, 4);
            if q + 2 <= s.len() {
                lemma_brace_end(s, q + 2);
            }
            let (kind, end) = escape_body(s, q, ch, o);
            assert(q < end <= s.len());
        },
    }
}

proof fn lemma_wrap_within(s: Seq<char>, p: int, atom: Seq<SpecEvent>)
    requires
        0 <= p <= s.len(),
    ensures
        p <= wrap_quantifier(s, p, atom).1 <= s.len(),
{
    if p < s.len() {
        lemma_brace_end(s, p + 1);
    }
}

proof fn lemma_class_items_within(s: Seq<char>, q: int, o: u32)
    requires
        0 <= q <= s.len(),
        byte_offset(s, s.len() as int) <= usize::MAX,
    ensures
        within(s, q, p_class_items(s, q, o)),
    decreases s.len() - q,
{
    if q < s.len() && s[q] != ']' {
        if s[q] == '\\' {
            lemma_escape_within(s, q, o);
            if let Ok((e1, q1)) = p_escape(s, q, o) {
                if q < q1 <= s.len() {
                    lemma_class_items_within(s, q1, o);
                }
            }
        } else {
            let (item, next) = class_char(s, q);
            assert(q < next <= s.len());
            lemma_class_items_within(s, next, o);
        }
    }
}

proof fn lemma_char_class_within(s: Seq<char>, p: int, o: u32)
    requires
        0 <= p < s.len(),
        byte_offset(s, s.len() as int) <= usize::MAX,
    ensures
        within(s, p, p_char_class(s, p, o)),
{
    let q = if cur(s, p + 1) == Some('^') {
        p + 2
    } else {
        p + 1
    };
    lemma_class_items_within(s, q, o);
    lemma_bpos_within(s, p);
}

proof fn lemma_close_group_within(
    s: Seq<char>,
    p: int,
    start: int,
    kind: SyntaxKind,
    prefix: Seq<SpecEvent>,
    inner: Result<(Seq<SpecEvent>, int), ParseError>,
)
    requires
        0 <= start <= p <= s.len(),
        byte_offset(s, s.len() as int) <= usize::MAX,
        within(s, p, inner),
    ensures
        within(s, p, close_group(s, start, kind, prefix, inner)),
{
    lemma_bpos_within(s, start);
}

proof fn lemma_alternation_within(s: Seq<char>, p: int, o: u32)
    requires
        0 <= p <= s.len(),
        byte_offset(s, s.len() as int) <= usize::MAX,
    ensures
        within(s, p, p_alternation(s, p, o)),
    decreases s.len() - p, 8nat,
{
    lemma_conjunction_within(s, p, o);
    if let Ok((c1, p1)) = p_conjunction(s, p, o) {
        lemma_alternation_rest_within(s, p1, o);
    }
}

proof fn lemma_alternation_rest_within(s: Seq<char>, p: int, o: u32)
    requires
        0 <= p <= s.len(),
        byte_offset(s, s.len() as int) <= usize::MAX,
    ensures
        within(s, p, p_alternation_rest(s, p, o)),
    decreases s.len() - p, 7nat,
{
    if cur(s, p) == Some('|') {
        lemma_conjunction_within(s, p + 1, o);
        if let Ok((c1, p1)) = p_conjunction(s, p + 1, o) {
            if p < p1 <= s.len() {
                lemma_alternation_rest_within(s, p1, o);
            }
        }
    }
}

proof fn lemma_conjunction_within(s: Seq<char>, p: int, o: u32)
    requires
        0 <= p <= s.len(),
        byte_offset(s, s.len() as int) <= usize::MAX,
    ensures
        within(s, p, p_conjunction(s, p, o)),
    decreases s.len() - p, 6nat,
{
    lemma_concatenation_within(s, p, o);
    if let Ok((c1, p1)) = p_concatenation(s, p, o) {
        lemma_conjunction_rest_within(s, p1, o);
    }
}

proof fn lemma_conjunction_rest_within(s: Seq<char>, p: int, o: u32)
    requires
        0 <= p <= s.len(),
        byte_offset(s, s.len() as int) <= usize::MAX,
    ensures
        within(s, p, p_conjunction_rest(s, p, o)),
    decreases s.len() - p, 5nat,
{
    if cur(s, p) == Some('&') {
        lemma_concatenation_within(s, p + 1, o);
        if let Ok((c1, p1)) = p_concatenation(s, p + 1, o) {
            if p < p1 <= s.len() {
                lemma_conjunction_rest_within(s, p1, o);
            }
        }
    }
}

proof fn lemma_concatenation_within(s: Seq<char>, p: int, o: u32)
    requires
        0 <= p <= s.len(),
        byte_offset(s, s.len() as int) <= usize::MAX,
    ensures
        within(s, p, p_concatenation(s, p, o)),
    decreases s.len() - p, 4nat,
{
    lemma_concat_items_within(s, p, o);
}

proof fn lemma_concat_items_within(s: Seq<char>, p: int, o: u32)
    requires
        0 <= p <= s.len(),
        byte_offset(s, s.len() as int) <= usize::MAX,
    ensures
        within(s, p, p_concat_items(s, p, o)),
    decreases s.len() - p, 3nat,
{
    if !(cur(s, p) matches None) && !(cur(s, p) matches Some(c) && (c == '|' || c == '&' || c == ')')) {
        lemma_term_within(s, p, o);
        if let Ok((t, p1)) = p_term(s, p, o) {
            if p < p1 <= s.len() {
                lemma_concat_items_within(s, p1, o);
            }
        }
    }
}

proof fn lemma_term_within(s: Seq<char>, p: int, o: u32)
    requires
        0 <= p <= s.len(),
        byte_offset(s, s.len() as int) <= usize::MAX,
    ensures
        within(s, p, p_term(s, p, o)),
    decreases s.len() - p, 2nat,
{
    reveal(crate::parser::quant_error);
    if cur(s, p) == Some('~') {
        lemma_negated_atom_within(s, p + 1, o);
        if let Ok((a, p1)) = p_negated_atom(s, p + 1, o) {
            lemma_wrap_within(s, p1, a);
            lemma_bpos_within(s, p1);
        }
    } else {
        lemma_atom_within(s, p, o, false);
        if let Ok((a, p1)) = p_atom(s, p, o, false) {
            lemma_wrap_within(s, p1, a);
            lemma_bpos_within(s, p1);
        }
    }
}

proof fn lemma_negated_atom_within(s: Seq<char>, p: int, o: u32)
    requires
        0 <= p <= s.len(),
        byte_offset(s, s.len() as int) <= usize::MAX,
    ensures
        within(s, p, p_negated_atom(s, p, o)),
    decreases s.len() - p, 3nat,
{
    lemma_bpos_within(s, p);
    if p < s.len() {
        let ch = s[p];
        if ch == '(' {
            lemma_group_within(s, p, o);
        } else if ch == '[' {
            lemma_char_class_within(s, p, o);
        } else if ch == '\\' {
            lemma_escape_within(s, p, o);
        } else if ch == '~' {
            lemma_term_within(s, p, o);
        }
    }
}

proof fn lemma_atom_within(s: Seq<char>, p: int, o: u32, negated: bool)
    requires
        0 <= p <= s.len(),
        byte_offset(s, s.len() as int) <= usize::MAX,
    ensures
        within(s, p, p_atom(s, p, o, negated)),
    decreases s.len() - p, 1nat,
{
    lemma_bpos_within(s, p);
    if p < s.len() {
        let ch = s[p];
        lemma_literal_end(s, p);
        if ch == '(' {
            lemma_group_within(s, p, o);
        } else if ch == '[' {
            lemma_char_class_within(s, p, o);
        } else if ch == '\\' {
            lemma_escape_within(s, p, o);
        }
    }
}

proof fn lemma_group_within(s: Seq<char>, p: int, o: u32)
    requires
        0 <= p <= s.len(),
        byte_offset(s, s.len() as int) <= usize::MAX,
    ensures
        within(s, p, p_group(s, p, o)),
    decreases s.len() - p, 0nat,
{
    if p < s.len() {
        if cur(s, p + 1) == Some('?') {
            lemma_group_modifier_within(s, p + 2, o, p);
        } else {
            lemma_alternation_within(s, p + 1, o);
            lemma_close_group_within(
                s,
                p + 1,
                p,
                SyntaxKind::Capture,
                seq![crate::parser::tok(SyntaxKind::LParen, seq!['('])],
                p_alternation(s, p + 1, o),
            );
        }
    }
}

proof fn lemma_group_modifier_within(s: Seq<char>, q: int, o: u32, start: int)
    requires
        0 <= start < q <= s.len(),
        byte_offset(s, s.len() as int) <= usize::MAX,
    ensures
        within(s, q, p_group_modifier(s, q, o, start)),
    decreases s.len() - q, 0nat,
{
    lemma_bpos_within(s, start);
    if q < s.len() {
        let c = s[q];
        if c == '<' && cur(s, q + 1) != Some('=') && cur(s, q + 1) != Some('!') {
            lemma_named_group_within(s, q + 1, o, start);
        } else if c == '<' {
            let o2 = o | crate::parser::right_to_left_bits();
            lemma_alternation_within(s, q + 2, o2);
        } else if c == ':' || c == '=' || c == '!' || c == '>' {
            lemma_alternation_within(s, q + 1, o);
        }
    }
}

proof fn lemma_named_group_within(s: Seq<char>, name_start: int, o: u32, start: int)
    requires
        0 <= start < name_start <= s.len(),
        byte_offset(s, s.len() as int) <= usize::MAX,
    ensures
        within(s, name_start, p_named_group(s, name_start, o, start)),
    decreases s.len() - name_start, 0nat,
{
    lemma_bpos_within(s, name_start);
    lemma_bpos_within(s, start);
    lemma_name_end(s, name_start);
    let e = name_end(s, name_start);
    if !(e <= name_start || cur(s, e) != Some('>') || e >= s.len()) {
        lemma_alternation_within(s, e + 1, o);
    }
}

/// Every error of the parser points into the pattern: its byte position is
/// at most the pattern's length in bytes.
pub proof fn lemma_parse_error_within(s: Seq<char>, o: u32)
    requires
        byte_offset(s, s.len() as int) <= usize::MAX,
    ensures
        parse_spec(s, o) matches Err(e) ==> error_pos(e) <= byte_offset(s, s.len() as int),
{
    lemma_alternation_within(s, 0, o);
}

} // verus!
