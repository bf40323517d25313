//! Main regex parser implementation.
//!
//! The grammar is stated by the spec functions `p_*` below: each reads the
//! pattern's characters from a position and gives the events of the syntax
//! tree it builds and the position after what it read, or the error. The
//! executable parser is proved to follow them.
use vstd::prelude::*;
use vstd::utf8::{encode_scalar, encode_utf8};
use crate::error::ParseError;
use crate::printer::push_char;
use crate::syntax::{events_view, CstEvent, GreenNode, RegexOptions, SpecEvent, SyntaxKind};

verus! {

// ---------------------------------------------------------------------------
// Positions
// ---------------------------------------------------------------------------

/// The character at position `p` of `s`, if there is one.
pub open spec fn cur(s: Seq<char>, p: int) -> Option<char> {
    if 0 <= p < s.len() {
        Some(s[p])
    } else {
        None
    }
}

/// The byte offset of character position `p` of `s` in its UTF-8 encoding.
pub open spec fn byte_offset(s: Seq<char>, p: int) -> nat {
    encode_utf8(s.take(p)).len()
}

/// The byte offset of position `p`, as error positions give it.
pub open spec fn bpos(s: Seq<char>, p: int) -> usize {
    byte_offset(s, p) as usize
}

/// Whether `ch` is a regex metacharacter.
pub open spec fn is_meta(ch: char) -> bool {
    ch == '\\' || ch == '|' || ch == '&' || ch == '~' || ch == '(' || ch == ')' || ch == '['
        || ch == ']' || ch == '{' || ch == '}' || ch == '*' || ch == '+' || ch == '?' || ch
        == '.' || ch == '^' || ch == '$' || ch == '_'
}

/// Whether `ch` is an ASCII hexadecimal digit.
pub open spec fn is_hex(ch: char) -> bool {
    ('0' <= ch <= '9') || ('a' <= ch <= 'f') || ('A' <= ch <= 'F')
}

/// The option bits of `RegexOptions::MULTILINE`.
pub open spec fn multiline_bits() -> u32 {
    0x0002
}

/// The option bits of `RegexOptions::ECMA_SCRIPT`.
pub open spec fn ecma_bits() -> u32 {
    0x0100
}

/// The option bits of `RegexOptions::RIGHT_TO_LEFT`.
pub open spec fn right_to_left_bits() -> u32 {
    0x0040
}

/// Whether the options `o` hold all of `flag`.
pub open spec fn has_option(o: u32, flag: u32) -> bool {
    o & flag == flag
}

// ---------------------------------------------------------------------------
// Events
// ---------------------------------------------------------------------------

/// A node of kind `k` around the events `inner`.
pub open spec fn node_ev(k: SyntaxKind, inner: Seq<SpecEvent>) -> Seq<SpecEvent> {
    seq![SpecEvent::Start(k)] + inner + seq![SpecEvent::Finish]
}

/// A token of kind `k` with text `t`.
pub open spec fn tok(k: SyntaxKind, t: Seq<char>) -> SpecEvent {
    SpecEvent::Token(k, t)
}

// ---------------------------------------------------------------------------
// Scanning helpers
// ---------------------------------------------------------------------------

/// The end of the run of non-metacharacters from `p`.
pub open spec fn literal_end(s: Seq<char>, p: int) -> int
    decreases s.len() - p,
{
    if 0 <= p < s.len() && !is_meta(s[p]) {
        literal_end(s, p + 1)
    } else {
        p
    }
}

/// The end of the run of decimal digits from `p`.
pub open spec fn digits_end(s: Seq<char>, p: int) -> int
    decreases s.len() - p,
{
    if 0 <= p < s.len() && '0' <= s[p] <= '9' {
        digits_end(s, p + 1)
    } else {
        p
    }
}

/// The end of at most `k` hexadecimal digits from `p`.
pub open spec fn hex_end(s: Seq<char>, p: int, k: nat) -> int
    decreases k,
{
    if k == 0 {
        p
    } else if 0 <= p < s.len() && is_hex(s[p]) {
        hex_end(s, p + 1, (k - 1) as nat)
    } else {
        p
    }
}

/// The position after the first `}` from `p`, or the end of the input.
pub open spec fn brace_end(s: Seq<char>, p: int) -> int
    decreases s.len() - p,
{
    if p < 0 || p >= s.len() {
        p
    } else if s[p] == '}' {
        p + 1
    } else {
        brace_end(s, p + 1)
    }
}

/// The position of the first `>` from `p`, or the end of the input.
pub open spec fn name_end(s: Seq<char>, p: int) -> int
    decreases s.len() - p,
{
    if p < 0 || p >= s.len() || s[p] == '>' {
        p
    } else {
        name_end(s, p + 1)
    }
}

// ---------------------------------------------------------------------------
// Leaves of the grammar
// ---------------------------------------------------------------------------

/// A literal from `p`: a single character where `single`, else the run of
/// non-metacharacters; one character is a `One`, more a `Multi`.
pub open spec fn p_literal(s: Seq<char>, p: int, single: bool) -> (Seq<SpecEvent>, int) {
    let end = if single {
        if 0 <= p < s.len() {
            p + 1
        } else {
            p
        }
    } else {
        literal_end(s, p)
    };
    let kind = if end - p == 1 {
        SyntaxKind::One
    } else {
        SyntaxKind::Multi
    };
    (node_ev(kind, seq![tok(SyntaxKind::Char, s.subrange(p, end))]), end)
}

/// The kind of an escape whose letter, at `q`, is `ch`, and the end of the
/// escape.
pub open spec fn escape_body(s: Seq<char>, q: int, ch: char, o: u32) -> (SyntaxKind, int) {
    if ch == 'd' || ch == 'D' || ch == 'w' || ch == 'W' || ch == 's' || ch == 'S' {
        (SyntaxKind::ClassSet, q + 1)
    } else if ch == 'A' {
        (SyntaxKind::Beginning, q + 1)
    } else if ch == 'z' {
        (SyntaxKind::End, q + 1)
    } else if ch == 'Z' {
        (SyntaxKind::EndZ, q + 1)
    } else if ch == 'G' {
        (SyntaxKind::Start, q + 1)
    } else if ch == 'b' {
        (if has_option(o, ecma_bits()) {
            SyntaxKind::ECMABoundary
        } else {
            SyntaxKind::Boundary
        }, q + 1)
    } else if ch == 'B' {
        (if has_option(o, ecma_bits()) {
            SyntaxKind::NonECMABoundary
        } else {
            SyntaxKind::NonBoundary
        }, q + 1)
    } else if '1' <= ch <= '9' {
        (SyntaxKind::Backreference, digits_end(s, q + 1))
    } else if ch == 'x' {
        (SyntaxKind::One, hex_end(s, q + 1, 2))
    } else if ch == 'u' {
        (SyntaxKind::One, hex_end(s, q + 1, 4))
    } else if ch == 'p' || ch == 'P' {
        (SyntaxKind::ClassSet, if cur(s, q + 1) == Some('{') {
            brace_end(s, q + 2)
        } else {
            q + 1
        })
    } else {
        // `\n`, `\r`, `\t`, `\f`, `\a`, `\e`, `\v` and escaped literals
        (SyntaxKind::One, q + 1)
    }
}

/// An escape sequence at `p` (where the backslash is).
pub open spec fn p_escape(s: Seq<char>, p: int, o: u32) -> Result<(Seq<SpecEvent>, int), ParseError> {
    match cur(s, p + 1) {
        None => Err(ParseError::UnexpectedEof { pos: bpos(s, p + 1) }),
        Some(ch) => {
            let (kind, end) = escape_body(s, p + 1, ch, o);
            Ok((node_ev(kind, seq![tok(SyntaxKind::EscapeSeq, s.subrange(p, end))]), end))
        },
    }
}

/// The quantifier at `p`, if there is one: the kind of loop it makes, the
/// text of its token, and the position after it.
pub open spec fn p_quantifier(s: Seq<char>, p: int) -> Option<(SyntaxKind, Seq<char>, int)> {
    match cur(s, p) {
        Some(c) => if c == '*' || c == '+' || c == '?' {
            let lazy = cur(s, p + 1) == Some('?');
            let end = if lazy {
                p + 2
            } else {
                p + 1
            };
            Some(
                (if lazy {
                    SyntaxKind::Lazyloop
                } else {
                    SyntaxKind::Loop
                }, s.subrange(p, end), end),
            )
        } else if c == '{' {
            let close = brace_end(s, p + 1);
            let lazy = cur(s, close) == Some('?');
            Some(
                (if lazy {
                    SyntaxKind::Lazyloop
                } else {
                    SyntaxKind::Loop
                }, if lazy {
                    s.subrange(p, close).push('?')
                } else {
                    s.subrange(p, close)
                }, if lazy {
                    close + 1
                } else {
                    close
                }),
            )
        } else {
            None
        },
        None => None,
    }
}

/// The decimal value of the digits `s[p..e]`, capped at `u32::MAX`.
pub open spec fn dec_value(s: Seq<char>, p: int, e: int) -> u32
    decreases e - p,
{
    if e <= p {
        0
    } else {
        let v = dec_value(s, p, e - 1) as int * 10 + (s[e - 1] as int - '0' as int);
        if v > u32::MAX {
            u32::MAX
        } else {
            v as u32
        }
    }
}

/// The bounds of a quantifier `{min,max}` at `p` (where its `{` is) that
/// gives both, each capped at `u32::MAX`.
pub open spec fn brace_bounds(s: Seq<char>, p: int) -> Option<(u32, u32)> {
    let d1 = digits_end(s, p + 1);
    if d1 > p + 1 && cur(s, d1) == Some(',') {
        let d2 = digits_end(s, d1 + 1);
        if d2 > d1 + 1 && cur(s, d2) == Some('}') {
            Some((dec_value(s, p + 1, d1), dec_value(s, d1 + 1, d2)))
        } else {
            None
        }
    } else {
        None
    }
}

/// The error of the quantifier at `p`, if it has one: a `{min,max}` whose
/// minimum exceeds its maximum.
#[verifier::opaque]
pub open spec fn quant_error(s: Seq<char>, p: int) -> Option<ParseError> {
    if cur(s, p) == Some('{') {
        match brace_bounds(s, p) {
            Some((mn, mx)) => if mn > mx {
                Some(ParseError::QuantifierMinGreaterThanMax { min: mn, max: mx, pos: bpos(s, p) })
            } else {
                None
            },
            None => None,
        }
    } else {
        None
    }
}

/// The events of `atom` wrapped in the loop of the quantifier at `p`, if
/// there is one, and the position after the quantifier.
pub open spec fn wrap_quantifier(s: Seq<char>, p: int, atom: Seq<SpecEvent>) -> (Seq<SpecEvent>, int) {
    match p_quantifier(s, p) {
        Some((kind, text, end)) => (
            seq![SpecEvent::Start(kind)] + atom + seq![
                tok(SyntaxKind::Quantifier, text),
                SpecEvent::Finish,
            ],
            end,
        ),
        None => (atom, p),
    }
}

/// A character of a class at `q` (not a backslash), or a range from it: the
/// events it adds and the position after it.
pub open spec fn class_char(s: Seq<char>, q: int) -> (Seq<SpecEvent>, int) {
    let r = q + 1;
    if cur(s, r) == Some('-') && cur(s, r + 1) != Some(']') {
        match cur(s, r + 1) {
            Some(c) => if c != ']' {
                (node_ev(SyntaxKind::CharRange, seq![tok(SyntaxKind::Char, s.subrange(q, r + 2))]), r + 2)
            } else {
                (seq![tok(SyntaxKind::Char, s.subrange(q, r + 1))], r + 1)
            },
            None => (seq![tok(SyntaxKind::Char, s.subrange(q, r + 1))], r + 1),
        }
    } else {
        (seq![tok(SyntaxKind::Char, s.subrange(q, r))], r)
    }
}

/// The items of a character class from `q` up to its closing bracket (or
/// the end of the input): escapes, ranges and single characters.
pub open spec fn p_class_items(s: Seq<char>, q: int, o: u32) -> Result<(Seq<SpecEvent>, int), ParseError>
    decreases s.len() - q,
{
    if q < 0 || q >= s.len() || s[q] == ']' {
        Ok((Seq::empty(), q))
    } else if s[q] == '\\' {
        match p_escape(s, q, o) {
            Err(e) => Err(e),
            Ok((e1, q1)) => if q < q1 <= s.len() {
                match p_class_items(s, q1, o) {
                    Err(e) => Err(e),
                    Ok((e2, q2)) => Ok((e1 + e2, q2)),
                }
            } else {
                Ok((e1, q1))
            },
        }
    } else {
        let (item, next) = class_char(s, q);
        match p_class_items(s, next, o) {
            Err(e) => Err(e),
            Ok((e2, q2)) => Ok((item + e2, q2)),
        }
    }
}

/// The end of a character class at `p` of kind `kind` whose items were
/// read: the closing bracket must follow them.
pub open spec fn class_close(
    s: Seq<char>,
    p: int,
    kind: SyntaxKind,
    items: Result<(Seq<SpecEvent>, int), ParseError>,
) -> Result<(Seq<SpecEvent>, int), ParseError> {
    match items {
        Err(e) => Err(e),
        Ok((it, q1)) => if cur(s, q1) == Some(']') {
            Ok((node_ev(kind, it), q1 + 1))
        } else {
            Err(ParseError::UnclosedCharClass { pos: bpos(s, p) })
        },
    }
}

/// A character class at `p` (where the opening bracket is).
pub open spec fn p_char_class(s: Seq<char>, p: int, o: u32) -> Result<(Seq<SpecEvent>, int), ParseError> {
    let negated = cur(s, p + 1) == Some('^');
    let q = if negated {
        p + 2
    } else {
        p + 1
    };
    let kind = if negated {
        SyntaxKind::CharClassNegated
    } else {
        SyntaxKind::CharClass
    };
    class_close(s, p, kind, p_class_items(s, q, o))
}

// ---------------------------------------------------------------------------
// The recursive part of the grammar
// ---------------------------------------------------------------------------

/// Alternation: conjunction ('|' conjunction)*
pub open spec fn p_alternation(s: Seq<char>, p: int, o: u32) -> Result<(Seq<SpecEvent>, int), ParseError>
    decreases s.len() - p, 8nat,
{
    match p_conjunction(s, p, o) {
        Err(e) => Err(e),
        Ok((c1, p1)) => if p <= p1 <= s.len() {
            match p_alternation_rest(s, p1, o) {
                Err(e) => Err(e),
                Ok((c2, p2)) => Ok((node_ev(SyntaxKind::Alternate, c1 + c2), p2)),
            }
        } else {
            Ok((c1, p1))
        },
    }
}

/// The branches after the first of an alternation.
pub open spec fn p_alternation_rest(s: Seq<char>, p: int, o: u32) -> Result<(Seq<SpecEvent>, int), ParseError>
    decreases s.len() - p, 7nat,
{
    if cur(s, p) == Some('|') {
        match p_conjunction(s, p + 1, o) {
            Err(e) => Err(e),
            Ok((c1, p1)) => if p < p1 <= s.len() {
                match p_alternation_rest(s, p1, o) {
                    Err(e) => Err(e),
                    Ok((c2, p2)) => Ok((c1 + c2, p2)),
                }
            } else {
                Ok((c1, p1))
            },
        }
    } else {
        Ok((Seq::empty(), p))
    }
}

/// Conjunction (RE# extension): concatenation ('&' concatenation)*
pub open spec fn p_conjunction(s: Seq<char>, p: int, o: u32) -> Result<(Seq<SpecEvent>, int), ParseError>
    decreases s.len() - p, 6nat,
{
    match p_concatenation(s, p, o) {
        Err(e) => Err(e),
        Ok((c1, p1)) => if p <= p1 <= s.len() {
            match p_conjunction_rest(s, p1, o) {
                Err(e) => Err(e),
                Ok((c2, p2)) => Ok((node_ev(SyntaxKind::Conjunction, c1 + c2), p2)),
            }
        } else {
            Ok((c1, p1))
        },
    }
}

/// The operands after the first of a conjunction.
pub open spec fn p_conjunction_rest(s: Seq<char>, p: int, o: u32) -> Result<(Seq<SpecEvent>, int), ParseError>
    decreases s.len() - p, 5nat,
{
    if cur(s, p) == Some('&') {
        match p_concatenation(s, p + 1, o) {
            Err(e) => Err(e),
            Ok((c1, p1)) => if p < p1 <= s.len() {
                match p_conjunction_rest(s, p1, o) {
                    Err(e) => Err(e),
                    Ok((c2, p2)) => Ok((c1 + c2, p2)),
                }
            } else {
                Ok((c1, p1))
            },
        }
    } else {
        Ok((Seq::empty(), p))
    }
}

/// Whether `p` ends a concatenation: the end of the input, `|`, `&` or `)`.
pub open spec fn at_concat_end(s: Seq<char>, p: int) -> bool {
    match cur(s, p) {
        None => true,
        Some(c) => c == '|' || c == '&' || c == ')',
    }
}

/// Concatenation: term*
pub open spec fn p_concatenation(s: Seq<char>, p: int, o: u32) -> Result<(Seq<SpecEvent>, int), ParseError>
    decreases s.len() - p, 4nat,
{
    match p_concat_items(s, p, o) {
        Err(e) => Err(e),
        Ok((c, p1)) => Ok((node_ev(SyntaxKind::Concatenate, c), p1)),
    }
}

/// The terms of a concatenation from `p`.
pub open spec fn p_concat_items(s: Seq<char>, p: int, o: u32) -> Result<(Seq<SpecEvent>, int), ParseError>
    decreases s.len() - p, 3nat,
{
    if at_concat_end(s, p) {
        Ok((Seq::empty(), p))
    } else {
        match p_term(s, p, o) {
            Err(e) => Err(e),
            Ok((t, p1)) => if p < p1 <= s.len() {
                match p_concat_items(s, p1, o) {
                    Err(e) => Err(e),
                    Ok((c, p2)) => Ok((t + c, p2)),
                }
            } else {
                Ok((t, p1))
            },
        }
    }
}

/// A term: an atom, or `~` and a negated atom, with an optional quantifier.
pub open spec fn p_term(s: Seq<char>, p: int, o: u32) -> Result<(Seq<SpecEvent>, int), ParseError>
    decreases s.len() - p, 2nat,
{
    if cur(s, p) == Some('~') {
        match p_negated_atom(s, p + 1, o) {
            Err(e) => Err(e),
            Ok((a, p1)) => match quant_error(s, p1) {
                Some(e) => Err(e),
                None => {
                    let (w, p2) = wrap_quantifier(s, p1, a);
                    Ok((node_ev(SyntaxKind::Negation, seq![tok(SyntaxKind::Tilde, seq!['~'])] + w), p2))
                },
            },
        }
    } else {
        match p_atom(s, p, o, false) {
            Err(e) => Err(e),
            Ok((a, p1)) => match quant_error(s, p1) {
                Some(e) => Err(e),
                None => Ok(wrap_quantifier(s, p1, a)),
            },
        }
    }
}

/// The atom after a `~`.
pub open spec fn p_negated_atom(s: Seq<char>, p: int, o: u32) -> Result<(Seq<SpecEvent>, int), ParseError>
    decreases s.len() - p, 3nat,
{
    match cur(s, p) {
        None => Err(ParseError::UnexpectedEof { pos: bpos(s, p) }),
        Some(ch) => if ch == '(' {
            p_group(s, p, o)
        } else if ch == '[' {
            p_char_class(s, p, o)
        } else if ch == '\\' {
            p_escape(s, p, o)
        } else if ch == '.' {
            Ok((node_ev(SyntaxKind::Notone, Seq::empty()), p + 1))
        } else if ch == '_' {
            Ok((node_ev(SyntaxKind::ClassSet, Seq::empty()), p + 1))
        } else if ch == '~' {
            p_term(s, p, o)
        } else if !is_meta(ch) {
            Ok(p_literal(s, p, true))
        } else {
            Err(ParseError::UnexpectedChar { ch, pos: bpos(s, p) })
        },
    }
}

/// An atom: the basic unit of matching.
pub open spec fn p_atom(s: Seq<char>, p: int, o: u32, negated: bool) -> Result<(Seq<SpecEvent>, int), ParseError>
    decreases s.len() - p, 1nat,
{
    match cur(s, p) {
        None => Ok((Seq::empty(), p)),
        Some(ch) => if ch == '(' {
            p_group(s, p, o)
        } else if ch == '[' {
            p_char_class(s, p, o)
        } else if ch == '\\' {
            p_escape(s, p, o)
        } else if ch == '.' {
            Ok((node_ev(SyntaxKind::Notone, Seq::empty()), p + 1))
        } else if ch == '_' {
            Ok((node_ev(SyntaxKind::ClassSet, Seq::empty()), p + 1))
        } else if ch == '^' {
            Ok(
                (node_ev(
                    if has_option(o, multiline_bits()) {
                        SyntaxKind::Bol
                    } else {
                        SyntaxKind::Beginning
                    },
                    Seq::empty(),
                ), p + 1),
            )
        } else if ch == '$' {
            Ok(
                (node_ev(
                    if has_option(o, multiline_bits()) {
                        SyntaxKind::Eol
                    } else {
                        SyntaxKind::EndZ
                    },
                    Seq::empty(),
                ), p + 1),
            )
        } else if !is_meta(ch) {
            Ok(p_literal(s, p, negated))
        } else {
            Err(ParseError::UnexpectedChar { ch, pos: bpos(s, p) })
        },
    }
}

/// The rest of a group once its inner alternation has been read: the closing
/// parenthesis must follow. The group is a node of kind `kind` that starts
/// with the events `prefix`; `start` is where its `(` is.
pub open spec fn close_group(
    s: Seq<char>,
    start: int,
    kind: SyntaxKind,
    prefix: Seq<SpecEvent>,
    inner: Result<(Seq<SpecEvent>, int), ParseError>,
) -> Result<(Seq<SpecEvent>, int), ParseError> {
    match inner {
        Err(e) => Err(e),
        Ok((c, p1)) => if cur(s, p1) == Some(')') {
            Ok((node_ev(kind, prefix + c + seq![tok(SyntaxKind::RParen, seq![')'])]), p1 + 1))
        } else {
            Err(ParseError::UnclosedGroup { pos: bpos(s, start) })
        },
    }
}

/// A group at `p` (where its `(` is).
pub open spec fn p_group(s: Seq<char>, p: int, o: u32) -> Result<(Seq<SpecEvent>, int), ParseError>
    decreases s.len() - p, 0nat,
{
    if p < 0 || p >= s.len() {
        Ok((Seq::empty(), p))
    } else if cur(s, p + 1) == Some('?') {
        p_group_modifier(s, p + 2, o, p)
    } else {
        close_group(
            s,
            p,
            SyntaxKind::Capture,
            seq![tok(SyntaxKind::LParen, seq!['('])],
            p_alternation(s, p + 1, o),
        )
    }
}

/// The rest of a group after `(?`, from `q`; `start` is where its `(` is.
pub open spec fn p_group_modifier(s: Seq<char>, q: int, o: u32, start: int) -> Result<
    (Seq<SpecEvent>, int),
    ParseError,
>
    decreases s.len() - q, 0nat,
{
    if q < 1 || q > s.len() {
        Ok((Seq::empty(), q))
    } else {
        match cur(s, q) {
            Some(c) => if c == ':' {
                close_group(
                    s,
                    start,
                    SyntaxKind::Group,
                    seq![tok(SyntaxKind::Char, seq!['(', '?', ':'])],
                    p_alternation(s, q + 1, o),
                )
            } else if c == '=' {
                close_group(
                    s,
                    start,
                    SyntaxKind::PositiveLookahead,
                    seq![tok(SyntaxKind::Char, seq!['(', '?', '='])],
                    p_alternation(s, q + 1, o),
                )
            } else if c == '!' {
                close_group(
                    s,
                    start,
                    SyntaxKind::NegativeLookahead,
                    seq![tok(SyntaxKind::Char, seq!['(', '?', '!'])],
                    p_alternation(s, q + 1, o),
                )
            } else if c == '<' {
                if cur(s, q + 1) == Some('=') {
                    close_group(
                        s,
                        start,
                        SyntaxKind::PositiveLookbehind,
                        seq![tok(SyntaxKind::Char, seq!['(', '?', '<', '='])],
                        p_alternation(s, q + 2, o | right_to_left_bits()),
                    )
                } else if cur(s, q + 1) == Some('!') {
                    close_group(
                        s,
                        start,
                        SyntaxKind::NegativeLookbehind,
                        seq![tok(SyntaxKind::Char, seq!['(', '?', '<', '!'])],
                        p_alternation(s, q + 2, o | right_to_left_bits()),
                    )
                } else {
                    p_named_group(s, q + 1, o, start)
                }
            } else if c == '>' {
                close_group(
                    s,
                    start,
                    SyntaxKind::Atomic,
                    seq![tok(SyntaxKind::Char, seq!['(', '?', '>'])],
                    p_alternation(s, q + 1, o),
                )
            } else {
                Err(ParseError::UnknownGroupType { pos: bpos(s, start) })
            },
            None => Err(ParseError::UnknownGroupType { pos: bpos(s, start) }),
        }
    }
}

/// A named capture group `(?<name>...)`, from the first character of its
/// name at `name_start`; `start` is where its `(` is.
pub open spec fn p_named_group(s: Seq<char>, name_start: int, o: u32, start: int) -> Result<
    (Seq<SpecEvent>, int),
    ParseError,
>
    decreases s.len() - name_start, 0nat,
{
    let e = name_end(s, name_start);
    if e <= name_start || cur(s, e) != Some('>') || e >= s.len() {
        Err(ParseError::InvalidGroupName { pos: bpos(s, name_start) })
    } else {
        close_group(
            s,
            start,
            SyntaxKind::Capture,
            seq![tok(SyntaxKind::Char, seq!['(', '?', '<'])] + node_ev(
                SyntaxKind::GroupName,
                seq![tok(SyntaxKind::Char, s.subrange(name_start, e))],
            ) + seq![tok(SyntaxKind::RAngle, seq!['>'])],
            p_alternation(s, e + 1, o),
        )
    }
}

/// The events of the syntax tree of the whole pattern `s` under options `o`:
/// a `Root` around a `Capture` around the alternation read from the start.
pub open spec fn parse_spec(s: Seq<char>, o: u32) -> Result<Seq<SpecEvent>, ParseError> {
    match p_alternation(s, 0, o) {
        Err(e) => Err(e),
        Ok((c, _)) => Ok(node_ev(SyntaxKind::Root, node_ev(SyntaxKind::Capture, c))),
    }
}

// ---------------------------------------------------------------------------
// Facts about positions and byte offsets
// ---------------------------------------------------------------------------

/// The encoding of a concatenation is the concatenation of the encodings.
pub proof fn lemma_encode_utf8_append(a: Seq<char>, b: Seq<char>)
    ensures
        encode_utf8(a + b) == encode_utf8(a) + encode_utf8(b),
    decreases a.len(),
{
    if a.len() == 0 {
        assert(a + b =~= b);
        assert(encode_utf8(a) + encode_utf8(b) =~= encode_utf8(b));
    } else {
        assert((a + b).drop_first() =~= a.drop_first() + b);
        lemma_encode_utf8_append(a.drop_first(), b);
        assert(encode_utf8(a + b) =~= encode_utf8(a) + encode_utf8(b));
    }
}

/// One more character adds the length of its encoding to the byte offset.
pub proof fn lemma_byte_offset_step(s: Seq<char>, p: int)
    requires
        0 <= p < s.len(),
    ensures
        byte_offset(s, p + 1) == byte_offset(s, p) + encode_scalar(s[p] as u32).len(),
{
    assert(s.take(p + 1) =~= s.take(p) + seq![s[p]]);
    lemma_encode_utf8_append(s.take(p), seq![s[p]]);
    assert(seq![s[p]].drop_first() =~= Seq::<char>::empty());
    assert(encode_utf8(Seq::<char>::empty()) =~= Seq::<u8>::empty());
    assert(encode_utf8(seq![s[p]]) =~= encode_scalar(s[p] as u32));
}

/// Byte offsets grow with the position.
pub proof fn lemma_byte_offset_mono(s: Seq<char>, p: int, q: int)
    requires
        0 <= p <= q <= s.len(),
    ensures
        byte_offset(s, p) <= byte_offset(s, q),
{
    assert(s.take(q) =~= s.take(p) + s.subrange(p, q));
    lemma_encode_utf8_append(s.take(p), s.subrange(p, q));
}

/// Results of parts of the grammar, with `acc` in front of their events.
pub open spec fn prepend(acc: Seq<SpecEvent>, r: Result<(Seq<SpecEvent>, int), ParseError>) -> Result<
    (Seq<SpecEvent>, int),
    ParseError,
> {
    match r {
        Err(e) => Err(e),
        Ok((e1, p1)) => Ok((acc + e1, p1)),
    }
}

/// Putting `a` and then `b` in front is putting `a + b` in front.
pub proof fn lemma_prepend_assoc(a: Seq<SpecEvent>, b: Seq<SpecEvent>, r: Result<(Seq<SpecEvent>, int), ParseError>)
    ensures
        prepend(a, prepend(b, r)) == prepend(a + b, r),
{
    match r {
        Err(_) => {},
        Ok((e, p)) => {
            assert(a + (b + e) =~= (a + b) + e);
        },
    }
}

/// Putting nothing in front changes nothing.
pub proof fn lemma_prepend_empty(r: Result<(Seq<SpecEvent>, int), ParseError>)
    ensures
        prepend(Seq::empty(), r) == r,
{
    match r {
        Err(_) => {},
        Ok((e, p)) => {
            assert(Seq::<SpecEvent>::empty() + e =~= e);
        },
    }
}

// ---------------------------------------------------------------------------
// The parser
// ---------------------------------------------------------------------------

/// Parse a regex pattern into a green tree.
///
/// * `input` - The regex pattern to parse
/// * `options` - Parsing options (e.g., case sensitivity, multiline mode)
///
/// Returns a `GreenNode` representing the concrete syntax tree, or a `ParseError`.
pub fn parse(input: &str, options: RegexOptions) -> (r: Result<GreenNode, ParseError>)
    requires
        byte_offset(input@, input@.len() as int) <= usize::MAX,
    ensures
        match parse_spec(input@, options.bits) {
            Ok(ev) => r matches Ok(g) && g@ == ev,
            Err(e) => r == Err::<GreenNode, ParseError>(e),
        },
{
    let chars = collect_chars(input);
    proof {
        assert(input@.take(0) =~= Seq::<char>::empty());
    }
    Parser::new(chars, options).parse_root()
}

/// The characters of `input`.
fn collect_chars(input: &str) -> (r: Vec<char>)
    ensures
        r@ == input@,
{
    broadcast use vstd::string::group_string_axioms;

    let mut v: Vec<char> = Vec::new();
    for c in it: input.chars()
        invariant
            v@ == it.seq().take(it.index() as int),
            it.seq() == input@,
    {
        v.push(c);
        assert(v@ =~= it.seq().take(it.index() + 1));
    }
    v
}

/// Internal parser state.
struct Parser {
    /// The characters of the pattern.
    chars: Vec<char>,
    /// Current position: an index into `chars`.
    pos: usize,
    /// Byte offset of the current position in the pattern.
    bpos: usize,
    /// Current parsing options.
    options: RegexOptions,
    /// Events of the tree built so far.
    events: Vec<CstEvent>,
}

/// How a part of the parser leaves its state: where the grammar reads `spec`
/// from the state `old`, it ends at the position the grammar gives with the
/// events the grammar gives added, or with the grammar's error.
spec fn step(old: Parser, new: Parser, r: Result<(), ParseError>, spec: Result<(Seq<SpecEvent>, int), ParseError>) -> bool {
    &&& new.inv()
    &&& new.chars@ == old.chars@
    &&& new.pos >= old.pos
    &&& match spec {
        Ok((ev, p1)) => {
            &&& r is Ok
            &&& new.pos == p1
            &&& events_view(new.events@) == events_view(old.events@) + ev
            &&& new.options == old.options
        },
        Err(e) => r == Err::<(), ParseError>(e),
    }
}

impl Parser {
    /// The parser's invariant: the position is within the pattern and the byte
    /// offset is that of the position.
    spec fn inv(&self) -> bool {
        &&& self.pos <= self.chars.len()
        &&& self.bpos == byte_offset(self.chars@, self.pos as int)
        &&& byte_offset(self.chars@, self.chars.len() as int) <= usize::MAX
    }

    /// Create a new parser.
    fn new(chars: Vec<char>, options: RegexOptions) -> (r: Self)
        requires
            byte_offset(chars@, chars.len() as int) <= usize::MAX,
        ensures
            r.inv(),
            r.chars@ == chars@,
            r.pos == 0,
            r.options == options,
            r.events@.len() == 0,
    {
        proof {
            assert(chars@.take(0) =~= Seq::<char>::empty());
        }
        Self { chars, pos: 0, bpos: 0, options, events: Vec::new() }
    }

    /// Parse the entire pattern as a root node. Consumes the parser.
    fn parse_root(self) -> (r: Result<GreenNode, ParseError>)
        requires
            self.inv(),
            self.pos == 0,
            self.events@.len() == 0,
        ensures
            match parse_spec(self.chars@, self.options.bits) {
                Ok(ev) => r matches Ok(g) && g@ == ev,
                Err(e) => r == Err::<GreenNode, ParseError>(e),
            },
    {
        let ghost s = self.chars@;
        let mut this = self;
        this.parse_root_events()
    }

    fn parse_root_events(&mut self) -> (r: Result<GreenNode, ParseError>)
        requires
            old(self).inv(),
            old(self).pos == 0,
            old(self).events@.len() == 0,
        ensures
            match parse_spec(old(self).chars@, old(self).options.bits) {
                Ok(ev) => r matches Ok(g) && g@ == ev,
                Err(e) => r == Err::<GreenNode, ParseError>(e),
            },
    {
        let ghost s = self.chars@;
        let ghost o = self.options.bits;
        assert(events_view(self.events@) =~= Seq::<SpecEvent>::empty());
        self.push_event(CstEvent::Start(SyntaxKind::Root));
        // The root contains a single implicit capture group
        self.push_event(CstEvent::Start(SyntaxKind::Capture));
        match self.parse_alternation() {
            Err(e) => {
                return Err(e);
            },
            Ok(()) => {},
        }
        self.push_event(CstEvent::Finish); // Capture
        self.push_event(CstEvent::Finish); // Root
        let mut events: Vec<CstEvent> = Vec::new();
        core::mem::swap(&mut events, &mut self.events);
        let r = GreenNode::from_events(events);
        proof {
            let c = p_alternation(s, 0, o)->Ok_0.0;
            assert(r@ =~= node_ev(SyntaxKind::Root, node_ev(SyntaxKind::Capture, c)));
        }
        Ok(r)
    }

    /// Get the current character.
    fn current_char(&self) -> (r: Option<char>)
        ensures
            r == cur(self.chars@, self.pos as int),
    {
        if self.pos < self.chars.len() {
            Some(self.chars[self.pos])
        } else {
            None
        }
    }

    /// Peek at the next character (after current).
    fn peek_char(&self) -> (r: Option<char>)
        requires
            self.pos <= self.chars.len(),
        ensures
            r == cur(self.chars@, self.pos + 1),
    {
        if self.pos < self.chars.len() && self.pos + 1 < self.chars.len() {
            Some(self.chars[self.pos + 1])
        } else {
            None
        }
    }

    /// Advance by one character.
    fn bump(&mut self)
        requires
            old(self).inv(),
        ensures
            final(self).inv(),
            final(self).chars == old(self).chars,
            final(self).events == old(self).events,
            final(self).options == old(self).options,
            final(self).pos == if old(self).pos < old(self).chars.len() {
                old(self).pos + 1
            } else {
                old(self).pos as int
            },
    {
        if self.pos < self.chars.len() {
            let c = self.chars[self.pos];
            proof {
                lemma_byte_offset_step(self.chars@, self.pos as int);
                lemma_byte_offset_mono(self.chars@, self.pos + 1, self.chars.len() as int);
            }
            self.bpos = self.bpos + utf8_len(c);
            self.pos = self.pos + 1;
        }
    }

    /// Check if at end of input.
    fn at_end(&self) -> (r: bool)
        ensures
            r == (self.pos >= self.chars.len()),
    {
        self.pos >= self.chars.len()
    }

    /// Check if we're at a position that ends an alternation/conjunction.
    fn at_alternation_end(&self) -> (r: bool)
        ensures
            r == (cur(self.chars@, self.pos as int) matches Some(c) && (c == '|' || c == '&' || c
                == ')')),
    {
        match self.current_char() {
            Some(c) => c == '|' || c == '&' || c == ')',
            None => false,
        }
    }

    /// Check if current position has a quantifier.
    fn at_quantifier(&self) -> (r: bool)
        ensures
            r == (p_quantifier(self.chars@, self.pos as int) is Some),
    {
        match self.current_char() {
            Some(c) => c == '*' || c == '+' || c == '?' || c == '{',
            None => false,
        }
    }

    /// The text of the characters from `from` to `to`.
    fn text(&self, from: usize, to: usize) -> (r: String)
        requires
            from <= to <= self.chars.len(),
        ensures
            r@ == self.chars@.subrange(from as int, to as int),
    {
        let mut t = String::new();
        let mut i: usize = from;
        while i < to
            invariant
                from <= i <= to <= self.chars.len(),
                t@ == self.chars@.subrange(from as int, i as int),
            decreases to - i,
        {
            push_char(&mut t, self.chars[i]);
            i = i + 1;
            assert(t@ =~= self.chars@.subrange(from as int, i as int));
        }
        t
    }

    /// Adds a token of kind `kind` with the text of the characters from `from`
    /// to `to`.
    fn token_text(&mut self, kind: SyntaxKind, from: usize, to: usize)
        requires
            from <= to <= old(self).chars.len(),
        ensures
            final(self).chars == old(self).chars,
            final(self).pos == old(self).pos,
            final(self).bpos == old(self).bpos,
            final(self).options == old(self).options,
            events_view(final(self).events@) == events_view(old(self).events@).push(
                tok(kind, old(self).chars@.subrange(from as int, to as int)),
            ),
    {
        let t = self.text(from, to);
        self.events.push(CstEvent::Token(kind, t));
        assert(events_view(self.events@) =~= events_view(old(self).events@).push(
            tok(kind, old(self).chars@.subrange(from as int, to as int)),
        ));
    }

    /// Adds a token of kind `kind` with text `t`.
    fn token_chars(&mut self, kind: SyntaxKind, t: &Vec<char>)
        ensures
            final(self).chars == old(self).chars,
            final(self).pos == old(self).pos,
            final(self).bpos == old(self).bpos,
            final(self).options == old(self).options,
            events_view(final(self).events@) == events_view(old(self).events@).push(tok(kind, t@)),
    {
        let mut s = String::new();
        let mut i: usize = 0;
        while i < t.len()
            invariant
                i <= t.len(),
                s@ == t@.take(i as int),
            decreases t.len() - i,
        {
            push_char(&mut s, t[i]);
            i = i + 1;
            assert(s@ =~= t@.take(i as int));
        }
        assert(t@.take(t.len() as int) =~= t@);
        self.events.push(CstEvent::Token(kind, s));
        assert(events_view(self.events@) =~= events_view(old(self).events@).push(tok(kind, t@)));
    }

    /// Adds an event.
    fn push_event(&mut self, e: CstEvent)
        ensures
            final(self).chars == old(self).chars,
            final(self).pos == old(self).pos,
            final(self).bpos == old(self).bpos,
            final(self).options == old(self).options,
            events_view(final(self).events@) == events_view(old(self).events@).push(e@),
    {
        self.events.push(e);
        assert(events_view(self.events@) =~= events_view(old(self).events@).push(e@));
    }
}

impl Parser {
    /// Parse alternation: conjunction ('|' conjunction)*
    fn parse_alternation(&mut self) -> (r: Result<(), ParseError>)
        requires
            old(self).inv(),
        ensures
            step(*old(self), *final(self), r, p_alternation(old(self).chars@, old(self).pos as int, old(self).options.bits)),
        decreases old(self).chars@.len() - old(self).pos, 8nat,
    {
        let ghost s = self.chars@;
        let ghost o = self.options.bits;
        let ghost p0 = self.pos as int;
        let ghost ev0 = events_view(self.events@);
        self.push_event(CstEvent::Start(SyntaxKind::Alternate));
        match self.parse_conjunction() {
            Err(e) => {
                return Err(e);
            },
            Ok(()) => {},
        }
        let ghost p1 = self.pos as int;
        let ghost c1 = p_conjunction(s, p0, o)->Ok_0.0;
        let ghost mut acc: Seq<SpecEvent> = Seq::empty();
        proof {
            lemma_prepend_empty(p_alternation_rest(s, p1, o));
        }
        while self.current_char() == Some('|')
            invariant
                self.inv(),
                self.chars@ == s,
                self.options.bits == o,
                self.options == old(self).options,
                s == old(self).chars@,
                p0 == old(self).pos,
                p0 <= p1 <= self.pos <= s.len(),
                p_conjunction(s, p0, o) == Ok::<(Seq<SpecEvent>, int), ParseError>((c1, p1)),
                events_view(self.events@) == ev0 + seq![SpecEvent::Start(SyntaxKind::Alternate)] + c1 + acc,
                prepend(acc, p_alternation_rest(s, self.pos as int, o)) == p_alternation_rest(s, p1, o),
            decreases s.len() - self.pos,
        {
            let ghost q = self.pos as int;
            self.bump(); // consume '|'
            match self.parse_conjunction() {
                Err(e) => {
                    return Err(e);
                },
                Ok(()) => {},
            }
            proof {
                let c = p_conjunction(s, q + 1, o)->Ok_0.0;
                lemma_prepend_assoc(acc, c, p_alternation_rest(s, self.pos as int, o));
                acc = acc + c;
                assert(events_view(self.events@) =~= ev0 + seq![SpecEvent::Start(SyntaxKind::Alternate)] + c1 + acc);
            }
        }
        self.push_event(CstEvent::Finish);
        proof {
            assert(p_alternation_rest(s, self.pos as int, o) == Ok::<(Seq<SpecEvent>, int), ParseError>((Seq::empty(), self.pos as int)));
            assert(events_view(self.events@) =~= ev0 + node_ev(SyntaxKind::Alternate, c1 + acc));
        }
        Ok(())
    }

    /// Parse conjunction (RE# extension): concatenation ('&' concatenation)*
    fn parse_conjunction(&mut self) -> (r: Result<(), ParseError>)
        requires
            old(self).inv(),
        ensures
            step(*old(self), *final(self), r, p_conjunction(old(self).chars@, old(self).pos as int, old(self).options.bits)),
        decreases old(self).chars@.len() - old(self).pos, 6nat,
    {
        let ghost s = self.chars@;
        let ghost o = self.options.bits;
        let ghost p0 = self.pos as int;
        let ghost ev0 = events_view(self.events@);
        self.push_event(CstEvent::Start(SyntaxKind::Conjunction));
        match self.parse_concatenation() {
            Err(e) => {
                return Err(e);
            },
            Ok(()) => {},
        }
        let ghost p1 = self.pos as int;
        let ghost c1 = p_concatenation(s, p0, o)->Ok_0.0;
        let ghost mut acc: Seq<SpecEvent> = Seq::empty();
        proof {
            lemma_prepend_empty(p_conjunction_rest(s, p1, o));
        }
        while self.current_char() == Some('&')
            invariant
                self.inv(),
                self.chars@ == s,
                self.options.bits == o,
                self.options == old(self).options,
                s == old(self).chars@,
                p0 == old(self).pos,
                p0 <= p1 <= self.pos <= s.len(),
                p_concatenation(s, p0, o) == Ok::<(Seq<SpecEvent>, int), ParseError>((c1, p1)),
                events_view(self.events@) == ev0 + seq![SpecEvent::Start(SyntaxKind::Conjunction)] + c1 + acc,
                prepend(acc, p_conjunction_rest(s, self.pos as int, o)) == p_conjunction_rest(s, p1, o),
            decreases s.len() - self.pos,
        {
            let ghost q = self.pos as int;
            self.bump(); // consume '&'
            match self.parse_concatenation() {
                Err(e) => {
                    return Err(e);
                },
                Ok(()) => {},
            }
            proof {
                let c = p_concatenation(s, q + 1, o)->Ok_0.0;
                lemma_prepend_assoc(acc, c, p_conjunction_rest(s, self.pos as int, o));
                acc = acc + c;
                assert(events_view(self.events@) =~= ev0 + seq![SpecEvent::Start(SyntaxKind::Conjunction)] + c1 + acc);
            }
        }
        self.push_event(CstEvent::Finish);
        proof {
            assert(p_conjunction_rest(s, self.pos as int, o) == Ok::<(Seq<SpecEvent>, int), ParseError>((Seq::empty(), self.pos as int)));
            assert(events_view(self.events@) =~= ev0 + node_ev(SyntaxKind::Conjunction, c1 + acc));
        }
        Ok(())
    }

    /// Parse concatenation: term*
    fn parse_concatenation(&mut self) -> (r: Result<(), ParseError>)
        requires
            old(self).inv(),
        ensures
            step(*old(self), *final(self), r, p_concatenation(old(self).chars@, old(self).pos as int, old(self).options.bits)),
        decreases old(self).chars@.len() - old(self).pos, 4nat,
    {
        let ghost s = self.chars@;
        let ghost o = self.options.bits;
        let ghost p0 = self.pos as int;
        let ghost ev0 = events_view(self.events@);
        self.push_event(CstEvent::Start(SyntaxKind::Concatenate));
        let ghost mut acc: Seq<SpecEvent> = Seq::empty();
        proof {
            lemma_prepend_empty(p_concat_items(s, p0, o));
        }
        while !self.at_end() && !self.at_alternation_end()
            invariant
                self.inv(),
                self.chars@ == s,
                self.options.bits == o,
                self.options == old(self).options,
                s == old(self).chars@,
                p0 == old(self).pos,
                p0 <= self.pos <= s.len(),
                events_view(self.events@) == ev0 + seq![SpecEvent::Start(SyntaxKind::Concatenate)] + acc,
                prepend(acc, p_concat_items(s, self.pos as int, o)) == p_concat_items(s, p0, o),
            decreases s.len() - self.pos,
        {
            let ghost q = self.pos as int;
            match self.parse_term() {
                Err(e) => {
                    return Err(e);
                },
                Ok(()) => {},
            }
            proof {
                let t = p_term(s, q, o)->Ok_0.0;
                lemma_prepend_assoc(acc, t, p_concat_items(s, self.pos as int, o));
                acc = acc + t;
            }
        }
        self.push_event(CstEvent::Finish);
        proof {
            assert(events_view(self.events@) =~= ev0 + node_ev(SyntaxKind::Concatenate, acc));
        }
        Ok(())
    }

    /// A negation: `~`, the negated atom, and an optional quantifier on it.
    fn parse_negation(&mut self) -> (r: Result<(), ParseError>)
        requires
            old(self).inv(),
            cur(old(self).chars@, old(self).pos as int) == Some('~'),
        ensures
            step(*old(self), *final(self), r, p_term(old(self).chars@, old(self).pos as int, old(self).options.bits)),
            r is Ok ==> final(self).pos > old(self).pos,
        decreases old(self).chars@.len() - old(self).pos, 1nat,
    {
        let ghost s = self.chars@;
        let ghost o = self.options.bits;
        let ghost p0 = self.pos as int;
        let ghost ev0 = events_view(self.events@);
        self.bump();
        self.push_event(CstEvent::Start(SyntaxKind::Negation));
        let tilde: Vec<char> = vec!['~'];
        self.token_chars(SyntaxKind::Tilde, &tilde);
        // Create a checkpoint for potential quantifier
        let checkpoint = self.events.len();
        // Parse the negated atom (single term only)
        match self.parse_negated_atom() {
            Err(e) => {
                return Err(e);
            },
            Ok(()) => {},
        }
        assert(events_view(self.events@).len() == self.events@.len());
        // Parse optional quantifier
        match self.parse_quantifier_wrap(checkpoint) {
            Err(e) => {
                return Err(e);
            },
            Ok(()) => {},
        }
        self.push_event(CstEvent::Finish);
        proof {
            let a = p_negated_atom(s, p0 + 1, o)->Ok_0.0;
            let w = wrap_quantifier(s, p_negated_atom(s, p0 + 1, o)->Ok_0.1, a).0;
            let ev1 = ev0 + seq![SpecEvent::Start(SyntaxKind::Negation), tok(SyntaxKind::Tilde, seq!['~'])];
            assert(tilde@ =~= seq!['~']);
            assert((ev1 + a).take(checkpoint as int) =~= ev1);
            assert((ev1 + a).skip(checkpoint as int) =~= a);
            assert(events_view(self.events@) =~= ev0 + node_ev(SyntaxKind::Negation, seq![tok(SyntaxKind::Tilde, seq!['~'])] + w));
        }
        Ok(())
    }

    /// Parse a single term with optional quantifier.
    fn parse_term(&mut self) -> (r: Result<(), ParseError>)
        requires
            old(self).inv(),
            old(self).pos < old(self).chars.len(),
        ensures
            step(*old(self), *final(self), r, p_term(old(self).chars@, old(self).pos as int, old(self).options.bits)),
            r is Ok ==> final(self).pos > old(self).pos,
        decreases old(self).chars@.len() - old(self).pos, 2nat,
    {
        let ghost s = self.chars@;
        let ghost o = self.options.bits;
        let ghost p0 = self.pos as int;
        let ghost ev0 = events_view(self.events@);
        // Handle RE# negation prefix
        if self.current_char() == Some('~') {
            return self.parse_negation();
        }
        // Create a checkpoint before the atom so we can wrap it in a Loop node
        let checkpoint = self.events.len();
        // Parse the atom
        match self.parse_atom(false) {
            Err(e) => {
                return Err(e);
            },
            Ok(()) => {},
        }
        assert(events_view(self.events@).len() == self.events@.len());
        // Parse optional quantifier and wrap atom if needed
        match self.parse_quantifier_wrap(checkpoint) {
            Err(e) => {
                return Err(e);
            },
            Ok(()) => {},
        }
        proof {
            let a = p_atom(s, p0, o, false)->Ok_0.0;
            assert(events_view(self.events@) =~= ev0 + wrap_quantifier(s, p_atom(s, p0, o, false)->Ok_0.1, a).0) by {
                assert((ev0 + a).take(checkpoint as int) =~= ev0);
                assert((ev0 + a).skip(checkpoint as int) =~= a);
            }
        }
        Ok(())
    }

    /// Parse a negated atom (for ~ prefix).
    fn parse_negated_atom(&mut self) -> (r: Result<(), ParseError>)
        requires
            old(self).inv(),
        ensures
            step(*old(self), *final(self), r, p_negated_atom(old(self).chars@, old(self).pos as int, old(self).options.bits)),
            r is Ok ==> final(self).pos > old(self).pos,
        decreases old(self).chars@.len() - old(self).pos, 3nat,
    {
        match self.current_char() {
            Some('(') => self.parse_group(),
            Some('[') => self.parse_char_class(),
            Some('\\') => self.parse_escape(),
            Some('.') => {
                self.leaf_node(SyntaxKind::Notone);
                Ok(())
            },
            Some('_') => {
                self.leaf_node(SyntaxKind::ClassSet);
                Ok(())
            },
            Some('~') => {
                // Nested negation: parse recursively
                self.parse_term()
            },
            Some(ch) => {
                if !is_metachar(ch) {
                    // Single character only
                    self.parse_literal(true);
                    Ok(())
                } else {
                    Err(ParseError::UnexpectedChar { ch, pos: self.bpos })
                }
            },
            None => Err(ParseError::UnexpectedEof { pos: self.bpos }),
        }
    }

    /// A node of kind `kind` with nothing in it, for the current character.
    fn leaf_node(&mut self, kind: SyntaxKind)
        requires
            old(self).inv(),
            old(self).pos < old(self).chars.len(),
        ensures
            final(self).inv(),
            final(self).chars == old(self).chars,
            final(self).options == old(self).options,
            final(self).pos == old(self).pos + 1,
            events_view(final(self).events@) == events_view(old(self).events@) + node_ev(kind, Seq::empty()),
    {
        self.push_event(CstEvent::Start(kind));
        self.bump();
        self.push_event(CstEvent::Finish);
        assert(events_view(self.events@) =~= events_view(old(self).events@) + node_ev(kind, Seq::empty()));
    }

    /// Parse an atom (basic unit of matching).
    fn parse_atom(&mut self, negated: bool) -> (r: Result<(), ParseError>)
        requires
            old(self).inv(),
        ensures
            step(*old(self), *final(self), r, p_atom(old(self).chars@, old(self).pos as int, old(self).options.bits, negated)),
            r is Ok && old(self).pos < old(self).chars.len() ==> final(self).pos > old(self).pos,
        decreases old(self).chars@.len() - old(self).pos, 1nat,
    {
        match self.current_char() {
            Some('(') => self.parse_group(),
            Some('[') => self.parse_char_class(),
            Some('\\') => self.parse_escape(),
            Some('.') => {
                self.leaf_node(SyntaxKind::Notone);
                Ok(())
            },
            Some('_') => {
                // RE# universal wildcard (matches anything including newlines)
                self.leaf_node(SyntaxKind::ClassSet);
                Ok(())
            },
            Some('^') => {
                let kind = if self.options.contains(RegexOptions::MULTILINE()) {
                    SyntaxKind::Bol
                } else {
                    SyntaxKind::Beginning
                };
                self.leaf_node(kind);
                Ok(())
            },
            Some('$') => {
                let kind = if self.options.contains(RegexOptions::MULTILINE()) {
                    SyntaxKind::Eol
                } else {
                    SyntaxKind::EndZ
                };
                self.leaf_node(kind);
                Ok(())
            },
            Some(ch) => {
                if !is_metachar(ch) {
                    // When negated, only parse a single character
                    self.parse_literal(negated);
                    Ok(())
                } else {
                    Err(ParseError::UnexpectedChar { ch, pos: self.bpos })
                }
            },
            None => {
                // End of input in concatenation is fine
                assert(events_view(self.events@) =~= events_view(old(self).events@) + Seq::<SpecEvent>::empty());
                Ok(())
            },
        }
    }
}

impl Parser {
    /// Parse a literal character or sequence.
    ///
    /// When `single_char` is true (e.g., after negation), only parse one character.
    fn parse_literal(&mut self, single_char: bool)
        requires
            old(self).inv(),
        ensures
            final(self).inv(),
            final(self).chars == old(self).chars,
            final(self).options == old(self).options,
            final(self).pos == p_literal(old(self).chars@, old(self).pos as int, single_char).1,
            events_view(final(self).events@) == events_view(old(self).events@) + p_literal(
                old(self).chars@,
                old(self).pos as int,
                single_char,
            ).0,
            old(self).pos < old(self).chars.len() && (single_char || !is_meta(
                old(self).chars@[old(self).pos as int],
            )) ==> final(self).pos > old(self).pos,
    {
        let ghost s = self.chars@;
        let start = self.pos;
        if single_char {
            // Only consume a single character
            self.bump();
        } else {
            // Consume characters until we hit a metachar
            while self.pos < self.chars.len() && !is_metachar(self.chars[self.pos])
                invariant
                    self.inv(),
                    self.chars@ == s,
                    self.chars == old(self).chars,
                    self.events == old(self).events,
                    self.options == old(self).options,
                    start <= self.pos <= s.len(),
                    literal_end(s, start as int) == literal_end(s, self.pos as int),
                decreases s.len() - self.pos,
            {
                self.bump();
            }
        }
        let kind = if self.pos - start == 1 {
            SyntaxKind::One
        } else {
            SyntaxKind::Multi
        };
        let ghost ev0 = events_view(self.events@);
        self.push_event(CstEvent::Start(kind));
        self.token_text(SyntaxKind::Char, start, self.pos);
        self.push_event(CstEvent::Finish);
        proof {
            assert(events_view(self.events@) =~= ev0 + node_ev(
                kind,
                seq![tok(SyntaxKind::Char, s.subrange(start as int, self.pos as int))],
            ));
        }
    }

    /// Consumes at most `k` hexadecimal digits.
    fn scan_hex(&mut self, k: usize)
        requires
            old(self).inv(),
        ensures
            final(self).inv(),
            final(self).chars == old(self).chars,
            final(self).events == old(self).events,
            final(self).options == old(self).options,
            final(self).pos >= old(self).pos,
            final(self).pos == hex_end(old(self).chars@, old(self).pos as int, k as nat),
    {
        let ghost s = self.chars@;
        let ghost q = self.pos as int;
        let mut i: usize = 0;
        while i < k
            invariant
                self.inv(),
                self.chars@ == s,
                self.chars == old(self).chars,
                self.events == old(self).events,
                self.options == old(self).options,
                i <= k,
                q <= self.pos,
                hex_end(s, q, k as nat) == hex_end(s, self.pos as int, (k - i) as nat),
            decreases k - i,
        {
            match self.current_char() {
                Some(c) => {
                    if is_hex_digit(c) {
                        self.bump();
                    }
                },
                None => {},
            }
            i = i + 1;
        }
    }

    /// Consumes a run of decimal digits.
    fn scan_digits(&mut self)
        requires
            old(self).inv(),
        ensures
            final(self).inv(),
            final(self).chars == old(self).chars,
            final(self).events == old(self).events,
            final(self).options == old(self).options,
            final(self).pos >= old(self).pos,
            final(self).pos == digits_end(old(self).chars@, old(self).pos as int),
    {
        let ghost s = self.chars@;
        let ghost q = self.pos as int;
        while self.pos < self.chars.len() && '0' <= self.chars[self.pos] && self.chars[self.pos] <= '9'
            invariant
                self.inv(),
                self.chars@ == s,
                self.chars == old(self).chars,
                self.events == old(self).events,
                self.options == old(self).options,
                q <= self.pos,
                digits_end(s, q) == digits_end(s, self.pos as int),
            decreases s.len() - self.pos,
        {
            self.bump();
        }
    }

    /// Consumes characters up to and including the next `}`, or to the end.
    /// The end of the run of decimal digits from `from`, and their value
    /// capped at `u32::MAX`.
    fn digits_value(&self, from: usize) -> (r: (usize, u32))
        requires
            from <= self.chars.len(),
        ensures
            r.0 == digits_end(self.chars@, from as int),
            r.1 == dec_value(self.chars@, from as int, r.0 as int),
    {
        let ghost s = self.chars@;
        let mut i = from;
        let mut v: u32 = 0;
        while i < self.chars.len() && '0' <= self.chars[i] && self.chars[i] <= '9'
            invariant
                from <= i <= self.chars.len(),
                s == self.chars@,
                digits_end(s, from as int) == digits_end(s, i as int),
                v == dec_value(s, from as int, i as int),
                forall|k: int| from <= k < i ==> '0' <= #[trigger] s[k] <= '9',
            decreases self.chars.len() - i,
        {
            let d = (self.chars[i] as u32) - ('0' as u32);
            let w: u64 = (v as u64) * 10 + (d as u64);
            v = if w > u32::MAX as u64 {
                u32::MAX
            } else {
                w as u32
            };
            i = i + 1;
        }
        (i, v)
    }

    fn scan_brace(&mut self)
        requires
            old(self).inv(),
        ensures
            final(self).inv(),
            final(self).chars == old(self).chars,
            final(self).events == old(self).events,
            final(self).options == old(self).options,
            final(self).pos >= old(self).pos,
            final(self).pos == brace_end(old(self).chars@, old(self).pos as int),
    {
        let ghost s = self.chars@;
        let ghost q = self.pos as int;
        while self.pos < self.chars.len()
            invariant
                self.inv(),
                self.chars@ == s,
                self.chars == old(self).chars,
                self.events == old(self).events,
                self.options == old(self).options,
                q <= self.pos,
                q == old(self).pos,
                s == old(self).chars@,
                brace_end(s, q) == brace_end(s, self.pos as int),
            decreases s.len() - self.pos,
        {
            let c = self.chars[self.pos];
            let ghost before = self.pos as int;
            self.bump();
            if c == '}' {
                assert(brace_end(s, before) == before + 1);
                return;
            }
        }
    }

    /// Parse an escape sequence.
    fn parse_escape(&mut self) -> (r: Result<(), ParseError>)
        requires
            old(self).inv(),
            cur(old(self).chars@, old(self).pos as int) == Some('\\'),
        ensures
            step(*old(self), *final(self), r, p_escape(old(self).chars@, old(self).pos as int, old(self).options.bits)),
            r is Ok ==> final(self).pos > old(self).pos,
    {
        let ghost s = self.chars@;
        let start = self.pos;
        self.bump(); // consume '\'
        let ch = match self.current_char() {
            Some(c) => c,
            None => {
                return Err(ParseError::UnexpectedEof { pos: self.bpos });
            },
        };
        let ecma = self.options.contains(RegexOptions::ECMA_SCRIPT());
        let kind = if ch == 'd' || ch == 'D' || ch == 'w' || ch == 'W' || ch == 's' || ch == 'S' {
            // Character class escapes
            self.bump();
            SyntaxKind::ClassSet
        } else if ch == 'A' {
            // Anchors
            self.bump();
            SyntaxKind::Beginning
        } else if ch == 'z' {
            self.bump();
            SyntaxKind::End
        } else if ch == 'Z' {
            self.bump();
            SyntaxKind::EndZ
        } else if ch == 'G' {
            self.bump();
            SyntaxKind::Start
        } else if ch == 'b' {
            self.bump();
            if ecma {
                SyntaxKind::ECMABoundary
            } else {
                SyntaxKind::Boundary
            }
        } else if ch == 'B' {
            self.bump();
            if ecma {
                SyntaxKind::NonECMABoundary
            } else {
                SyntaxKind::NonBoundary
            }
        } else if '1' <= ch && ch <= '9' {
            // Backreferences: consume additional digits
            self.bump();
            self.scan_digits();
            SyntaxKind::Backreference
        } else if ch == 'x' {
            // Hex escapes
            self.bump();
            self.scan_hex(2);
            SyntaxKind::One
        } else if ch == 'u' {
            self.bump();
            self.scan_hex(4);
            SyntaxKind::One
        } else if ch == 'p' || ch == 'P' {
            // Unicode property
            self.bump();
            if self.current_char() == Some('{') {
                self.bump();
                self.scan_brace();
            }
            SyntaxKind::ClassSet
        } else {
            // Simple character escapes and literal escapes of any other character
            self.bump();
            SyntaxKind::One
        };
        let ghost ev0 = events_view(self.events@);
        self.push_event(CstEvent::Start(kind));
        self.token_text(SyntaxKind::EscapeSeq, start, self.pos);
        self.push_event(CstEvent::Finish);
        proof {
            assert(escape_body(s, start + 1, ch, self.options.bits) == (kind, self.pos as int));
            assert(events_view(self.events@) =~= ev0 + node_ev(
                kind,
                seq![tok(SyntaxKind::EscapeSeq, s.subrange(start as int, self.pos as int))],
            ));
        }
        Ok(())
    }

    /// Checks for the `)` that closes a group and adds it, or fails with the
    /// position `start_b` of the group.
    fn close_group(&mut self, start_b: usize) -> (r: Result<(), ParseError>)
        requires
            old(self).inv(),
        ensures
            final(self).inv(),
            final(self).chars == old(self).chars,
            final(self).options == old(self).options,
            final(self).pos >= old(self).pos,
            if cur(old(self).chars@, old(self).pos as int) == Some(')') {
                &&& r is Ok
                &&& final(self).pos == old(self).pos + 1
                &&& events_view(final(self).events@) == events_view(old(self).events@) + seq![
                    tok(SyntaxKind::RParen, seq![')']),
                    SpecEvent::Finish,
                ]
            } else {
                r == Err::<(), ParseError>(ParseError::UnclosedGroup { pos: start_b })
            },
    {
        if self.current_char() != Some(')') {
            return Err(ParseError::UnclosedGroup { pos: start_b });
        }
        self.bump();
        let rparen: Vec<char> = vec![')'];
        let ghost ev0 = events_view(self.events@);
        self.token_chars(SyntaxKind::RParen, &rparen);
        self.push_event(CstEvent::Finish);
        assert(rparen@ =~= seq![')']);
        assert(events_view(self.events@) =~= ev0 + seq![
            tok(SyntaxKind::RParen, seq![')']),
            SpecEvent::Finish,
        ]);
        Ok(())
    }

    /// Reads the alternation and the closing parenthesis of a group whose
    /// start, a node of kind `kind` and the events `prefix`, has been added to
    /// the events `ev0`.
    #[verifier::rlimit(100)]
    #[verifier::spinoff_prover]
    fn finish_group(
        &mut self,
        start: Ghost<int>,
        start_b: usize,
        kind: Ghost<SyntaxKind>,
        prefix: Ghost<Seq<SpecEvent>>,
        ev0: Ghost<Seq<SpecEvent>>,
    ) -> (r: Result<(), ParseError>)
        requires
            old(self).inv(),
            start_b == bpos(old(self).chars@, start@),
            events_view(old(self).events@) == ev0@ + seq![SpecEvent::Start(kind@)] + prefix@,
        ensures
            final(self).inv(),
            final(self).chars@ == old(self).chars@,
            final(self).pos >= old(self).pos,
            match close_group(
                old(self).chars@,
                start@,
                kind@,
                prefix@,
                p_alternation(old(self).chars@, old(self).pos as int, old(self).options.bits),
            ) {
                Ok((ev, p1)) => {
                    &&& r is Ok
                    &&& final(self).pos == p1
                    &&& events_view(final(self).events@) == ev0@ + ev
                    &&& final(self).options == old(self).options
                },
                Err(e) => r == Err::<(), ParseError>(e),
            },
        decreases old(self).chars@.len() - old(self).pos, 9nat,
    {
        let ghost s = self.chars@;
        match self.parse_alternation() {
            Err(e) => {
                return Err(e);
            },
            Ok(()) => {},
        }
        let r = self.close_group(start_b);
        proof {
            if r is Ok {
                let c = p_alternation(s, old(self).pos as int, old(self).options.bits)->Ok_0.0;
                assert(events_view(self.events@) =~= ev0@ + node_ev(
                    kind@,
                    prefix@ + c + seq![tok(SyntaxKind::RParen, seq![')'])],
                ));
            }
        }
        r
    }

    /// Starts a group node of kind `kind` with a token of kind `tk` and text
    /// `text`, then reads its alternation and closing parenthesis.
    fn group_body(&mut self, kind: SyntaxKind, tk: SyntaxKind, text: &Vec<char>, start: Ghost<int>, start_b: usize) -> (r: Result<(), ParseError>)
        requires
            old(self).inv(),
            start@ < old(self).pos,
            start_b == bpos(old(self).chars@, start@),
        ensures
            step(
                *old(self),
                *final(self),
                r,
                close_group(
                    old(self).chars@,
                    start@,
                    kind,
                    seq![tok(tk, text@)],
                    p_alternation(old(self).chars@, old(self).pos as int, old(self).options.bits),
                ),
            ),
        decreases old(self).chars@.len() - old(self).pos, 10nat,
    {
        let ghost ev0 = events_view(self.events@);
        self.push_event(CstEvent::Start(kind));
        self.token_chars(tk, text);
        proof {
            assert(events_view(self.events@) =~= ev0 + seq![SpecEvent::Start(kind)] + seq![tok(tk, text@)]);
        }
        let ghost prefix = seq![tok(tk, text@)];
        self.finish_group(start, start_b, Ghost(kind), Ghost(prefix), Ghost(ev0))
    }
}


impl Parser {
    /// Parse a group construct.
    fn parse_group(&mut self) -> (r: Result<(), ParseError>)
        requires
            old(self).inv(),
            cur(old(self).chars@, old(self).pos as int) == Some('('),
        ensures
            step(*old(self), *final(self), r, p_group(old(self).chars@, old(self).pos as int, old(self).options.bits)),
            r is Ok ==> final(self).pos > old(self).pos,
        decreases old(self).chars@.len() - old(self).pos, 0nat,
    {
        let ghost s = self.chars@;
        let start = self.pos;
        let start_b = self.bpos;
        self.bump(); // consume '('
        // Check for group modifier (?...)
        if self.current_char() == Some('?') {
            self.bump();
            self.parse_group_modifier(Ghost(start as int), start_b)
        } else {
            // Capturing group; the options are saved and restored around it
            let saved = self.options;
            let lparen: Vec<char> = vec!['('];
            assert(lparen@ =~= seq!['(']);
            let r = self.group_body(SyntaxKind::Capture, SyntaxKind::LParen, &lparen, Ghost(start as int), start_b);
            self.options = saved;
            r
        }
    }

    /// Parse group modifiers after (?
    #[verifier::rlimit(60)]
    fn parse_group_modifier(&mut self, start: Ghost<int>, start_b: usize) -> (r: Result<(), ParseError>)
        requires
            old(self).inv(),
            0 <= start@ < old(self).pos,
            2 <= old(self).pos,
            start_b == bpos(old(self).chars@, start@),
        ensures
            step(
                *old(self),
                *final(self),
                r,
                p_group_modifier(old(self).chars@, old(self).pos as int, old(self).options.bits, start@),
            ),
        decreases old(self).chars@.len() - old(self).pos, 0nat,
    {
        let ghost s = self.chars@;
        let ghost o = self.options.bits;
        match self.current_char() {
            Some(':') => {
                // Non-capturing group (?:...)
                self.bump();
                let t: Vec<char> = vec!['(', '?', ':'];
                assert(t@ =~= seq!['(', '?', ':']);
                self.group_body(SyntaxKind::Group, SyntaxKind::Char, &t, start, start_b)
            },
            Some('=') => {
                // Positive lookahead (?=...)
                self.bump();
                let t: Vec<char> = vec!['(', '?', '='];
                assert(t@ =~= seq!['(', '?', '=']);
                self.group_body(SyntaxKind::PositiveLookahead, SyntaxKind::Char, &t, start, start_b)
            },
            Some('!') => {
                // Negative lookahead (?!...)
                self.bump();
                let t: Vec<char> = vec!['(', '?', '!'];
                assert(t@ =~= seq!['(', '?', '!']);
                self.group_body(SyntaxKind::NegativeLookahead, SyntaxKind::Char, &t, start, start_b)
            },
            Some('<') => {
                self.bump();
                match self.current_char() {
                    Some('=') => {
                        // Positive lookbehind (?<=...)
                        self.bump();
                        let t: Vec<char> = vec!['(', '?', '<', '='];
                        assert(t@ =~= seq!['(', '?', '<', '=']);
                        let saved = self.options;
                        self.options.insert(RegexOptions::RIGHT_TO_LEFT());
                        let r = self.group_body(SyntaxKind::PositiveLookbehind, SyntaxKind::Char, &t, start, start_b);
                        self.options = saved;
                        r
                    },
                    Some('!') => {
                        // Negative lookbehind (?<!...)
                        self.bump();
                        let t: Vec<char> = vec!['(', '?', '<', '!'];
                        assert(t@ =~= seq!['(', '?', '<', '!']);
                        let saved = self.options;
                        self.options.insert(RegexOptions::RIGHT_TO_LEFT());
                        let r = self.group_body(SyntaxKind::NegativeLookbehind, SyntaxKind::Char, &t, start, start_b);
                        self.options = saved;
                        r
                    },
                    _ => self.parse_named_group(start, start_b),
                }
            },
            Some('>') => {
                // Atomic group (?>...)
                self.bump();
                let t: Vec<char> = vec!['(', '?', '>'];
                assert(t@ =~= seq!['(', '?', '>']);
                self.group_body(SyntaxKind::Atomic, SyntaxKind::Char, &t, start, start_b)
            },
            _ => Err(ParseError::UnknownGroupType { pos: start_b }),
        }
    }

    /// Named capture group (?<name>...), from the first character of the name.
    #[verifier::rlimit(60)]
    fn parse_named_group(&mut self, start: Ghost<int>, start_b: usize) -> (r: Result<(), ParseError>)
        requires
            old(self).inv(),
            0 <= start@ < old(self).pos,
            start_b == bpos(old(self).chars@, start@),
            2 <= old(self).pos,
            cur(old(self).chars@, old(self).pos - 1) == Some('<'),
            cur(old(self).chars@, old(self).pos as int) != Some('='),
            cur(old(self).chars@, old(self).pos as int) != Some('!'),
        ensures
            step(
                *old(self),
                *final(self),
                r,
                p_named_group(old(self).chars@, old(self).pos as int, old(self).options.bits, start@),
            ),
        decreases old(self).chars@.len() - old(self).pos, 0nat,
    {
        let ghost s = self.chars@;
        let ghost o = self.options.bits;
        let ghost ev0 = events_view(self.events@);
        self.push_event(CstEvent::Start(SyntaxKind::Capture));
        let t: Vec<char> = vec!['(', '?', '<'];
        assert(t@ =~= seq!['(', '?', '<']);
        self.token_chars(SyntaxKind::Char, &t);
        // Parse name
        let name_start = self.pos;
        let name_start_b = self.bpos;
        self.scan_name();
        if self.pos == name_start {
            return Err(ParseError::InvalidGroupName { pos: name_start_b });
        }
        self.push_event(CstEvent::Start(SyntaxKind::GroupName));
        self.token_text(SyntaxKind::Char, name_start, self.pos);
        self.push_event(CstEvent::Finish);
        if self.current_char() != Some('>') {
            return Err(ParseError::InvalidGroupName { pos: name_start_b });
        }
        self.bump();
        let ra: Vec<char> = vec!['>'];
        assert(ra@ =~= seq!['>']);
        self.token_chars(SyntaxKind::RAngle, &ra);
        let ghost e = self.pos - 1;
        let ghost prefix = seq![tok(SyntaxKind::Char, seq!['(', '?', '<'])] + node_ev(
            SyntaxKind::GroupName,
            seq![tok(SyntaxKind::Char, s.subrange(name_start as int, e))],
        ) + seq![tok(SyntaxKind::RAngle, seq!['>'])];
        proof {
            assert(events_view(self.events@) =~= ev0 + seq![SpecEvent::Start(SyntaxKind::Capture)] + prefix);
        }
        let r = self.finish_group(start, start_b, Ghost(SyntaxKind::Capture), Ghost(prefix), Ghost(ev0));
        r
    }

    /// Consumes the characters up to the next `>`, or to the end.
    fn scan_name(&mut self)
        requires
            old(self).inv(),
        ensures
            final(self).inv(),
            final(self).chars == old(self).chars,
            final(self).events == old(self).events,
            final(self).options == old(self).options,
            final(self).pos == name_end(old(self).chars@, old(self).pos as int),
            final(self).pos >= old(self).pos,
    {
        let ghost s = self.chars@;
        let ghost q = self.pos as int;
        while self.pos < self.chars.len() && self.chars[self.pos] != '>'
            invariant
                self.inv(),
                self.chars@ == s,
                self.chars == old(self).chars,
                self.events == old(self).events,
                self.options == old(self).options,
                q <= self.pos,
                name_end(s, q) == name_end(s, self.pos as int),
            decreases s.len() - self.pos,
        {
            self.bump();
        }
    }

    /// Whether the current character is an item of a character class: there
    /// is one and it is not the closing `]`.
    fn at_class_item(&self) -> (r: bool)
        ensures
            r == (cur(self.chars@, self.pos as int) matches Some(c) && c != ']'),
    {
        match self.current_char() {
            Some(c) => c != ']',
            None => false,
        }
    }

    /// A character of a class, or a range from it.
    fn parse_class_char(&mut self)
        requires
            old(self).inv(),
            old(self).pos < old(self).chars.len(),
        ensures
            final(self).inv(),
            final(self).chars == old(self).chars,
            final(self).options == old(self).options,
            final(self).pos == class_char(old(self).chars@, old(self).pos as int).1,
            events_view(final(self).events@) == events_view(old(self).events@) + class_char(
                old(self).chars@,
                old(self).pos as int,
            ).0,
    {
        let ghost s = self.chars@;
        let ghost ev0 = events_view(self.events@);
        // Check for range
        let range_start = self.pos;
        self.bump();
        if self.current_char() == Some('-') && self.peek_char() != Some(']') {
            self.bump(); // consume '-'
            match self.current_char() {
                Some(end_ch) => {
                    if end_ch != ']' {
                        self.bump();
                        // This is a range
                        self.push_event(CstEvent::Start(SyntaxKind::CharRange));
                        self.token_text(SyntaxKind::Char, range_start, self.pos);
                        self.push_event(CstEvent::Finish);
                        assert(events_view(self.events@) =~= ev0 + class_char(s, range_start as int).0);
                        return;
                    }
                },
                None => {},
            }
        }
        // Single character
        self.token_text(SyntaxKind::Char, range_start, self.pos);
        assert(events_view(self.events@) =~= ev0 + class_char(s, range_start as int).0);
    }

    /// Parse a character class [...].
    fn parse_char_class(&mut self) -> (r: Result<(), ParseError>)
        requires
            old(self).inv(),
            cur(old(self).chars@, old(self).pos as int) == Some('['),
        ensures
            step(*old(self), *final(self), r, p_char_class(old(self).chars@, old(self).pos as int, old(self).options.bits)),
            r is Ok ==> final(self).pos > old(self).pos,
    {
        let ghost s = self.chars@;
        let ghost o = self.options.bits;
        let start_b = self.bpos;
        self.bump(); // consume '['
        let negated = if self.current_char() == Some('^') {
            self.bump();
            true
        } else {
            false
        };
        let kind = if negated {
            SyntaxKind::CharClassNegated
        } else {
            SyntaxKind::CharClass
        };
        let ghost q0 = self.pos as int;
        let ghost ev0 = events_view(self.events@);
        let ghost p = old(self).pos as int;
        assert(p_char_class(s, p, o) == class_close(s, p, kind, p_class_items(s, q0, o)));
        self.push_event(CstEvent::Start(kind));
        let ghost mut acc: Seq<SpecEvent> = Seq::empty();
        proof {
            lemma_prepend_empty(p_class_items(s, q0, o));
        }
        // Parse character class contents
        while self.at_class_item()
            invariant
                self.inv(),
                self.chars@ == s,
                self.options == old(self).options,
                self.options.bits == o,
                q0 <= self.pos <= s.len(),
                s == old(self).chars@,
                p == old(self).pos,
                p < q0,
                p_char_class(s, p, o) == class_close(s, p, kind, p_class_items(s, q0, o)),
                events_view(self.events@) == ev0 + seq![SpecEvent::Start(kind)] + acc,
                prepend(acc, p_class_items(s, self.pos as int, o)) == p_class_items(s, q0, o),
            decreases s.len() - self.pos,
        {
            let ghost q = self.pos as int;
            let ghost evq = events_view(self.events@);
            if self.chars[self.pos] == '\\' {
                match self.parse_escape() {
                    Err(e) => {
                        proof {
                            assert(p_class_items(s, q, o) == Err::<(Seq<SpecEvent>, int), ParseError>(e));
                        }
                        return Err(e);
                    },
                    Ok(()) => {},
                }
                proof {
                    let e1 = p_escape(s, q, o)->Ok_0.0;
                    lemma_prepend_assoc(acc, e1, p_class_items(s, self.pos as int, o));
                    acc = acc + e1;
                }
            } else {
                self.parse_class_char();
                proof {
                    let item = class_char(s, q).0;
                    lemma_prepend_assoc(acc, item, p_class_items(s, self.pos as int, o));
                    acc = acc + item;
                }
            }
        }
        if self.current_char() != Some(']') {
            return Err(ParseError::UnclosedCharClass { pos: start_b });
        }
        self.bump();
        self.push_event(CstEvent::Finish);
        proof {
            assert(p_class_items(s, (self.pos - 1) as int, o) == Ok::<(Seq<SpecEvent>, int), ParseError>((Seq::empty(), (self.pos - 1) as int)));
            assert(events_view(self.events@) =~= ev0 + node_ev(kind, acc));
        }
        Ok(())
    }

    /// Parse a quantifier and wrap the preceding atom, whose events start at
    /// `checkpoint`.
    fn parse_quantifier_wrap(&mut self, checkpoint: usize) -> (r: Result<(), ParseError>)
        requires
            old(self).inv(),
            checkpoint <= old(self).events@.len(),
        ensures
            final(self).inv(),
            final(self).chars == old(self).chars,
            final(self).options == old(self).options,
            final(self).pos >= old(self).pos,
            r == match quant_error(old(self).chars@, old(self).pos as int) {
                Some(e) => Err::<(), ParseError>(e),
                None => Ok(()),
            },
            r is Ok ==> final(self).pos == wrap_quantifier(
                old(self).chars@,
                old(self).pos as int,
                events_view(old(self).events@).skip(checkpoint as int),
            ).1,
            r is Ok ==> events_view(final(self).events@) == events_view(old(self).events@).take(checkpoint as int)
                + wrap_quantifier(
                old(self).chars@,
                old(self).pos as int,
                events_view(old(self).events@).skip(checkpoint as int),
            ).0,
    {
        let ghost s = self.chars@;
        let ghost ev = events_view(self.events@);
        proof {
            reveal(quant_error);
        }
        let qs = self.pos;
        let c = match self.current_char() {
            Some(c) => c,
            None => {
                assert(ev =~= ev.take(checkpoint as int) + ev.skip(checkpoint as int));
                return Ok(());
            },
        };
        if c == '*' || c == '+' || c == '?' {
            self.bump();
            let lazy = self.current_char() == Some('?');
            if lazy {
                self.bump();
            }
            // Use Loop node to wrap the atom
            let kind = if lazy {
                SyntaxKind::Lazyloop
            } else {
                SyntaxKind::Loop
            };
            self.events.insert(checkpoint, CstEvent::Start(kind));
            proof {
                assert(events_view(self.events@) =~= ev.take(checkpoint as int) + seq![SpecEvent::Start(kind)] + ev.skip(checkpoint as int));
            }
            self.token_text(SyntaxKind::Quantifier, qs, self.pos);
            self.push_event(CstEvent::Finish);
            proof {
                assert(events_view(self.events@) =~= ev.take(checkpoint as int) + wrap_quantifier(s, qs as int, ev.skip(checkpoint as int)).0);
            }
        } else if c == '{' {
            // A `{min,max}` whose minimum exceeds its maximum is an error.
            let (d1, mn) = self.digits_value(self.pos + 1);
            if d1 > self.pos + 1 && d1 < self.chars.len() && self.chars[d1] == ',' {
                let (d2, mx) = self.digits_value(d1 + 1);
                if d2 > d1 + 1 && d2 < self.chars.len() && self.chars[d2] == '}' && mn > mx {
                    return Err(ParseError::QuantifierMinGreaterThanMax { min: mn, max: mx, pos: self.bpos });
                }
            }
            self.bump();
            // Parse {n} or {n,} or {n,m}
            self.scan_brace();
            let close = self.pos;
            let lazy = self.current_char() == Some('?');
            if lazy {
                self.bump();
            }
            let kind = if lazy {
                SyntaxKind::Lazyloop
            } else {
                SyntaxKind::Loop
            };
            self.events.insert(checkpoint, CstEvent::Start(kind));
            proof {
                assert(events_view(self.events@) =~= ev.take(checkpoint as int) + seq![SpecEvent::Start(kind)] + ev.skip(checkpoint as int));
            }
            let mut text = self.text(qs, close);
            if lazy {
                push_char(&mut text, '?');
            }
            self.push_event(CstEvent::Token(SyntaxKind::Quantifier, text));
            self.push_event(CstEvent::Finish);
            proof {
                assert(events_view(self.events@) =~= ev.take(checkpoint as int) + wrap_quantifier(s, qs as int, ev.skip(checkpoint as int)).0);
            }
        } else {
            assert(ev =~= ev.take(checkpoint as int) + ev.skip(checkpoint as int));
        }
        Ok(())
    }
}

/// Whether `c` is an ASCII hexadecimal digit.
fn is_hex_digit(c: char) -> (r: bool)
    ensures
        r == is_hex(c),
{
    ('0' <= c && c <= '9') || ('a' <= c && c <= 'f') || ('A' <= c && c <= 'F')
}

/// The number of bytes of the UTF-8 encoding of `c`.
fn utf8_len(c: char) -> (r: usize)
    ensures
        r == encode_scalar(c as u32).len(),
{
    let u = c as u32;
    if u < 0x80 {
        1
    } else if u < 0x800 {
        2
    } else if u < 0x10000 {
        3
    } else {
        4
    }
}

/// Check if a character is a regex metacharacter.
fn is_metachar(ch: char) -> (r: bool)
    ensures
        r == is_meta(ch),
{
    ch == '\\' || ch == '|' || ch == '&' || ch == '~' || ch == '(' || ch == ')' || ch == '['
        || ch == ']' || ch == '{' || ch == '}' || ch == '*' || ch == '+' || ch == '?' || ch
        == '.' || ch == '^' || ch == '$' || ch == '_'
}

/// A term whose atom is followed by `*`, `+` or `?` and then `?` is a lazy
/// loop over the atom, whose quantifier token holds both characters, and the
/// parse goes on after them; followed by such a character and no `?`, it is
/// a greedy loop whose token holds that character alone.
pub proof fn lemma_term_quantifier(s: Seq<char>, p: int, o: u32, atom: Seq<SpecEvent>, p1: int, q: char)
    requires
        cur(s, p) != Some('~'),
        p_atom(s, p, o, false) == Ok::<(Seq<SpecEvent>, int), ParseError>((atom, p1)),
        cur(s, p1) == Some(q),
        q == '*' || q == '+' || q == '?',
    ensures
        cur(s, p1 + 1) == Some('?') ==> p_term(s, p, o) == Ok::<(Seq<SpecEvent>, int), ParseError>(
            (
                seq![SpecEvent::Start(SyntaxKind::Lazyloop)] + atom + seq![
                    tok(SyntaxKind::Quantifier, seq![q, '?']),
                    SpecEvent::Finish,
                ],
                p1 + 2,
            ),
        ),
        cur(s, p1 + 1) != Some('?') ==> p_term(s, p, o) == Ok::<(Seq<SpecEvent>, int), ParseError>(
            (
                seq![SpecEvent::Start(SyntaxKind::Loop)] + atom + seq![
                    tok(SyntaxKind::Quantifier, seq![q]),
                    SpecEvent::Finish,
                ],
                p1 + 1,
            ),
        ),
{
    reveal(quant_error);
    assert(quant_error(s, p1) is None);
    if cur(s, p1 + 1) == Some('?') {
        assert(s.subrange(p1, p1 + 2) =~= seq![q, '?']);
    } else {
        assert(s.subrange(p1, p1 + 1) =~= seq![q]);
    }
}

} // verus!
