//! Compiled RE# patterns and derivative-based matching.
//!
//! A `Regex` holds the IR of its pattern. Matching is in development: every
//! character set of the IR is still the placeholder `0`, and the matcher runs
//! the derivatives of the pattern over the bytes of the input, each byte
//! standing for the set of ASCII classes it belongs to.
use vstd::prelude::*;
use crate::builder::RegexBuilder;
use crate::convert::{base_arena, conv, cst_to_ir, erase_arena, lemma_conv_prefix, lemma_erase_base};
use crate::derivative::{derivative, deriv_spec, is_nullable, lemma_deriv_prefix, nullable_spec, prefix_of, LocationKind};
use crate::error::ParseError;
use crate::node::{arena_wf, nothing_id, singletons_default, NodeId, RegexNodeArena, SpecInfo, SpecNode};
use crate::parser::{byte_offset, parse, parse_spec};
use crate::printer::{print_spec, PrettyPrinter};
use crate::semantics::{class_atomic, letter_ok};
use crate::solver::BitSetSolver;
use crate::syntax::{RegexOptions, SyntaxNode};
use vstd::string::{StringExecFns, StringSliceAdditionalSpecFns};

verus! {

/// A match found in the input string.
#[derive(Debug, Clone, Copy, PartialEq, Eq, Structural)]
pub struct Match {
    /// Start index of the match (byte offset).
    pub start: usize,
    /// End index of the match (byte offset, exclusive).
    pub end: usize,
}

/// The bytes `s[start..end]` of a string slice (`<str as Index<Range<usize>>>::index`).
#[verifier::external_body]
fn str_slice<'a>(s: &'a str, start: usize, end: usize) -> (r: &'a str)
    requires
        start <= end <= s.spec_bytes().len(),
        vstd::utf8::is_char_boundary(s.spec_bytes(), start as int),
        vstd::utf8::is_char_boundary(s.spec_bytes(), end as int),
    ensures
        r.spec_bytes() == s.spec_bytes().subrange(start as int, end as int),
{
    &s[start..end]
}

impl Match {
    /// Returns the length of the match in bytes.
    pub fn len(&self) -> (r: usize)
        requires
            self.start <= self.end,
        ensures
            r == self.end - self.start,
    {
        self.end - self.start
    }

    /// Returns true if this is an empty match.
    pub fn is_empty(&self) -> (r: bool)
        ensures
            r == (self.start == self.end),
    {
        self.start == self.end
    }

    /// Extract the matched text from the input.
    pub fn as_str<'a>(&self, input: &'a str) -> (r: &'a str)
        requires
            self.start <= self.end <= input.spec_bytes().len(),
            vstd::utf8::is_char_boundary(input.spec_bytes(), self.start as int),
            vstd::utf8::is_char_boundary(input.spec_bytes(), self.end as int),
        ensures
            r.spec_bytes() == input.spec_bytes().subrange(self.start as int, self.end as int),
    {
        str_slice(input, self.start, self.end)
    }
}

/// Error type for regex compilation.
#[derive(Debug)]
pub enum Error {
    /// Parse error.
    Parse(ParseError),
}

impl From<ParseError> for Error {
    fn from(e: ParseError) -> (r: Self) {
        Error::Parse(e)
    }
}

impl vstd::std_specs::convert::FromSpecImpl<ParseError> for Error {
    open spec fn obeys_from_spec() -> bool {
        true
    }

    open spec fn from_spec(e: ParseError) -> Error {
        Error::Parse(e)
    }
}

// ---------------------------------------------------------------------------
// Compilation
// ---------------------------------------------------------------------------

/// A node of an arena whose singletons' sets were erased, with every set the
/// placeholder `0`.
pub open spec fn zero_node(n: SpecNode<()>) -> SpecNode<u64> {
    match n {
        SpecNode::Concat { head, tail } => SpecNode::Concat { head, tail },
        SpecNode::Or { nodes } => SpecNode::Or { nodes },
        SpecNode::And { nodes } => SpecNode::And { nodes },
        SpecNode::Singleton(_) => SpecNode::Singleton(0u64),
        SpecNode::Loop { node, low, high, lazy } => SpecNode::Loop { node, low, high, lazy },
        SpecNode::Not { inner } => SpecNode::Not { inner },
        SpecNode::LookAround { inner, look_back, negative } => SpecNode::LookAround {
            inner,
            look_back,
            negative,
        },
        SpecNode::Begin => SpecNode::Begin,
        SpecNode::End => SpecNode::End,
    }
}

/// An arena whose singletons' sets were erased, with every set `0`.
pub open spec fn zero_arena(e: Seq<SpecInfo<()>>) -> Seq<SpecInfo<u64>> {
    e.map_values(
        |i: SpecInfo<()>|
            SpecInfo {
                node: zero_node(i.node),
                flags: i.flags,
                min_length: i.min_length,
                max_length: i.max_length,
            },
    )
}

/// In the arena of a compiled pattern every singleton holds the empty
/// placeholder set, so every non-empty class, each minterm the matcher
/// derives by among them, is a letter for it.
pub proof fn lemma_compiled_letters(e: Seq<SpecInfo<()>>, x: u64)
    requires
        x != 0,
    ensures
        letter_ok(zero_arena(e), x),
{
    let a = zero_arena(e);
    assert(x & 0 == 0) by (bit_vector);
    assert forall|i: int| 0 <= i < a.len() && i != 2 implies match (#[trigger] a[i]).node {
        SpecNode::Singleton(s) => class_atomic(x, s),
        _ => true,
    } by {
        assert(a[i].node == zero_node(e[i].node));
    }
}

/// An arena of `u64` sets whose singletons hold `u64::default()` is its
/// erasure with every set `0`.
pub proof fn lemma_zero_arena(a: Seq<SpecInfo<u64>>)
    requires
        singletons_default(a),
    ensures
        a == zero_arena(erase_arena(a)),
{
    assert forall|i: int| 0 <= i < a.len() implies a[i] == #[trigger] zero_arena(erase_arena(a))[i] by {
        if a[i].node is Singleton {
            assert(call_ensures(u64::default, (), a[i].node->Singleton_0));
        }
    }
    assert(a =~= zero_arena(erase_arena(a)));
}

/// The IR of `pattern` under options `o`: the arena and the root node, or the
/// parse error.
pub open spec fn compile_spec(pattern: Seq<char>, o: u32) -> Result<(Seq<SpecInfo<u64>>, NodeId), ParseError> {
    match parse_spec(pattern, o) {
        Err(e) => Err(e),
        Ok(ev) => Ok((zero_arena(conv(base_arena(), ev).0), conv(base_arena(), ev).1)),
    }
}

/// Whether compiling `pattern` under options `o` stays within the machine's
/// bounds: the pattern's byte length fits in a `usize`, and the IR fits the
/// `u32` node ids and minimum lengths.
pub open spec fn compile_fits(pattern: Seq<char>, o: u32) -> bool {
    &&& byte_offset(pattern, pattern.len() as int) <= usize::MAX
    &&& parse_spec(pattern, o) matches Ok(ev) ==> conv(base_arena(), ev).2
}

/// Convert CST to IR, returning a mutable arena for derivative computation.
fn cst_to_ir_with_builder(tree: &SyntaxNode) -> (r: (RegexNodeArena<u64>, NodeId))
    requires
        conv(base_arena(), tree@).2,
    ensures
        arena_wf(r.0@),
        r.0@ == zero_arena(conv(base_arena(), tree@).0),
        r.1 == conv(base_arena(), tree@).1,
{
    let r = cst_to_ir::<u64>(tree);
    proof {
        lemma_zero_arena(r.0@);
    }
    r
}

// ---------------------------------------------------------------------------
// Matching
// ---------------------------------------------------------------------------

/// Whether `ch` is an ASCII decimal digit.
pub open spec fn is_digit_byte(ch: u8) -> bool {
    0x30 <= ch <= 0x39
}

/// Whether `ch` is an ASCII lowercase letter.
pub open spec fn is_lower_byte(ch: u8) -> bool {
    0x61 <= ch <= 0x7a
}

/// Whether `ch` is an ASCII uppercase letter.
pub open spec fn is_upper_byte(ch: u8) -> bool {
    0x41 <= ch <= 0x5a
}

/// Whether `ch` is ASCII whitespace: space, tab, line feed, form feed or
/// carriage return.
pub open spec fn is_space_byte(ch: u8) -> bool {
    ch == 0x20 || ch == 0x09 || ch == 0x0a || ch == 0x0c || ch == 0x0d
}

/// The minterm of byte `ch`: one bit for each ASCII class it belongs to
/// (digit, word character, whitespace, lowercase, uppercase, alphabetic), and
/// the byte itself in bits 8 to 15.
pub open spec fn minterm_spec(ch: u8) -> u64 {
    (if is_digit_byte(ch) {
        1u64
    } else {
        0u64
    }) | (if is_digit_byte(ch) || is_lower_byte(ch) || is_upper_byte(ch) || ch == 0x5f {
        2u64
    } else {
        0u64
    }) | (if is_space_byte(ch) {
        4u64
    } else {
        0u64
    }) | (if is_lower_byte(ch) {
        8u64
    } else {
        0u64
    }) | (if is_upper_byte(ch) {
        16u64
    } else {
        0u64
    }) | (if is_lower_byte(ch) || is_upper_byte(ch) {
        32u64
    } else {
        0u64
    }) | ((ch as u64) << 8u64)
}

/// Map a character to a minterm (simplified for ASCII).
fn char_to_minterm(ch: u8) -> (r: u64)
    ensures
        r == minterm_spec(ch),
{
    let mut bits = 0u64;
    // Bit 0: is digit
    let d = 0x30 <= ch && ch <= 0x39;
    let lower = 0x61 <= ch && ch <= 0x7a;
    let upper = 0x41 <= ch && ch <= 0x5a;
    let b0 = if d {
        1u64
    } else {
        0u64
    };
    // Bit 1: is word char (alphanumeric + underscore)
    let b1 = if d || lower || upper || ch == 0x5f {
        2u64
    } else {
        0u64
    };
    // Bit 2: is whitespace
    let b2 = if ch == 0x20 || ch == 0x09 || ch == 0x0a || ch == 0x0c || ch == 0x0d {
        4u64
    } else {
        0u64
    };
    // Bit 3: is lowercase
    let b3 = if lower {
        8u64
    } else {
        0u64
    };
    // Bit 4: is uppercase
    let b4 = if upper {
        16u64
    } else {
        0u64
    };
    // Bit 5: is alphabetic
    let b5 = if lower || upper {
        32u64
    } else {
        0u64
    };
    // Bits 8-15: actual character value for exact matching
    let c = (ch as u64) << 8u64;
    bits = b0 | b1 | b2 | b3 | b4 | b5 | c;
    bits
}

/// The location of the byte at `pos` of an input of `len` bytes.
pub open spec fn loc_at(pos: int, len: int) -> LocationKind {
    if pos == 0 {
        LocationKind::Begin
    } else if pos == len - 1 {
        LocationKind::End
    } else {
        LocationKind::Center
    }
}

/// The location after the byte before `pos` of an input of `len` bytes.
pub open spec fn end_loc(pos: int, len: int) -> LocationKind {
    if pos == len {
        LocationKind::End
    } else {
        LocationKind::Center
    }
}

/// The run of the matcher from `pos` with the pattern `cur` of arena `a`,
/// where `last` is the end of the longest match found so far: the end of the
/// longest match, and whether every derivative stayed within bounds. The run
/// stops at the end of the input or where the derivative is `NOTHING`.
pub open spec fn run_from(a: Seq<SpecInfo<u64>>, cur: NodeId, bytes: Seq<u8>, pos: int, last: Option<usize>) -> (
    Option<usize>,
    bool,
)
    decreases bytes.len() - pos,
{
    if pos < 0 || pos >= bytes.len() {
        (last, true)
    } else {
        let d = deriv_spec(BitSetSolver, a, loc_at(pos, bytes.len() as int), minterm_spec(bytes[pos]), cur);
        if d.1 == nothing_id() {
            (last, d.2)
        } else {
            let last1 = if nullable_spec(d.0, end_loc(pos + 1, bytes.len() as int), d.1) {
                Some((pos + 1) as usize)
            } else {
                last
            };
            let r = run_from(d.0, d.1, bytes, pos + 1, last1);
            (r.0, d.2 && r.1)
        }
    }
}

/// The end of the longest match of `pattern` (compiled without options) that
/// starts at byte `start` of `bytes`, and whether the run stayed within
/// bounds.
pub open spec fn match_at_spec(pattern: Seq<char>, bytes: Seq<u8>, start: int) -> (Option<usize>, bool) {
    match parse_spec(pattern, 0) {
        Err(_) => (None, true),
        Ok(ev) => {
            let c = conv(base_arena(), ev);
            let a = zero_arena(c.0);
            let first = if nullable_spec(
                a,
                if start == 0 {
                    LocationKind::Begin
                } else {
                    LocationKind::Center
                },
                c.1,
            ) {
                Some(start as usize)
            } else {
                None
            };
            let r = run_from(a, c.1, bytes, start, first);
            (r.0, c.2 && r.1)
        },
    }
}

/// The next match of `pattern` in `bytes` from byte `pos` on: the match, the
/// position from which the search goes on after it, and whether every run
/// stayed within bounds. After an empty match the search goes on one byte
/// further.
pub open spec fn next_spec(pattern: Seq<char>, bytes: Seq<u8>, pos: int) -> (Option<Match>, int, bool)
    decreases bytes.len() + 1 - pos,
{
    if pos < 0 || pos > bytes.len() {
        (None, pos, true)
    } else {
        let m = match_at_spec(pattern, bytes, pos);
        match m.0 {
            Some(end) => (
                Some(Match { start: pos as usize, end }),
                if end > pos {
                    end as int
                } else {
                    pos + 1
                },
                m.1,
            ),
            None => {
                let r = next_spec(pattern, bytes, pos + 1);
                (r.0, r.1, m.1 && r.2)
            },
        }
    }
}

/// A compiled RE# regex pattern.
#[derive(Debug)]
pub struct Regex {
    /// The pattern string as given.
    pattern: String,
    /// The IR arena containing all nodes.
    arena: RegexNodeArena<u64>,
    /// The root node ID of the pattern.
    root: NodeId,
}

impl Regex {
    /// The characters of the pattern.
    pub closed spec fn spec_pattern(&self) -> Seq<char> {
        self.pattern@
    }

    /// The IR arena.
    pub closed spec fn spec_arena(&self) -> Seq<SpecInfo<u64>> {
        self.arena@
    }

    /// The root node.
    pub closed spec fn spec_root(&self) -> NodeId {
        self.root
    }

    /// Whether the regex is well formed: its arena is, and its pattern's byte
    /// length fits in a `usize`.
    pub open spec fn wf(&self) -> bool {
        &&& arena_wf(self.spec_arena())
        &&& byte_offset(self.spec_pattern(), self.spec_pattern().len() as int) <= usize::MAX
    }

    /// Compile a regex pattern.
    pub fn new(pattern: &str) -> (r: Result<Self, Error>)
        requires
            compile_fits(pattern@, 0),
        ensures
            match compile_spec(pattern@, 0) {
                Err(e) => r matches Err(Error::Parse(e2)) && e2 == e,
                Ok((a, root)) => r matches Ok(re) && re.wf() && re.spec_pattern() == pattern@
                    && re.spec_arena() == a && re.spec_root() == root,
            },
    {
        Self::with_options(pattern, RegexOptions::NONE())
    }

    /// Compile a regex pattern with options.
    pub fn with_options(pattern: &str, options: RegexOptions) -> (r: Result<Self, Error>)
        requires
            compile_fits(pattern@, options.bits),
        ensures
            match compile_spec(pattern@, options.bits) {
                Err(e) => r matches Err(Error::Parse(e2)) && e2 == e,
                Ok((a, root)) => r matches Ok(re) && re.wf() && re.spec_pattern() == pattern@
                    && re.spec_arena() == a && re.spec_root() == root,
            },
    {
        let green = match parse(pattern, options) {
            Ok(g) => g,
            Err(e) => {
                return Err(Error::Parse(e));
            },
        };
        let tree = SyntaxNode::new_root(green);
        let (arena, root) = cst_to_ir_with_builder(&tree);
        Ok(Self { pattern: String::from_str(pattern), arena, root })
    }

    /// Returns the pattern string as given.
    pub fn pattern(&self) -> (r: &str)
        ensures
            r@ == self.spec_pattern(),
    {
        self.pattern.as_str()
    }

    /// Returns the root node ID.
    pub fn root(&self) -> (r: NodeId)
        ensures
            r == self.spec_root(),
    {
        self.root
    }

    /// Returns a reference to the IR arena.
    pub fn arena(&self) -> (r: &RegexNodeArena<u64>)
        ensures
            r@ == self.spec_arena(),
    {
        &self.arena
    }

    /// Pretty print the compiled pattern (for debugging).
    pub fn pretty_print(&self) -> (r: String)
        requires
            self.wf(),
        ensures
            r@ == print_spec(self.spec_arena(), self.spec_root(), false),
    {
        let mut printer = PrettyPrinter::new(&self.arena);
        printer.print(self.root)
    }

    /// Check if the pattern matches anywhere in the input.
    ///
    /// Note: Full matching support is in development.
    pub fn is_match(&self, input: &str) -> (r: bool)
        requires
            self.wf(),
            input.spec_bytes().len() < usize::MAX,
            next_spec(self.spec_pattern(), input.spec_bytes(), 0).2,
        ensures
            r == next_spec(self.spec_pattern(), input.spec_bytes(), 0).0 is Some,
    {
        self.find(input).is_some()
    }

    /// Find the first match in the input.
    ///
    /// Note: Full matching support is in development.
    pub fn find(&self, input: &str) -> (r: Option<Match>)
        requires
            self.wf(),
            input.spec_bytes().len() < usize::MAX,
            next_spec(self.spec_pattern(), input.spec_bytes(), 0).2,
        ensures
            r == next_spec(self.spec_pattern(), input.spec_bytes(), 0).0,
    {
        let mut it = self.find_iter(input);
        it.next()
    }

    /// Find all non-overlapping matches in the input.
    ///
    /// Note: Full matching support is in development.
    pub fn find_iter<'r, 't>(&'r self, input: &'t str) -> (r: Matches<'r, 't>)
        ensures
            r.spec_regex() == self,
            r.spec_input() == input,
            r.spec_pos() == 0,
    {
        Matches { regex: self, input, pos: 0 }
    }

    /// Internal: Run the derivative-based matching from a given position.
    ///
    /// Returns the end position of the longest match starting at `start`, or None.
    fn match_at(&self, input: &str, start: usize) -> (r: Option<usize>)
        requires
            self.wf(),
            match_at_spec(self.spec_pattern(), input.spec_bytes(), start as int).1,
        ensures
            r == match_at_spec(self.spec_pattern(), input.spec_bytes(), start as int).0,
    {
        // We compute derivatives character by character and track nullable positions
        let bytes = input.as_bytes();
        let ghost bs = input.spec_bytes();
        // Check if pattern is nullable at start position
        let location = if start == 0 {
            LocationKind::Begin
        } else {
            LocationKind::Center
        };
        // We need a mutable builder for derivatives
        let green = match parse(self.pattern.as_str(), RegexOptions::NONE()) {
            Ok(g) => g,
            Err(_) => {
                return None;
            },
        };
        let tree = SyntaxNode::new_root(green);
        let (arena, root) = cst_to_ir_with_builder(&tree);
        let mut builder = RegexBuilder::with_arena(arena, BitSetSolver);
        let mut current = root;
        let mut last_match: Option<usize> = None;
        if is_nullable(&builder, location, current) {
            last_match = Some(start);
        }
        let ghost target = run_from(builder.spec_arena(), current, bs, start as int, last_match);
        let mut pos = start;
        let mut stopped = false;
        while pos < bytes.len() && !stopped
            invariant
                builder.wf(),
                builder.spec_solver() == BitSetSolver,
                bytes@ == bs,
                start <= pos,
                target.1,
                stopped ==> last_match == target.0,
                !stopped ==> run_from(builder.spec_arena(), current, bs, pos as int, last_match) == target,
            decreases bytes.len() - pos, if stopped {
                0nat
            } else {
                1nat
            },
        {
            let ch = bytes[pos];
            let minterm = char_to_minterm(ch);
            let location = if pos == 0 {
                LocationKind::Begin
            } else if pos == bytes.len() - 1 {
                LocationKind::End
            } else {
                LocationKind::Center
            };
            current = derivative(&mut builder, location, minterm, current);
            if current == NodeId::NOTHING() {
                stopped = true;
            } else {
                pos += 1;
                // Check if nullable at current position
                let end_location = if pos == bytes.len() {
                    LocationKind::End
                } else {
                    LocationKind::Center
                };
                if is_nullable(&builder, end_location, current) {
                    last_match = Some(pos);
                }
            }
        }
        last_match
    }
}

/// Iterator over matches in an input string.
pub struct Matches<'r, 't> {
    regex: &'r Regex,
    input: &'t str,
    pos: usize,
}

impl<'r, 't> Matches<'r, 't> {
    /// The regex whose matches are searched.
    pub closed spec fn spec_regex(&self) -> &'r Regex {
        self.regex
    }

    /// The input searched.
    pub closed spec fn spec_input(&self) -> &'t str {
        self.input
    }

    /// The byte position from which the search goes on.
    pub closed spec fn spec_pos(&self) -> int {
        self.pos as int
    }

    /// The next match, if there is one.
    pub fn next(&mut self) -> (r: Option<Match>)
        requires
            old(self).spec_regex().wf(),
            old(self).spec_input().spec_bytes().len() < usize::MAX,
            next_spec(
                old(self).spec_regex().spec_pattern(),
                old(self).spec_input().spec_bytes(),
                old(self).spec_pos(),
            ).2,
        ensures
            ({
                let n = next_spec(
                    old(self).spec_regex().spec_pattern(),
                    old(self).spec_input().spec_bytes(),
                    old(self).spec_pos(),
                );
                &&& r == n.0
                &&& final(self).spec_pos() == n.1
            }),
            final(self).spec_regex() == old(self).spec_regex(),
            final(self).spec_input() == old(self).spec_input(),
    {
        let ghost p = self.regex.spec_pattern();
        let ghost bs = self.input.spec_bytes();
        let ghost target = next_spec(p, bs, self.pos as int);
        while self.pos <= self.input.len()
            invariant
                self.regex.wf(),
                self.regex.spec_pattern() == p,
                self.input.spec_bytes() == bs,
                bs.len() < usize::MAX,
                self.regex == old(self).regex,
                self.input == old(self).input,
                target.2,
                next_spec(p, bs, self.pos as int) == target,
                target == next_spec(p, bs, old(self).pos as int),
                p == old(self).regex.spec_pattern(),
                bs == old(self).input.spec_bytes(),
            decreases bs.len() + 1 - self.pos,
        {
            match self.regex.match_at(self.input, self.pos) {
                Some(end) => {
                    let m = Match { start: self.pos, end };
                    // Advance past this match (at least one char to avoid infinite loop)
                    self.pos = if end > self.pos {
                        end
                    } else {
                        self.pos + 1
                    };
                    return Some(m);
                },
                None => {},
            }
            self.pos += 1;
        }
        None
    }
}

/// A run only moves the end of the longest match forward: it keeps `last`,
/// or ends a match after `pos` and within the input.
pub proof fn lemma_run_from_bounds(a: Seq<SpecInfo<u64>>, cur: NodeId, bytes: Seq<u8>, pos: int, last: Option<usize>)
    requires
        0 <= pos,
        bytes.len() < usize::MAX,
    ensures
        run_from(a, cur, bytes, pos, last).0 == last || (run_from(a, cur, bytes, pos, last).0 matches Some(e)
            && pos < e <= bytes.len()),
    decreases bytes.len() - pos,
{
    if pos < bytes.len() {
        let d = deriv_spec(BitSetSolver, a, loc_at(pos, bytes.len() as int), minterm_spec(bytes[pos]), cur);
        if d.1 != nothing_id() {
            let last1 = if nullable_spec(d.0, end_loc(pos + 1, bytes.len() as int), d.1) {
                Some((pos + 1) as usize)
            } else {
                last
            };
            lemma_run_from_bounds(d.0, d.1, bytes, pos + 1, last1);
        }
    }
}

/// A match that starts at `start` ends at `start` or after it, within the
/// input.
pub proof fn lemma_match_at_bounds(pattern: Seq<char>, bytes: Seq<u8>, start: int)
    requires
        0 <= start <= bytes.len(),
        bytes.len() < usize::MAX,
    ensures
        match_at_spec(pattern, bytes, start).0 matches Some(e) ==> start <= e <= bytes.len(),
{
    if let Ok(ev) = parse_spec(pattern, 0) {
        let c = conv(base_arena(), ev);
        let a = zero_arena(c.0);
        let first = if nullable_spec(
            a,
            if start == 0 {
                LocationKind::Begin
            } else {
                LocationKind::Center
            },
            c.1,
        ) {
            Some(start as usize)
        } else {
            None
        };
        lemma_run_from_bounds(a, c.1, bytes, start, first);
    }
}

/// The matches that `find_iter` gives come in order and do not overlap: the
/// next match from `pos` starts at `pos` or later and ends where it starts
/// or later, and the search goes on from its end, and past its start.
pub proof fn lemma_next_match_order(pattern: Seq<char>, bytes: Seq<u8>, pos: int)
    requires
        0 <= pos,
        bytes.len() < usize::MAX,
    ensures
        next_spec(pattern, bytes, pos).0 matches Some(m) ==> {
            &&& pos <= m.start <= m.end <= bytes.len()
            &&& next_spec(pattern, bytes, pos).1 >= m.end
            &&& next_spec(pattern, bytes, pos).1 > m.start
            &&& next_spec(pattern, bytes, pos).1 <= bytes.len() + 1
        },
    decreases bytes.len() + 1 - pos,
{
    if pos <= bytes.len() {
        lemma_match_at_bounds(pattern, bytes, pos);
        if match_at_spec(pattern, bytes, pos).0 is None {
            lemma_next_match_order(pattern, bytes, pos + 1);
        }
    }
}


/// The matches that repeated calls of `next` give from `pos`, in order: the
/// match `next_spec` finds, then those found from where the search goes on.
pub open spec fn all_matches(pattern: Seq<char>, bytes: Seq<u8>, pos: int) -> Seq<Match>
    decreases bytes.len() + 1 - pos,
{
    if pos < 0 || pos > bytes.len() {
        Seq::empty()
    } else {
        let n = next_spec(pattern, bytes, pos);
        match n.0 {
            Some(m) => if pos < n.1 <= bytes.len() + 1 {
                seq![m] + all_matches(pattern, bytes, n.1)
            } else {
                seq![m]
            },
            None => Seq::empty(),
        }
    }
}

/// All the matches of an iteration from `pos` lie within the input, come
/// from left to right and do not overlap, and there are at most as many as
/// positions from `pos` to the end of the input, so the iteration ends. Each
/// call of `next` gives the first of the matches left and goes on from where
/// the rest start.
#[verifier::rlimit(30)]
pub proof fn lemma_all_matches(pattern: Seq<char>, bytes: Seq<u8>, pos: int)
    requires
        0 <= pos <= bytes.len() + 1,
        bytes.len() < usize::MAX,
    ensures
        ({
            let ms = all_matches(pattern, bytes, pos);
            let n = next_spec(pattern, bytes, pos);
            &&& forall|i: int| 0 <= i < ms.len() ==> pos <= (#[trigger] ms[i]).start <= ms[i].end <= bytes.len()
            &&& forall|i: int|
                0 <= i < ms.len() - 1 ==> (#[trigger] ms[i]).end <= ms[i + 1].start && ms[i].start < ms[i + 1].start
            &&& ms.len() <= bytes.len() + 1 - pos
            &&& n.0 is None ==> ms.len() == 0
            &&& n.0 matches Some(m) ==> ms == seq![m] + all_matches(pattern, bytes, n.1)
        }),
    decreases bytes.len() + 1 - pos,
{
    lemma_next_match_order(pattern, bytes, pos);
    let n = next_spec(pattern, bytes, pos);
    if pos <= bytes.len() {
        if let Some(m) = n.0 {
            let ms = all_matches(pattern, bytes, pos);
            let rest = all_matches(pattern, bytes, n.1);
            lemma_all_matches(pattern, bytes, n.1);
            assert(ms == seq![m] + rest);
            assert(ms.len() == rest.len() + 1);
            assert(rest.len() <= bytes.len() + 1 - n.1);
            assert(n.1 >= pos + 1);
            assert forall|i: int| 0 <= i < ms.len() implies pos <= (#[trigger] ms[i]).start <= ms[i].end
                <= bytes.len() by {
                if i > 0 {
                    assert(ms[i] == rest[i - 1]);
                }
            }
            assert forall|i: int| 0 <= i < ms.len() - 1 implies (#[trigger] ms[i]).end <= ms[i + 1].start
                && ms[i].start < ms[i + 1].start by {
                assert(ms[i + 1] == rest[i]);
                if i > 0 {
                    assert(ms[i] == rest[i - 1]);
                }
            }
        }
    } else {
        if let Some(m) = n.0 {
            assert(false);
        }
    }
}

// ---------------------------------------------------------------------------
// What a match is
// ---------------------------------------------------------------------------

/// The arena and node reached from node `cur` of arena `a` by deriving it, in
/// order, by the minterms of the bytes of `bytes` from `from` up to `to`,
/// each at its place in the input.
pub open spec fn derive_bytes(a: Seq<SpecInfo<u64>>, cur: NodeId, bytes: Seq<u8>, from: int, to: int) -> (
    Seq<SpecInfo<u64>>,
    NodeId,
)
    decreases to - from,
{
    if to <= from {
        (a, cur)
    } else {
        let p = derive_bytes(a, cur, bytes, from, to - 1);
        let d = deriv_spec(
            BitSetSolver,
            p.0,
            loc_at(to - 1, bytes.len() as int),
            minterm_spec(bytes[to - 1]),
            p.1,
        );
        (d.0, d.1)
    }
}

/// The place at which a span from `start` to `end` of an input of `len`
/// bytes ends: the start of the input for an empty span there, the end of
/// the input after its last byte, and the middle otherwise.
pub open spec fn span_loc(start: int, end: int, len: int) -> LocationKind {
    if end == start {
        if start == 0 {
            LocationKind::Begin
        } else {
            LocationKind::Center
        }
    } else {
        end_loc(end, len)
    }
}

/// Whether node `cur` of arena `a` matches the bytes of `bytes` from `start`
/// up to `end`: what is left of it after them matches the empty word there.
pub open spec fn span_ok(a: Seq<SpecInfo<u64>>, cur: NodeId, bytes: Seq<u8>, start: int, end: int) -> bool {
    let p = derive_bytes(a, cur, bytes, start, end);
    nullable_spec(p.0, span_loc(start, end, bytes.len() as int), p.1)
}

/// Whether `pattern` (compiled without options) matches the bytes of
/// `bytes` from `start` up to `end`.
pub open spec fn matches_span(pattern: Seq<char>, bytes: Seq<u8>, start: int, end: int) -> bool {
    match parse_spec(pattern, 0) {
        Err(_) => false,
        Ok(ev) => {
            let c = conv(base_arena(), ev);
            span_ok(zero_arena(c.0), c.1, bytes, start, end)
        },
    }
}

/// Deriving only adds nodes to the arena.
proof fn lemma_derive_bytes_prefix(a: Seq<SpecInfo<u64>>, cur: NodeId, bytes: Seq<u8>, from: int, to: int)
    ensures
        prefix_of(a, derive_bytes(a, cur, bytes, from, to).0),
    decreases to - from,
{
    if to <= from {
        assert(a.take(a.len() as int) =~= a);
    } else {
        let p = derive_bytes(a, cur, bytes, from, to - 1);
        lemma_derive_bytes_prefix(a, cur, bytes, from, to - 1);
        lemma_deriv_prefix(BitSetSolver, p.0, loc_at(to - 1, bytes.len() as int), minterm_spec(bytes[to - 1]), p.1);
        crate::derivative::lemma_prefix_trans(
            a,
            p.0,
            derive_bytes(a, cur, bytes, from, to).0,
        );
    }
}

/// Once the derivative is `NOTHING` it stays so, and matches nothing more.
proof fn lemma_derive_bytes_nothing(a: Seq<SpecInfo<u64>>, cur: NodeId, bytes: Seq<u8>, from: int, q: int, to: int)
    requires
        from <= q <= to,
        derive_bytes(a, cur, bytes, from, q).1 == nothing_id(),
        a.len() > 1,
        a[1].flags.bits == 0,
    ensures
        derive_bytes(a, cur, bytes, from, to).1 == nothing_id(),
        !span_ok(a, cur, bytes, from, to),
    decreases to - q,
{
    if q < to {
        lemma_derive_bytes_nothing(a, cur, bytes, from, q, to - 1);
    }
    let b = derive_bytes(a, cur, bytes, from, to).0;
    lemma_derive_bytes_prefix(a, cur, bytes, from, to);
    assert(b[1] == b.take(a.len() as int)[1]);
    crate::flags::lemma_flag_constants();
}

/// The run of the matcher from `pos` ends with the longest match: given the
/// longest match found up to `pos`, it gives the longest one up to the end of
/// the input.
proof fn lemma_run_longest(
    a0: Seq<SpecInfo<u64>>,
    c0: NodeId,
    bytes: Seq<u8>,
    start: int,
    pos: int,
    last: Option<usize>,
)
    requires
        0 <= start <= pos <= bytes.len(),
        bytes.len() < usize::MAX,
        a0.len() > 1,
        a0[1].flags.bits == 0,
        match last {
            Some(e) => start <= e <= pos && span_ok(a0, c0, bytes, start, e as int) && forall|e2: int|
                e < e2 <= pos ==> !#[trigger] span_ok(a0, c0, bytes, start, e2),
            None => forall|e2: int| start <= e2 <= pos ==> !#[trigger] span_ok(a0, c0, bytes, start, e2),
        },
    ensures
        ({
            let p = derive_bytes(a0, c0, bytes, start, pos);
            match run_from(p.0, p.1, bytes, pos, last).0 {
                Some(e) => start <= e <= bytes.len() && span_ok(a0, c0, bytes, start, e as int) && forall|e2: int|
                    e < e2 <= bytes.len() ==> !#[trigger] span_ok(a0, c0, bytes, start, e2),
                None => forall|e2: int| start <= e2 <= bytes.len() ==> !#[trigger] span_ok(a0, c0, bytes, start, e2),
            }
        }),
    decreases bytes.len() - pos,
{
    let p = derive_bytes(a0, c0, bytes, start, pos);
    if pos < bytes.len() {
        let d = deriv_spec(BitSetSolver, p.0, loc_at(pos, bytes.len() as int), minterm_spec(bytes[pos]), p.1);
        assert(derive_bytes(a0, c0, bytes, start, pos + 1) == (d.0, d.1));
        if d.1 == nothing_id() {
            assert forall|e2: int| pos < e2 <= bytes.len() implies !#[trigger] span_ok(a0, c0, bytes, start, e2) by {
                lemma_derive_bytes_nothing(a0, c0, bytes, start, pos + 1, e2);
            }
        } else {
            let last1 = if nullable_spec(d.0, end_loc(pos + 1, bytes.len() as int), d.1) {
                Some((pos + 1) as usize)
            } else {
                last
            };
            assert(span_ok(a0, c0, bytes, start, pos + 1) == nullable_spec(
                d.0,
                end_loc(pos + 1, bytes.len() as int),
                d.1,
            ));
            lemma_run_longest(a0, c0, bytes, start, pos + 1, last1);
        }
    }
}

/// The match that `match_at` reports from `start` is the longest: the
/// pattern matches the bytes from `start` to its end, and to no later end
/// within the input; where it reports none, the pattern matches the bytes
/// from `start` to no end.
pub proof fn lemma_match_at_longest(pattern: Seq<char>, bytes: Seq<u8>, start: int)
    requires
        0 <= start <= bytes.len(),
        bytes.len() < usize::MAX,
    ensures
        match match_at_spec(pattern, bytes, start).0 {
            Some(e) => start <= e <= bytes.len() && matches_span(pattern, bytes, start, e as int) && forall|e2: int|
                e < e2 <= bytes.len() ==> !#[trigger] matches_span(pattern, bytes, start, e2),
            None => forall|e2: int| start <= e2 <= bytes.len() ==> !#[trigger] matches_span(pattern, bytes, start, e2),
        },
{
    if let Ok(ev) = parse_spec(pattern, 0) {
        let c = conv(base_arena(), ev);
        let a0 = zero_arena(c.0);
        lemma_conv_prefix(base_arena(), ev);
        assert(c.0[1] == c.0.take(4)[1]);
        assert(a0[1].flags == c.0[1].flags);
        let first = if nullable_spec(
            a0,
            if start == 0 {
                LocationKind::Begin
            } else {
                LocationKind::Center
            },
            c.1,
        ) {
            Some(start as usize)
        } else {
            None
        };
        assert(derive_bytes(a0, c.1, bytes, start, start) == (a0, c.1));
        assert(span_ok(a0, c.1, bytes, start, start) == (first is Some));
        lemma_run_longest(a0, c.1, bytes, start, start, first);
    }
}

/// The match that the search from `pos` finds is the leftmost longest one:
/// it starts at the first position from `pos` on from which the pattern
/// matches some bytes, and ends at the last end the pattern matches from
/// there. The search goes on from that end after a non-empty match, and one
/// byte further after an empty one. Where it finds none, the pattern matches
/// no bytes from `pos` on.
pub proof fn lemma_next_leftmost_longest(pattern: Seq<char>, bytes: Seq<u8>, pos: int)
    requires
        0 <= pos,
        bytes.len() < usize::MAX,
    ensures
        ({
            let n = next_spec(pattern, bytes, pos);
            &&& n.0 matches Some(m) ==> {
                &&& pos <= m.start <= m.end <= bytes.len()
                &&& matches_span(pattern, bytes, m.start as int, m.end as int)
                &&& forall|e2: int|
                    m.end < e2 <= bytes.len() ==> !#[trigger] matches_span(pattern, bytes, m.start as int, e2)
                &&& forall|q: int, e2: int|
                    pos <= q < m.start && q <= e2 <= bytes.len() ==> !#[trigger] matches_span(pattern, bytes, q, e2)
                &&& n.1 == if m.end > m.start {
                    m.end as int
                } else {
                    m.start + 1
                }
            }
            &&& n.0 is None ==> forall|q: int, e2: int|
                pos <= q <= e2 <= bytes.len() ==> !#[trigger] matches_span(pattern, bytes, q, e2)
        }),
    decreases bytes.len() + 1 - pos,
{
    if pos <= bytes.len() {
        lemma_match_at_longest(pattern, bytes, pos);
        if match_at_spec(pattern, bytes, pos).0 is None {
            lemma_next_leftmost_longest(pattern, bytes, pos + 1);
            let n = next_spec(pattern, bytes, pos);
            assert forall|q: int, e2: int|
                pos <= q <= e2 <= bytes.len() && q < pos + 1 implies !#[trigger] matches_span(pattern, bytes, q, e2) by {
                assert(q == pos);
            }
        }
    }
}

} // verus!
