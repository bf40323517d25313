//! Syntax definitions for the RE# extended regex parser: the kinds of the
//! concrete syntax tree, the tree itself, and the parsing options.
use vstd::prelude::*;

verus! {

/// All syntax kinds for RE# regex patterns.
///
/// Tokens are leaf elements with source text.
/// Nodes are composite elements containing other nodes/tokens.
#[derive(Debug, Clone, Copy, PartialEq, Eq, Structural, Hash)]
pub enum SyntaxKind {

    // ===========================
    // TOKENS (Terminals)
    // ===========================

    // Literal characters
    /// Single character literal: a, b, 1
    Char,
    /// Escape sequence: \n, \t, \x41, \u0041
    EscapeSeq,

    // Operators
    /// `|` alternation
    Pipe,
    /// `&` RE# conjunction
    Ampersand,
    /// `~` RE# negation
    Tilde,
    /// `^` anchor or char class negation
    Caret,
    /// `$` end anchor
    Dollar,
    /// `.` any char (except newline)
    Dot,
    /// `_` RE# universal wildcard
    Underscore,
    /// `*` zero or more
    Star,
    /// `+` one or more
    Plus,
    /// `?` zero or one / lazy modifier
    Question,

    // Delimiters
    /// `(`
    LParen,
    /// `)`
    RParen,
    /// `[`
    LBracket,
    /// `]`
    RBracket,
    /// `{`
    LBrace,
    /// `}`
    RBrace,

    // Special tokens
    /// `\`
    Backslash,
    /// `-` in character classes
    Hyphen,
    /// `:` in (?:...)
    Colon,
    /// `=` in (?=...)
    Equals,
    /// `!` in (?!...)
    Exclaim,
    /// `<`
    LAngle,
    /// `>`
    RAngle,

    // Quantifier parts
    /// Numeric literal in {n,m}
    Number,
    /// `,` in {n,m}
    Comma,

    // Whitespace/comments
    /// Whitespace (in IgnorePatternWhitespace mode)
    Whitespace,
    /// Comment: (?#...) or # in x-mode
    Comment,

    // Error recovery
    /// Error token
    Error,

    // ===========================
    // NODES (Non-terminals)
    // ===========================
    /// Root node containing the entire pattern
    Root,

    // Leaf node kinds (from C# RegexNodeKind)
    /// Single character match: `a`
    One,
    /// Negated single character: `[^a]` or `.`
    Notone,
    /// Character class: `[a-z]`
    ClassSet,
    /// Multi-character literal sequence: `abc`
    Multi,

    // Loop variants (greedy)
    /// `a*`
    Oneloop,
    /// `[^a]*`
    Notoneloop,
    /// `[a-z]*`
    Setloop,

    // Loop variants (lazy)
    /// `a*?`
    Onelazy,
    /// `[^a]*?`
    Notonelazy,
    /// `[a-z]*?`
    Setlazy,

    // Loop variants (atomic)
    /// `(?>a*)`
    Oneloopatomic,
    /// `(?>[^a]*)`
    Notoneloopatomic,
    /// `(?>[a-z]*)`
    Setloopatomic,

    /// Backreference: `\1`, `\k<name>`
    Backreference,

    // Anchors
    /// `^` in multiline mode
    Bol,
    /// `$` in multiline mode
    Eol,
    /// `\A` or `^` in singleline mode
    Beginning,
    /// `\z`
    End,
    /// `\Z` or `$` in singleline mode
    EndZ,
    /// `\G`
    Start,
    /// `\b`
    Boundary,
    /// `\B`
    NonBoundary,
    /// `\b` in ECMA mode
    ECMABoundary,
    /// `\B` in ECMA mode
    NonECMABoundary,

    // Special
    /// Zero-width match
    Empty,
    /// Never matches: `(?!)`
    Nothing,
    /// Internal optimization marker
    UpdateBumpalong,

    // Composite nodes
    /// Alternation: `a|b|c`
    Alternate,
    /// Concatenation: `abc`
    Concatenate,
    /// RE# conjunction: `a&b`
    Conjunction,
    /// RE# negation: `~a`
    Negation,

    // Quantified
    /// General loop: `(expr){n,m}`
    Loop,
    /// General lazy loop: `(expr){n,m}?`
    Lazyloop,

    // Groups
    /// Capturing group: `(expr)` or `(?<name>expr)`
    Capture,
    /// Non-capturing group: `(?:expr)`
    Group,
    /// Atomic group: `(?>expr)`
    Atomic,

    // Lookaround
    /// `(?=...)`
    PositiveLookahead,
    /// `(?<=...)`
    PositiveLookbehind,
    /// `(?!...)`
    NegativeLookahead,
    /// `(?<!...)`
    NegativeLookbehind,

    // Conditionals
    /// `(?(1)yes|no)`
    BackreferenceConditional,
    /// `(?(expr)yes|no)`
    ExpressionConditional,

    // Character class internals
    /// `[...]`
    CharClass,
    /// `[^...]`
    CharClassNegated,
    /// `a-z` inside class
    CharRange,

    /// Quantifier: `{n,m}` or `{n,}` or `{n}`
    Quantifier,

    /// Group modifiers: `(?imsxn-imsxn:...)`
    GroupModifiers,

    /// Named group: `<name>` or `'name'` part
    GroupName,
}

/// The position of `k` in the declaration of `SyntaxKind`.
pub open spec fn kind_index(k: SyntaxKind) -> nat {
    match k {
        SyntaxKind::Char => 0,
        SyntaxKind::EscapeSeq => 1,
        SyntaxKind::Pipe => 2,
        SyntaxKind::Ampersand => 3,
        SyntaxKind::Tilde => 4,
        SyntaxKind::Caret => 5,
        SyntaxKind::Dollar => 6,
        SyntaxKind::Dot => 7,
        SyntaxKind::Underscore => 8,
        SyntaxKind::Star => 9,
        SyntaxKind::Plus => 10,
        SyntaxKind::Question => 11,
        SyntaxKind::LParen => 12,
        SyntaxKind::RParen => 13,
        SyntaxKind::LBracket => 14,
        SyntaxKind::RBracket => 15,
        SyntaxKind::LBrace => 16,
        SyntaxKind::RBrace => 17,
        SyntaxKind::Backslash => 18,
        SyntaxKind::Hyphen => 19,
        SyntaxKind::Colon => 20,
        SyntaxKind::Equals => 21,
        SyntaxKind::Exclaim => 22,
        SyntaxKind::LAngle => 23,
        SyntaxKind::RAngle => 24,
        SyntaxKind::Number => 25,
        SyntaxKind::Comma => 26,
        SyntaxKind::Whitespace => 27,
        SyntaxKind::Comment => 28,
        SyntaxKind::Error => 29,
        SyntaxKind::Root => 30,
        SyntaxKind::One => 31,
        SyntaxKind::Notone => 32,
        SyntaxKind::ClassSet => 33,
        SyntaxKind::Multi => 34,
        SyntaxKind::Oneloop => 35,
        SyntaxKind::Notoneloop => 36,
        SyntaxKind::Setloop => 37,
        SyntaxKind::Onelazy => 38,
        SyntaxKind::Notonelazy => 39,
        SyntaxKind::Setlazy => 40,
        SyntaxKind::Oneloopatomic => 41,
        SyntaxKind::Notoneloopatomic => 42,
        SyntaxKind::Setloopatomic => 43,
        SyntaxKind::Backreference => 44,
        SyntaxKind::Bol => 45,
        SyntaxKind::Eol => 46,
        SyntaxKind::Beginning => 47,
        SyntaxKind::End => 48,
        SyntaxKind::EndZ => 49,
        SyntaxKind::Start => 50,
        SyntaxKind::Boundary => 51,
        SyntaxKind::NonBoundary => 52,
        SyntaxKind::ECMABoundary => 53,
        SyntaxKind::NonECMABoundary => 54,
        SyntaxKind::Empty => 55,
        SyntaxKind::Nothing => 56,
        SyntaxKind::UpdateBumpalong => 57,
        SyntaxKind::Alternate => 58,
        SyntaxKind::Concatenate => 59,
        SyntaxKind::Conjunction => 60,
        SyntaxKind::Negation => 61,
        SyntaxKind::Loop => 62,
        SyntaxKind::Lazyloop => 63,
        SyntaxKind::Capture => 64,
        SyntaxKind::Group => 65,
        SyntaxKind::Atomic => 66,
        SyntaxKind::PositiveLookahead => 67,
        SyntaxKind::PositiveLookbehind => 68,
        SyntaxKind::NegativeLookahead => 69,
        SyntaxKind::NegativeLookbehind => 70,
        SyntaxKind::BackreferenceConditional => 71,
        SyntaxKind::ExpressionConditional => 72,
        SyntaxKind::CharClass => 73,
        SyntaxKind::CharClassNegated => 74,
        SyntaxKind::CharRange => 75,
        SyntaxKind::Quantifier => 76,
        SyntaxKind::GroupModifiers => 77,
        SyntaxKind::GroupName => 78,
    }
}

/// The kind whose index is `i`; indices past the last kind give the last.
pub open spec fn kind_from_index(i: nat) -> SyntaxKind {
    if i == 0 {
        SyntaxKind::Char
    } else if i == 1 {
        SyntaxKind::EscapeSeq
    } else if i == 2 {
        SyntaxKind::Pipe
    } else if i == 3 {
        SyntaxKind::Ampersand
    } else if i == 4 {
        SyntaxKind::Tilde
    } else if i == 5 {
        SyntaxKind::Caret
    } else if i == 6 {
        SyntaxKind::Dollar
    } else if i == 7 {
        SyntaxKind::Dot
    } else if i == 8 {
        SyntaxKind::Underscore
    } else if i == 9 {
        SyntaxKind::Star
    } else if i == 10 {
        SyntaxKind::Plus
    } else if i == 11 {
        SyntaxKind::Question
    } else if i == 12 {
        SyntaxKind::LParen
    } else if i == 13 {
        SyntaxKind::RParen
    } else if i == 14 {
        SyntaxKind::LBracket
    } else if i == 15 {
        SyntaxKind::RBracket
    } else if i == 16 {
        SyntaxKind::LBrace
    } else if i == 17 {
        SyntaxKind::RBrace
    } else if i == 18 {
        SyntaxKind::Backslash
    } else if i == 19 {
        SyntaxKind::Hyphen
    } else if i == 20 {
        SyntaxKind::Colon
    } else if i == 21 {
        SyntaxKind::Equals
    } else if i == 22 {
        SyntaxKind::Exclaim
    } else if i == 23 {
        SyntaxKind::LAngle
    } else if i == 24 {
        SyntaxKind::RAngle
    } else if i == 25 {
        SyntaxKind::Number
    } else if i == 26 {
        SyntaxKind::Comma
    } else if i == 27 {
        SyntaxKind::Whitespace
    } else if i == 28 {
        SyntaxKind::Comment
    } else if i == 29 {
        SyntaxKind::Error
    } else if i == 30 {
        SyntaxKind::Root
    } else if i == 31 {
        SyntaxKind::One
    } else if i == 32 {
        SyntaxKind::Notone
    } else if i == 33 {
        SyntaxKind::ClassSet
    } else if i == 34 {
        SyntaxKind::Multi
    } else if i == 35 {
        SyntaxKind::Oneloop
    } else if i == 36 {
        SyntaxKind::Notoneloop
    } else if i == 37 {
        SyntaxKind::Setloop
    } else if i == 38 {
        SyntaxKind::Onelazy
    } else if i == 39 {
        SyntaxKind::Notonelazy
    } else if i == 40 {
        SyntaxKind::Setlazy
    } else if i == 41 {
        SyntaxKind::Oneloopatomic
    } else if i == 42 {
        SyntaxKind::Notoneloopatomic
    } else if i == 43 {
        SyntaxKind::Setloopatomic
    } else if i == 44 {
        SyntaxKind::Backreference
    } else if i == 45 {
        SyntaxKind::Bol
    } else if i == 46 {
        SyntaxKind::Eol
    } else if i == 47 {
        SyntaxKind::Beginning
    } else if i == 48 {
        SyntaxKind::End
    } else if i == 49 {
        SyntaxKind::EndZ
    } else if i == 50 {
        SyntaxKind::Start
    } else if i == 51 {
        SyntaxKind::Boundary
    } else if i == 52 {
        SyntaxKind::NonBoundary
    } else if i == 53 {
        SyntaxKind::ECMABoundary
    } else if i == 54 {
        SyntaxKind::NonECMABoundary
    } else if i == 55 {
        SyntaxKind::Empty
    } else if i == 56 {
        SyntaxKind::Nothing
    } else if i == 57 {
        SyntaxKind::UpdateBumpalong
    } else if i == 58 {
        SyntaxKind::Alternate
    } else if i == 59 {
        SyntaxKind::Concatenate
    } else if i == 60 {
        SyntaxKind::Conjunction
    } else if i == 61 {
        SyntaxKind::Negation
    } else if i == 62 {
        SyntaxKind::Loop
    } else if i == 63 {
        SyntaxKind::Lazyloop
    } else if i == 64 {
        SyntaxKind::Capture
    } else if i == 65 {
        SyntaxKind::Group
    } else if i == 66 {
        SyntaxKind::Atomic
    } else if i == 67 {
        SyntaxKind::PositiveLookahead
    } else if i == 68 {
        SyntaxKind::PositiveLookbehind
    } else if i == 69 {
        SyntaxKind::NegativeLookahead
    } else if i == 70 {
        SyntaxKind::NegativeLookbehind
    } else if i == 71 {
        SyntaxKind::BackreferenceConditional
    } else if i == 72 {
        SyntaxKind::ExpressionConditional
    } else if i == 73 {
        SyntaxKind::CharClass
    } else if i == 74 {
        SyntaxKind::CharClassNegated
    } else if i == 75 {
        SyntaxKind::CharRange
    } else if i == 76 {
        SyntaxKind::Quantifier
    } else if i == 77 {
        SyntaxKind::GroupModifiers
    } else {
        SyntaxKind::GroupName
    }
}

/// The index of the last kind.
pub open spec fn last_kind_index() -> nat {
    78
}

/// Every kind is the kind of its index.
pub proof fn lemma_kind_index_roundtrip(k: SyntaxKind)
    ensures
        kind_from_index(kind_index(k)) == k,
        kind_index(k) <= last_kind_index(),
{
}

/// The fixed text of the token kinds that always spell the same, as the
/// view of the literal that spells it.
pub open spec fn static_text_spec(k: SyntaxKind) -> Option<Seq<char>> {
    match k {
        SyntaxKind::Pipe => Some("|"@),
        SyntaxKind::Ampersand => Some("&"@),
        SyntaxKind::Tilde => Some("~"@),
        SyntaxKind::Caret => Some("^"@),
        SyntaxKind::Dollar => Some("$"@),
        SyntaxKind::Dot => Some("."@),
        SyntaxKind::Underscore => Some("_"@),
        SyntaxKind::Star => Some("*"@),
        SyntaxKind::Plus => Some("+"@),
        SyntaxKind::Question => Some("?"@),
        SyntaxKind::LParen => Some("("@),
        SyntaxKind::RParen => Some(")"@),
        SyntaxKind::LBracket => Some("["@),
        SyntaxKind::RBracket => Some("]"@),
        SyntaxKind::LBrace => Some("{"@),
        SyntaxKind::RBrace => Some("}"@),
        SyntaxKind::Backslash => Some("\\"@),
        SyntaxKind::Hyphen => Some("-"@),
        SyntaxKind::Colon => Some(":"@),
        SyntaxKind::Equals => Some("="@),
        SyntaxKind::Exclaim => Some("!"@),
        SyntaxKind::LAngle => Some("<"@),
        SyntaxKind::RAngle => Some(">"@),
        SyntaxKind::Comma => Some(","@),
        _ => None,
    }
}

/// Whether `k` is one of the anchor kinds.
pub open spec fn is_anchor_kind(k: SyntaxKind) -> bool {
    k == SyntaxKind::Bol
        || k == SyntaxKind::Eol
        || k == SyntaxKind::Beginning
        || k == SyntaxKind::End
        || k == SyntaxKind::EndZ
        || k == SyntaxKind::Start
        || k == SyntaxKind::Boundary
        || k == SyntaxKind::NonBoundary
        || k == SyntaxKind::ECMABoundary
        || k == SyntaxKind::NonECMABoundary
}

/// Whether `k` is one of the loop kinds.
pub open spec fn is_loop_kind(k: SyntaxKind) -> bool {
    k == SyntaxKind::Oneloop
        || k == SyntaxKind::Notoneloop
        || k == SyntaxKind::Setloop
        || k == SyntaxKind::Onelazy
        || k == SyntaxKind::Notonelazy
        || k == SyntaxKind::Setlazy
        || k == SyntaxKind::Oneloopatomic
        || k == SyntaxKind::Notoneloopatomic
        || k == SyntaxKind::Setloopatomic
        || k == SyntaxKind::Loop
        || k == SyntaxKind::Lazyloop
}

impl SyntaxKind {
    /// The raw number of this kind: its index among the kinds.
    pub fn into_raw(self) -> (r: u32)
        ensures
            r == kind_index(self),
    {
        match self {
            SyntaxKind::Char => 0,
            SyntaxKind::EscapeSeq => 1,
            SyntaxKind::Pipe => 2,
            SyntaxKind::Ampersand => 3,
            SyntaxKind::Tilde => 4,
            SyntaxKind::Caret => 5,
            SyntaxKind::Dollar => 6,
            SyntaxKind::Dot => 7,
            SyntaxKind::Underscore => 8,
            SyntaxKind::Star => 9,
            SyntaxKind::Plus => 10,
            SyntaxKind::Question => 11,
            SyntaxKind::LParen => 12,
            SyntaxKind::RParen => 13,
            SyntaxKind::LBracket => 14,
            SyntaxKind::RBracket => 15,
            SyntaxKind::LBrace => 16,
            SyntaxKind::RBrace => 17,
            SyntaxKind::Backslash => 18,
            SyntaxKind::Hyphen => 19,
            SyntaxKind::Colon => 20,
            SyntaxKind::Equals => 21,
            SyntaxKind::Exclaim => 22,
            SyntaxKind::LAngle => 23,
            SyntaxKind::RAngle => 24,
            SyntaxKind::Number => 25,
            SyntaxKind::Comma => 26,
            SyntaxKind::Whitespace => 27,
            SyntaxKind::Comment => 28,
            SyntaxKind::Error => 29,
            SyntaxKind::Root => 30,
            SyntaxKind::One => 31,
            SyntaxKind::Notone => 32,
            SyntaxKind::ClassSet => 33,
            SyntaxKind::Multi => 34,
            SyntaxKind::Oneloop => 35,
            SyntaxKind::Notoneloop => 36,
            SyntaxKind::Setloop => 37,
            SyntaxKind::Onelazy => 38,
            SyntaxKind::Notonelazy => 39,
            SyntaxKind::Setlazy => 40,
            SyntaxKind::Oneloopatomic => 41,
            SyntaxKind::Notoneloopatomic => 42,
            SyntaxKind::Setloopatomic => 43,
            SyntaxKind::Backreference => 44,
            SyntaxKind::Bol => 45,
            SyntaxKind::Eol => 46,
            SyntaxKind::Beginning => 47,
            SyntaxKind::End => 48,
            SyntaxKind::EndZ => 49,
            SyntaxKind::Start => 50,
            SyntaxKind::Boundary => 51,
            SyntaxKind::NonBoundary => 52,
            SyntaxKind::ECMABoundary => 53,
            SyntaxKind::NonECMABoundary => 54,
            SyntaxKind::Empty => 55,
            SyntaxKind::Nothing => 56,
            SyntaxKind::UpdateBumpalong => 57,
            SyntaxKind::Alternate => 58,
            SyntaxKind::Concatenate => 59,
            SyntaxKind::Conjunction => 60,
            SyntaxKind::Negation => 61,
            SyntaxKind::Loop => 62,
            SyntaxKind::Lazyloop => 63,
            SyntaxKind::Capture => 64,
            SyntaxKind::Group => 65,
            SyntaxKind::Atomic => 66,
            SyntaxKind::PositiveLookahead => 67,
            SyntaxKind::PositiveLookbehind => 68,
            SyntaxKind::NegativeLookahead => 69,
            SyntaxKind::NegativeLookbehind => 70,
            SyntaxKind::BackreferenceConditional => 71,
            SyntaxKind::ExpressionConditional => 72,
            SyntaxKind::CharClass => 73,
            SyntaxKind::CharClassNegated => 74,
            SyntaxKind::CharRange => 75,
            SyntaxKind::Quantifier => 76,
            SyntaxKind::GroupModifiers => 77,
            SyntaxKind::GroupName => 78,
        }
    }

    /// The kind with the raw number `raw`.
    pub fn from_raw(raw: u32) -> (r: SyntaxKind)
        requires
            raw <= last_kind_index(),
        ensures
            r == kind_from_index(raw as nat),
            kind_index(r) == raw,
    {
        match raw {
            0 => SyntaxKind::Char,
            1 => SyntaxKind::EscapeSeq,
            2 => SyntaxKind::Pipe,
            3 => SyntaxKind::Ampersand,
            4 => SyntaxKind::Tilde,
            5 => SyntaxKind::Caret,
            6 => SyntaxKind::Dollar,
            7 => SyntaxKind::Dot,
            8 => SyntaxKind::Underscore,
            9 => SyntaxKind::Star,
            10 => SyntaxKind::Plus,
            11 => SyntaxKind::Question,
            12 => SyntaxKind::LParen,
            13 => SyntaxKind::RParen,
            14 => SyntaxKind::LBracket,
            15 => SyntaxKind::RBracket,
            16 => SyntaxKind::LBrace,
            17 => SyntaxKind::RBrace,
            18 => SyntaxKind::Backslash,
            19 => SyntaxKind::Hyphen,
            20 => SyntaxKind::Colon,
            21 => SyntaxKind::Equals,
            22 => SyntaxKind::Exclaim,
            23 => SyntaxKind::LAngle,
            24 => SyntaxKind::RAngle,
            25 => SyntaxKind::Number,
            26 => SyntaxKind::Comma,
            27 => SyntaxKind::Whitespace,
            28 => SyntaxKind::Comment,
            29 => SyntaxKind::Error,
            30 => SyntaxKind::Root,
            31 => SyntaxKind::One,
            32 => SyntaxKind::Notone,
            33 => SyntaxKind::ClassSet,
            34 => SyntaxKind::Multi,
            35 => SyntaxKind::Oneloop,
            36 => SyntaxKind::Notoneloop,
            37 => SyntaxKind::Setloop,
            38 => SyntaxKind::Onelazy,
            39 => SyntaxKind::Notonelazy,
            40 => SyntaxKind::Setlazy,
            41 => SyntaxKind::Oneloopatomic,
            42 => SyntaxKind::Notoneloopatomic,
            43 => SyntaxKind::Setloopatomic,
            44 => SyntaxKind::Backreference,
            45 => SyntaxKind::Bol,
            46 => SyntaxKind::Eol,
            47 => SyntaxKind::Beginning,
            48 => SyntaxKind::End,
            49 => SyntaxKind::EndZ,
            50 => SyntaxKind::Start,
            51 => SyntaxKind::Boundary,
            52 => SyntaxKind::NonBoundary,
            53 => SyntaxKind::ECMABoundary,
            54 => SyntaxKind::NonECMABoundary,
            55 => SyntaxKind::Empty,
            56 => SyntaxKind::Nothing,
            57 => SyntaxKind::UpdateBumpalong,
            58 => SyntaxKind::Alternate,
            59 => SyntaxKind::Concatenate,
            60 => SyntaxKind::Conjunction,
            61 => SyntaxKind::Negation,
            62 => SyntaxKind::Loop,
            63 => SyntaxKind::Lazyloop,
            64 => SyntaxKind::Capture,
            65 => SyntaxKind::Group,
            66 => SyntaxKind::Atomic,
            67 => SyntaxKind::PositiveLookahead,
            68 => SyntaxKind::PositiveLookbehind,
            69 => SyntaxKind::NegativeLookahead,
            70 => SyntaxKind::NegativeLookbehind,
            71 => SyntaxKind::BackreferenceConditional,
            72 => SyntaxKind::ExpressionConditional,
            73 => SyntaxKind::CharClass,
            74 => SyntaxKind::CharClassNegated,
            75 => SyntaxKind::CharRange,
            76 => SyntaxKind::Quantifier,
            77 => SyntaxKind::GroupModifiers,
            _ => SyntaxKind::GroupName,
        }
    }

    /// The text of a token kind that always spells the same, if this is one.
    pub fn static_text(self) -> (r: Option<&'static str>)
        ensures
            match static_text_spec(self) {
                Some(t) => r matches Some(x) && x@ == t,
                None => r is None,
            },
    {
        match self {
            SyntaxKind::Pipe => Some("|"),
            SyntaxKind::Ampersand => Some("&"),
            SyntaxKind::Tilde => Some("~"),
            SyntaxKind::Caret => Some("^"),
            SyntaxKind::Dollar => Some("$"),
            SyntaxKind::Dot => Some("."),
            SyntaxKind::Underscore => Some("_"),
            SyntaxKind::Star => Some("*"),
            SyntaxKind::Plus => Some("+"),
            SyntaxKind::Question => Some("?"),
            SyntaxKind::LParen => Some("("),
            SyntaxKind::RParen => Some(")"),
            SyntaxKind::LBracket => Some("["),
            SyntaxKind::RBracket => Some("]"),
            SyntaxKind::LBrace => Some("{"),
            SyntaxKind::RBrace => Some("}"),
            SyntaxKind::Backslash => Some("\\"),
            SyntaxKind::Hyphen => Some("-"),
            SyntaxKind::Colon => Some(":"),
            SyntaxKind::Equals => Some("="),
            SyntaxKind::Exclaim => Some("!"),
            SyntaxKind::LAngle => Some("<"),
            SyntaxKind::RAngle => Some(">"),
            SyntaxKind::Comma => Some(","),
            _ => None,
        }
    }

    /// Returns true if this kind represents a leaf token.
    pub fn is_token(self) -> (r: bool)
        ensures
            r == (kind_index(self) < kind_index(SyntaxKind::Root)),
    {
        match self {
            SyntaxKind::Char => true,
            SyntaxKind::EscapeSeq => true,
            SyntaxKind::Pipe => true,
            SyntaxKind::Ampersand => true,
            SyntaxKind::Tilde => true,
            SyntaxKind::Caret => true,
            SyntaxKind::Dollar => true,
            SyntaxKind::Dot => true,
            SyntaxKind::Underscore => true,
            SyntaxKind::Star => true,
            SyntaxKind::Plus => true,
            SyntaxKind::Question => true,
            SyntaxKind::LParen => true,
            SyntaxKind::RParen => true,
            SyntaxKind::LBracket => true,
            SyntaxKind::RBracket => true,
            SyntaxKind::LBrace => true,
            SyntaxKind::RBrace => true,
            SyntaxKind::Backslash => true,
            SyntaxKind::Hyphen => true,
            SyntaxKind::Colon => true,
            SyntaxKind::Equals => true,
            SyntaxKind::Exclaim => true,
            SyntaxKind::LAngle => true,
            SyntaxKind::RAngle => true,
            SyntaxKind::Number => true,
            SyntaxKind::Comma => true,
            SyntaxKind::Whitespace => true,
            SyntaxKind::Comment => true,
            SyntaxKind::Error => true,
            _ => false,
        }
    }

    /// Returns true if this kind represents a composite node.
    pub fn is_node(self) -> (r: bool)
        ensures
            r == (kind_index(self) >= kind_index(SyntaxKind::Root)),
    {
        !self.is_token()
    }

    /// Returns true if this is an anchor kind.
    pub fn is_anchor(self) -> (r: bool)
        ensures
            r == is_anchor_kind(self),
    {
        match self {
            SyntaxKind::Bol => true,
            SyntaxKind::Eol => true,
            SyntaxKind::Beginning => true,
            SyntaxKind::End => true,
            SyntaxKind::EndZ => true,
            SyntaxKind::Start => true,
            SyntaxKind::Boundary => true,
            SyntaxKind::NonBoundary => true,
            SyntaxKind::ECMABoundary => true,
            SyntaxKind::NonECMABoundary => true,
            _ => false,
        }
    }

    /// Returns true if this is a loop kind.
    pub fn is_loop(self) -> (r: bool)
        ensures
            r == is_loop_kind(self),
    {
        match self {
            SyntaxKind::Oneloop => true,
            SyntaxKind::Notoneloop => true,
            SyntaxKind::Setloop => true,
            SyntaxKind::Onelazy => true,
            SyntaxKind::Notonelazy => true,
            SyntaxKind::Setlazy => true,
            SyntaxKind::Oneloopatomic => true,
            SyntaxKind::Notoneloopatomic => true,
            SyntaxKind::Setloopatomic => true,
            SyntaxKind::Loop => true,
            SyntaxKind::Lazyloop => true,
            _ => false,
        }
    }
}

/// Options that modify regex parsing and matching behavior: a set of flags
/// stored as bits of a `u32`.
#[derive(Debug, Clone, Copy, PartialEq, Eq, Structural, Hash)]
pub struct RegexOptions {
    /// The raw bits of the set.
    pub bits: u32,
}

impl RegexOptions {
    /// No options set.
    #[allow(non_snake_case)]
    pub fn NONE() -> (r: RegexOptions)
        ensures
            r.bits == 0,
    {
        RegexOptions { bits: 0x0000 }
    }

    /// Case-insensitive matching (i flag).
    #[allow(non_snake_case)]
    pub fn IGNORE_CASE() -> (r: RegexOptions)
        ensures
            r.bits == 0x0001,
    {
        RegexOptions { bits: 0x0001 }
    }

    /// Multi-line mode: ^ and $ match line boundaries (m flag).
    #[allow(non_snake_case)]
    pub fn MULTILINE() -> (r: RegexOptions)
        ensures
            r.bits == 0x0002,
    {
        RegexOptions { bits: 0x0002 }
    }

    /// Only named captures are valid (n flag).
    #[allow(non_snake_case)]
    pub fn EXPLICIT_CAPTURE() -> (r: RegexOptions)
        ensures
            r.bits == 0x0004,
    {
        RegexOptions { bits: 0x0004 }
    }

    /// Single-line mode: . matches newlines (s flag).
    #[allow(non_snake_case)]
    pub fn SINGLELINE() -> (r: RegexOptions)
        ensures
            r.bits == 0x0010,
    {
        RegexOptions { bits: 0x0010 }
    }

    /// Ignore whitespace and allow comments (x flag).
    #[allow(non_snake_case)]
    pub fn IGNORE_WHITESPACE() -> (r: RegexOptions)
        ensures
            r.bits == 0x0020,
    {
        RegexOptions { bits: 0x0020 }
    }

    /// Right-to-left matching mode.
    #[allow(non_snake_case)]
    pub fn RIGHT_TO_LEFT() -> (r: RegexOptions)
        ensures
            r.bits == 0x0040,
    {
        RegexOptions { bits: 0x0040 }
    }

    /// ECMAScript-compatible behavior.
    #[allow(non_snake_case)]
    pub fn ECMA_SCRIPT() -> (r: RegexOptions)
        ensures
            r.bits == 0x0100,
    {
        RegexOptions { bits: 0x0100 }
    }

    /// Culture-invariant matching.
    #[allow(non_snake_case)]
    pub fn CULTURE_INVARIANT() -> (r: RegexOptions)
        ensures
            r.bits == 0x0200,
    {
        RegexOptions { bits: 0x0200 }
    }

    /// Non-backtracking mode.
    #[allow(non_snake_case)]
    pub fn NON_BACKTRACKING() -> (r: RegexOptions)
        ensures
            r.bits == 0x0400,
    {
        RegexOptions { bits: 0x0400 }
    }

    /// RE# extension: node is negated.
    #[allow(non_snake_case)]
    pub fn NEGATED() -> (r: RegexOptions)
        ensures
            r.bits == 0x0800,
    {
        RegexOptions { bits: 0x0800 }
    }

    /// The empty set of options.
    pub fn empty() -> (r: RegexOptions)
        ensures
            r.bits == 0,
    {
        RegexOptions { bits: 0 }
    }

    /// The raw bits of the set.
    pub fn bits(&self) -> (r: u32)
        ensures
            r == self.bits,
    {
        self.bits
    }

    /// Whether every option of `other` is set in `self`.
    pub fn contains(&self, other: RegexOptions) -> (r: bool)
        ensures
            r == (self.bits & other.bits == other.bits),
    {
        self.bits & other.bits == other.bits
    }

    /// Sets every option of `other` in `self`.
    pub fn insert(&mut self, other: RegexOptions)
        ensures
            final(self).bits == old(self).bits | other.bits,
    {
        self.bits = self.bits | other.bits;
    }
}

impl core::ops::BitOr for RegexOptions {
    type Output = RegexOptions;

    /// The union of two option sets.
    fn bitor(self, rhs: RegexOptions) -> (r: RegexOptions) {
        RegexOptions { bits: self.bits | rhs.bits }
    }
}

impl vstd::std_specs::ops::BitOrSpecImpl for RegexOptions {
    open spec fn obeys_bitor_spec() -> bool {
        true
    }

    open spec fn bitor_req(self, rhs: RegexOptions) -> bool {
        true
    }

    open spec fn bitor_spec(self, rhs: RegexOptions) -> RegexOptions {
        RegexOptions { bits: self.bits | rhs.bits }
    }
}

// ---------------------------------------------------------------------------
// The concrete syntax tree, as the sequence of its events in pre-order.
// ---------------------------------------------------------------------------

/// One event of a syntax tree written out in pre-order: a node starts, a
/// token with its text, or the innermost open node finishes.
#[derive(Debug, Clone)]
pub enum CstEvent {
    Start(SyntaxKind),
    Token(SyntaxKind, String),
    Finish,
}

/// The mathematical model of a `CstEvent`: a token's text is a sequence of
/// characters.
pub enum SpecEvent {
    Start(SyntaxKind),
    Token(SyntaxKind, Seq<char>),
    Finish,
}

impl View for CstEvent {
    type V = SpecEvent;

    open spec fn view(&self) -> SpecEvent {
        match self {
            CstEvent::Start(k) => SpecEvent::Start(*k),
            CstEvent::Token(k, t) => SpecEvent::Token(*k, t@),
            CstEvent::Finish => SpecEvent::Finish,
        }
    }
}

/// The events of a vector of events.
pub open spec fn events_view(v: Seq<CstEvent>) -> Seq<SpecEvent> {
    v.map_values(|e: CstEvent| e@)
}

/// The kind of the node whose events are `s`; `Error` where `s` does not
/// start a node.
pub open spec fn node_kind(s: Seq<SpecEvent>) -> SyntaxKind {
    if s.len() > 0 && s[0] is Start {
        s[0]->Start_0
    } else {
        SyntaxKind::Error
    }
}

/// The child nodes of a node whose events are `s`, from index `i` on:
/// `depth` counts the nodes open within the node at `i`, and `start` is where
/// the child being read began. Tokens directly within the node are skipped;
/// the last event, the node's own finish, is not read.
pub open spec fn children_from(s: Seq<SpecEvent>, i: int, depth: int, start: int) -> Seq<Seq<SpecEvent>>
    decreases s.len() - i,
{
    if i < 1 || i >= s.len() - 1 {
        Seq::empty()
    } else {
        match s[i] {
            SpecEvent::Start(_) => if depth == 0 {
                children_from(s, i + 1, 1, i)
            } else {
                children_from(s, i + 1, depth + 1, start)
            },
            SpecEvent::Finish => if depth == 1 {
                seq![s.subrange(start, i + 1)] + children_from(s, i + 1, 0, start)
            } else if depth == 0 {
                Seq::empty()
            } else {
                children_from(s, i + 1, depth - 1, start)
            },
            SpecEvent::Token(_, _) => children_from(s, i + 1, depth, start),
        }
    }
}

/// The child nodes of the node whose events are `s`, in order.
pub open spec fn children_spec(s: Seq<SpecEvent>) -> Seq<Seq<SpecEvent>> {
    children_from(s, 1, 0, 0)
}

/// Every child read from `i` on is shorter than the node.
pub proof fn lemma_children_from_shorter(s: Seq<SpecEvent>, i: int, depth: int, start: int)
    requires
        depth > 0 ==> 1 <= start <= i,
    ensures
        forall|j: int|
            0 <= j < children_from(s, i, depth, start).len() ==> (#[trigger] children_from(
                s,
                i,
                depth,
                start,
            )[j]).len() < s.len(),
    decreases s.len() - i,
{
    if i < 1 || i >= s.len() - 1 {
    } else {
        match s[i] {
            SpecEvent::Start(_) => if depth == 0 {
                lemma_children_from_shorter(s, i + 1, 1, i);
                assert(children_from(s, i, depth, start) == children_from(s, i + 1, 1, i));
            } else {
                lemma_children_from_shorter(s, i + 1, depth + 1, start);
                assert(children_from(s, i, depth, start) == children_from(s, i + 1, depth + 1, start));
            },
            SpecEvent::Finish => if depth == 1 {
                lemma_children_from_shorter(s, i + 1, 0, start);
                let rest = children_from(s, i + 1, 0, start);
                assert forall|j: int|
                    0 <= j < children_from(s, i, depth, start).len() implies (#[trigger] children_from(
                    s,
                    i,
                    depth,
                    start,
                )[j]).len() < s.len() by {
                    if j > 0 {
                        assert(children_from(s, i, depth, start)[j] == rest[j - 1]);
                    }
                }
            } else if depth == 0 {
            } else {
                lemma_children_from_shorter(s, i + 1, depth - 1, start);
                assert(children_from(s, i, depth, start) == children_from(s, i + 1, depth - 1, start));
            },
            SpecEvent::Token(_, _) => {
                lemma_children_from_shorter(s, i + 1, depth, start);
                assert(children_from(s, i, depth, start) == children_from(s, i + 1, depth, start));
            },
        }
    }
}

/// A copy of an event.
fn copy_event(e: &CstEvent) -> (r: CstEvent)
    ensures
        r@ == e@,
{
    match e {
        CstEvent::Start(k) => CstEvent::Start(*k),
        CstEvent::Token(k, t) => CstEvent::Token(*k, t.clone()),
        CstEvent::Finish => CstEvent::Finish,
    }
}

/// A copy of the events `v[from..to]`.
fn copy_events(v: &Vec<CstEvent>, from: usize, to: usize) -> (r: Vec<CstEvent>)
    requires
        from <= to <= v.len(),
    ensures
        events_view(r@) == events_view(v@).subrange(from as int, to as int),
{
    let mut r: Vec<CstEvent> = Vec::new();
    let mut i: usize = from;
    while i < to
        invariant
            from <= i <= to <= v.len(),
            r@.len() == i - from,
            forall|k: int| 0 <= k < r@.len() ==> (#[trigger] r@[k])@ == v@[from + k]@,
        decreases to - i,
    {
        let e = copy_event(&v[i]);
        r.push(e);
        i = i + 1;
    }
    assert(events_view(r@) =~= events_view(v@).subrange(from as int, to as int));
    r
}

/// A green tree: the events of its root node.
#[derive(Debug, Clone)]
pub struct GreenNode {
    events: Vec<CstEvent>,
}

impl View for GreenNode {
    type V = Seq<SpecEvent>;

    closed spec fn view(&self) -> Seq<SpecEvent> {
        events_view(self.events@)
    }
}

impl GreenNode {
    /// A green tree with the given events.
    pub fn from_events(events: Vec<CstEvent>) -> (r: GreenNode)
        ensures
            r@ == events_view(events@),
    {
        GreenNode { events }
    }
}

/// A node of a syntax tree: the events of the node and of everything within it.
#[derive(Debug, Clone)]
pub struct SyntaxNode {
    events: Vec<CstEvent>,
}

impl View for SyntaxNode {
    type V = Seq<SpecEvent>;

    closed spec fn view(&self) -> Seq<SpecEvent> {
        events_view(self.events@)
    }
}

impl SyntaxNode {
    /// The root node of a green tree.
    pub fn new_root(green: GreenNode) -> (r: SyntaxNode)
        ensures
            r@ == green@,
    {
        SyntaxNode { events: green.events }
    }

    /// The kind of this node.
    pub fn kind(&self) -> (r: SyntaxKind)
        ensures
            r == node_kind(self@),
    {
        if self.events.len() > 0 {
            match &self.events[0] {
                CstEvent::Start(k) => {
                    return *k;
                },
                _ => {},
            }
        }
        SyntaxKind::Error
    }

    /// A copy of this node.
    pub fn copy(&self) -> (r: SyntaxNode)
        ensures
            r@ == self@,
    {
        let n = self.events.len();
        let events = copy_events(&self.events, 0, n);
        proof {
            assert(events_view(self.events@).subrange(0, n as int) =~= events_view(self.events@));
        }
        SyntaxNode { events }
    }

    /// The child nodes of this node, in order.
    pub fn children(&self) -> (r: Vec<SyntaxNode>)
        ensures
            r@.len() == children_spec(self@).len(),
            forall|j: int| 0 <= j < r@.len() ==> (#[trigger] r@[j])@ == children_spec(self@)[j],
    {
        let ghost s = self@;
        let n = self.events.len();
        let mut result: Vec<SyntaxNode> = Vec::new();
        let ghost mut done: Seq<Seq<SpecEvent>> = Seq::empty();
        let mut i: usize = 1;
        let mut depth: usize = 0;
        let mut start: usize = 0;
        while n > 0 && i < n - 1
            invariant
                s == self@,
                n == s.len(),
                1 <= i <= n || n < 2,
                depth <= i,
                depth > 0 ==> 1 <= start < i,
                done + children_from(s, i as int, depth as int, start as int) == children_spec(s),
                done.len() == result@.len(),
                forall|j: int| 0 <= j < result@.len() ==> (#[trigger] result@[j])@ == done[j],
            decreases n - i,
        {
            match &self.events[i] {
                CstEvent::Start(_) => {
                    if depth == 0 {
                        start = i;
                    }
                    depth = depth + 1;
                },
                CstEvent::Finish => {
                    if depth == 1 {
                        let events = copy_events(&self.events, start, i + 1);
                        let child = SyntaxNode { events };
                        proof {
                            let c = s.subrange(start as int, i + 1);
                            assert(child@ == c);
                            assert(done.push(c) + children_from(s, i + 1, 0, start as int) =~= done
                                + children_from(s, i as int, depth as int, start as int));
                            done = done.push(c);
                        }
                        result.push(child);
                        depth = 0;
                    } else if depth == 0 {
                        proof {
                            assert(done + children_from(s, i as int, 0, start as int) =~= done);
                            assert(children_spec(s) =~= done + children_from(s, (n - 1) as int, 0, start as int));
                        }
                        i = n - 1;
                        continue;
                    } else {
                        depth = depth - 1;
                    }
                },
                CstEvent::Token(_, _) => {},
            }
            i = i + 1;
        }
        proof {
            assert(done + children_from(s, i as int, depth as int, start as int) =~= done);
        }
        result
    }
}

} // verus!
