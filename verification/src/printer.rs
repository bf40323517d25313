//! Pretty printer for regex nodes.
//!
//! `print_spec` says, for every node of an arena, which text the printer
//! gives for it; `PrettyPrinter::print` produces exactly that text.
use vstd::prelude::*;
use crate::node::{arena_wf, children_below, epsilon_id, nothing_id, top_star_id, NodeId, RegexNode, RegexNodeArena, SpecInfo, SpecNode};

verus! {

/// Appends `c` to `buffer` (`String::push`).
#[verifier::external_body]
pub(crate) fn push_char(buffer: &mut String, c: char)
    ensures
        final(buffer)@ == old(buffer)@.push(c),
{
    buffer.push(c);
}

/// Trait for displaying character sets in regex syntax.
pub trait CharSetDisplay {
    /// The text of the character set.
    spec fn spec_fmt_charset(&self) -> Seq<char>;

    /// Format the character set to the buffer.
    fn fmt_charset(&self, buffer: &mut String)
        ensures
            final(buffer)@ == old(buffer)@ + self.spec_fmt_charset(),
    ;
}

/// A bit set of character classes prints as a placeholder, `φ`.
impl CharSetDisplay for u64 {
    open spec fn spec_fmt_charset(&self) -> Seq<char> {
        seq!['φ']
    }

    fn fmt_charset(&self, buffer: &mut String) {
        push_char(buffer, 'φ');
    }
}

/// Whether `c` is a character that regex syntax gives a meaning to.
pub open spec fn is_syntax_char(c: char) -> bool {
    c == '\\' || c == '|' || c == '&' || c == '~' || c == '(' || c == ')' || c == '[' || c == ']'
        || c == '{' || c == '}' || c == '*' || c == '+' || c == '?' || c == '.' || c == '^' || c
        == '$'
}

/// The text of a single character: syntax characters are escaped with a
/// backslash, and newline, carriage return and tab are written as escapes.
pub open spec fn char_text(c: char) -> Seq<char> {
    if is_syntax_char(c) {
        seq!['\\', c]
    } else if c == '\n' {
        seq!['\\', 'n']
    } else if c == '\r' {
        seq!['\\', 'r']
    } else if c == '\t' {
        seq!['\\', 't']
    } else {
        seq![c]
    }
}

impl CharSetDisplay for char {
    open spec fn spec_fmt_charset(&self) -> Seq<char> {
        char_text(*self)
    }

    fn fmt_charset(&self, buffer: &mut String) {
        let c = *self;
        if c == '\\' || c == '|' || c == '&' || c == '~' || c == '(' || c == ')' || c == '['
            || c == ']' || c == '{' || c == '}' || c == '*' || c == '+' || c == '?' || c == '.'
            || c == '^' || c == '$' {
            push_char(buffer, '\\');
            push_char(buffer, c);
        } else if c == '\n' {
            push_char(buffer, '\\');
            push_char(buffer, 'n');
        } else if c == '\r' {
            push_char(buffer, '\\');
            push_char(buffer, 'r');
        } else if c == '\t' {
            push_char(buffer, '\\');
            push_char(buffer, 't');
        } else {
            push_char(buffer, c);
        }
    }
}

/// The decimal digit `d`.
pub open spec fn digit_char(d: nat) -> char {
    if d == 0 {
        '0'
    } else if d == 1 {
        '1'
    } else if d == 2 {
        '2'
    } else if d == 3 {
        '3'
    } else if d == 4 {
        '4'
    } else if d == 5 {
        '5'
    } else if d == 6 {
        '6'
    } else if d == 7 {
        '7'
    } else if d == 8 {
        '8'
    } else {
        '9'
    }
}

/// The decimal notation of `n`, without leading zeros.
pub open spec fn decimal(n: nat) -> Seq<char>
    decreases n,
{
    if n < 10 {
        seq![digit_char(n)]
    } else {
        decimal(n / 10).push(digit_char(n % 10))
    }
}

/// The text `(?!)` that stands for the pattern that matches nothing.
pub open spec fn nothing_text() -> Seq<char> {
    seq!['(', '?', '!', ')']
}

/// `text` within parentheses where `parens` holds.
pub open spec fn wrap(parens: bool, text: Seq<char>) -> Seq<char> {
    if parens {
        seq!['('] + text + seq![')']
    } else {
        text
    }
}

/// The quantifier that follows a loop with bounds `low` and `high`.
pub open spec fn loop_suffix(low: u32, high: u32) -> Seq<char> {
    if low == 0 && high == u32::MAX {
        seq!['*']
    } else if low == 1 && high == u32::MAX {
        seq!['+']
    } else if low == 0 && high == 1 {
        seq!['?']
    } else if low == high {
        seq!['{'] + decimal(low as nat) + seq!['}']
    } else if high == u32::MAX {
        seq!['{'] + decimal(low as nat) + seq![',', '}']
    } else {
        seq!['{'] + decimal(low as nat) + seq![','] + decimal(high as nat) + seq!['}']
    }
}

/// The opening text of a lookaround.
pub open spec fn lookaround_prefix(look_back: bool, negative: bool) -> Seq<char> {
    if !look_back && !negative {
        seq!['(', '?', '=']
    } else if !look_back && negative {
        seq!['(', '?', '!']
    } else if look_back && !negative {
        seq!['(', '?', '<', '=']
    } else {
        seq!['(', '?', '<', '!']
    }
}

/// Whether node `id` of `a` is a concatenation, an alternation or an
/// intersection, which a loop puts in parentheses.
pub open spec fn is_compound<T>(a: Seq<SpecInfo<T>>, id: NodeId) -> bool {
    (id.0 as int) < a.len() && (a[id.0 as int].node is Concat || a[id.0 as int].node is Or
        || a[id.0 as int].node is And)
}

/// Whether node `id` of `a` is a singleton, which a negation does not put in
/// parentheses.
pub open spec fn is_singleton_node<T>(a: Seq<SpecInfo<T>>, id: NodeId) -> bool {
    (id.0 as int) < a.len() && a[id.0 as int].node is Singleton
}

/// The text of node `id` of arena `a`; `in_concat` tells whether the node is
/// a part of a concatenation, where an alternation needs parentheses.
pub open spec fn print_spec<T: CharSetDisplay>(a: Seq<SpecInfo<T>>, id: NodeId, in_concat: bool) -> Seq<char>
    decreases id.0, 1nat, 0nat,
{
    if id == epsilon_id() {
        Seq::empty()
    } else if id == nothing_id() {
        nothing_text()
    } else if id == top_star_id() {
        seq!['_', '*']
    } else if (id.0 as int) >= a.len() {
        Seq::empty()
    } else {
        match a[id.0 as int].node {
            SpecNode::Concat { head, tail } => {
                if head.0 < id.0 && tail.0 < id.0 {
                    print_spec(a, head, true) + print_spec(a, tail, true)
                } else {
                    Seq::empty()
                }
            },
            SpecNode::Or { nodes } => {
                if nodes.len() == 0 {
                    nothing_text()
                } else {
                    wrap(in_concat, join_spec(a, nodes, '|', id))
                }
            },
            SpecNode::And { nodes } => {
                if nodes.len() == 0 {
                    seq!['_', '*']
                } else {
                    wrap(in_concat || nodes.len() > 1, join_spec(a, nodes, '&', id))
                }
            },
            SpecNode::Singleton(cs) => cs.spec_fmt_charset(),
            SpecNode::Loop { node, low, high, lazy } => {
                if node.0 < id.0 {
                    wrap(is_compound(a, node), print_spec(a, node, false)) + loop_suffix(low, high)
                        + if lazy {
                        seq!['?']
                    } else {
                        Seq::empty()
                    }
                } else {
                    Seq::empty()
                }
            },
            SpecNode::Not { inner } => {
                if inner.0 < id.0 {
                    seq!['~'] + wrap(!is_singleton_node(a, inner), print_spec(a, inner, false))
                } else {
                    Seq::empty()
                }
            },
            SpecNode::LookAround { inner, look_back, negative } => {
                if inner.0 < id.0 {
                    lookaround_prefix(look_back, negative) + print_spec(a, inner, false) + seq![')']
                } else {
                    Seq::empty()
                }
            },
            SpecNode::Begin => seq!['^'],
            SpecNode::End => seq!['$'],
        }
    }
}

/// The texts of `nodes`, children of node `bound`, separated by `sep`.
pub open spec fn join_spec<T: CharSetDisplay>(a: Seq<SpecInfo<T>>, nodes: Seq<NodeId>, sep: char, bound: NodeId) -> Seq<char>
    decreases bound.0, 0nat, nodes.len(),
{
    if nodes.len() == 0 {
        Seq::empty()
    } else {
        let last = nodes.last();
        let item = if last.0 < bound.0 {
            print_spec(a, last, false)
        } else {
            Seq::empty()
        };
        if nodes.len() == 1 {
            item
        } else {
            join_spec(a, nodes.drop_last(), sep, bound).push(sep) + item
        }
    }
}

/// Pretty printer for regex nodes.
pub struct PrettyPrinter<'a, T> {
    arena: &'a RegexNodeArena<T>,
    buffer: String,
}

/// Appends the decimal notation of `n`.
fn push_decimal(buffer: &mut String, n: u32)
    ensures
        final(buffer)@ == old(buffer)@ + decimal(n as nat),
    decreases n,
{
    if n >= 10 {
        push_decimal(buffer, n / 10);
    }
    let d = n % 10;
    let c = if d == 0 {
        '0'
    } else if d == 1 {
        '1'
    } else if d == 2 {
        '2'
    } else if d == 3 {
        '3'
    } else if d == 4 {
        '4'
    } else if d == 5 {
        '5'
    } else if d == 6 {
        '6'
    } else if d == 7 {
        '7'
    } else if d == 8 {
        '8'
    } else {
        '9'
    };
    push_char(buffer, c);
}

impl<'a, T: CharSetDisplay + Clone + Default> PrettyPrinter<'a, T> {
    /// The arena the printer reads.
    pub closed spec fn spec_arena(&self) -> Seq<SpecInfo<T>> {
        self.arena@
    }

    /// Create a new pretty printer for the given arena.
    pub fn new(arena: &'a RegexNodeArena<T>) -> (r: Self)
        ensures
            r.spec_arena() == arena@,
    {
        Self { arena, buffer: String::new() }
    }

    /// Print a node to a string.
    pub fn print(&mut self, id: NodeId) -> (r: String)
        requires
            arena_wf(old(self).spec_arena()),
        ensures
            r@ == print_spec(old(self).spec_arena(), id, false),
            final(self).spec_arena() == old(self).spec_arena(),
    {
        self.buffer = String::new();
        self.print_node(id, false);
        let mut out = String::new();
        core::mem::swap(&mut out, &mut self.buffer);
        out
    }

    fn push_nothing(&mut self)
        ensures
            final(self).buffer@ == old(self).buffer@ + nothing_text(),
            final(self).arena == old(self).arena,
    {
        push_char(&mut self.buffer, '(');
        push_char(&mut self.buffer, '?');
        push_char(&mut self.buffer, '!');
        push_char(&mut self.buffer, ')');
        assert(self.buffer@ =~= old(self).buffer@ + nothing_text());
    }

    fn push_top_star(&mut self)
        ensures
            final(self).buffer@ == old(self).buffer@ + seq!['_', '*'],
            final(self).arena == old(self).arena,
    {
        push_char(&mut self.buffer, '_');
        push_char(&mut self.buffer, '*');
        assert(self.buffer@ =~= old(self).buffer@ + seq!['_', '*']);
    }

    fn push_loop_suffix(&mut self, low: u32, high: u32)
        ensures
            final(self).buffer@ == old(self).buffer@ + loop_suffix(low, high),
            final(self).arena == old(self).arena,
    {
        if low == 0 && high == u32::MAX {
            push_char(&mut self.buffer, '*');
        } else if low == 1 && high == u32::MAX {
            push_char(&mut self.buffer, '+');
        } else if low == 0 && high == 1 {
            push_char(&mut self.buffer, '?');
        } else if low == high {
            push_char(&mut self.buffer, '{');
            push_decimal(&mut self.buffer, low);
            push_char(&mut self.buffer, '}');
        } else if high == u32::MAX {
            push_char(&mut self.buffer, '{');
            push_decimal(&mut self.buffer, low);
            push_char(&mut self.buffer, ',');
            push_char(&mut self.buffer, '}');
        } else {
            push_char(&mut self.buffer, '{');
            push_decimal(&mut self.buffer, low);
            push_char(&mut self.buffer, ',');
            push_decimal(&mut self.buffer, high);
            push_char(&mut self.buffer, '}');
        }
        assert(self.buffer@ =~= old(self).buffer@ + loop_suffix(low, high));
    }

    fn push_lookaround_prefix(&mut self, look_back: bool, negative: bool)
        ensures
            final(self).buffer@ == old(self).buffer@ + lookaround_prefix(look_back, negative),
            final(self).arena == old(self).arena,
    {
        push_char(&mut self.buffer, '(');
        push_char(&mut self.buffer, '?');
        if look_back {
            push_char(&mut self.buffer, '<');
        }
        if negative {
            push_char(&mut self.buffer, '!');
        } else {
            push_char(&mut self.buffer, '=');
        }
        assert(self.buffer@ =~= old(self).buffer@ + lookaround_prefix(look_back, negative));
    }

    fn print_node(&mut self, id: NodeId, in_concat: bool)
        requires
            arena_wf(old(self).arena@),
        ensures
            final(self).buffer@ == old(self).buffer@ + print_spec(old(self).arena@, id, in_concat),
            final(self).arena == old(self).arena,
        decreases id.0, 1nat, 0nat,
    {
        let ghost a = self.arena@;
        // Handle special nodes
        if id == NodeId::EPSILON() {
            // Empty pattern - print nothing
            assert(self.buffer@ =~= old(self).buffer@ + print_spec(a, id, in_concat));
            return;
        }
        if id == NodeId::NOTHING() {
            self.push_nothing();
            return;
        }
        if id == NodeId::TOP_STAR() {
            self.push_top_star();
            return;
        }
        let arena = self.arena;
        let info = match arena.get(id) {
            Some(info) => info,
            None => {
                assert(self.buffer@ =~= old(self).buffer@ + print_spec(a, id, in_concat));
                return;
            },
        };
        proof {
            if id.0 >= 4 {
                assert(children_below(a[id.0 as int].node, id.0 as int));
            }
        }
        match &info.node {
            RegexNode::Concat { head, tail } => {
                self.print_node(*head, true);
                self.print_node(*tail, true);
                assert(self.buffer@ =~= old(self).buffer@ + print_spec(a, id, in_concat));
            },
            RegexNode::Or { nodes } => {
                if nodes.len() == 0 {
                    self.push_nothing();
                } else {
                    self.print_list(nodes, '|', id, in_concat);
                }
            },
            RegexNode::And { nodes } => {
                if nodes.len() == 0 {
                    self.push_top_star();
                } else {
                    self.print_list(nodes, '&', id, in_concat || nodes.len() > 1);
                }
            },
            RegexNode::Singleton(charset) => {
                charset.fmt_charset(&mut self.buffer);
            },
            RegexNode::Loop { node, low, high, lazy } => {
                self.print_loop(*node, *low, *high, *lazy, id);
            },
            RegexNode::Not { inner } => {
                self.print_not(*inner, id);
            },
            RegexNode::LookAround { inner, look_back, negative } => {
                self.push_lookaround_prefix(*look_back, *negative);
                self.print_node(*inner, false);
                push_char(&mut self.buffer, ')');
                assert(self.buffer@ =~= old(self).buffer@ + print_spec(a, id, in_concat));
            },
            RegexNode::Begin => {
                push_char(&mut self.buffer, '^');
                assert(self.buffer@ =~= old(self).buffer@ + print_spec(a, id, in_concat));
            },
            RegexNode::End => {
                push_char(&mut self.buffer, '$');
                assert(self.buffer@ =~= old(self).buffer@ + print_spec(a, id, in_concat));
            },
        }
    }

    fn print_list(&mut self, nodes: &Vec<NodeId>, sep: char, id: NodeId, needs_parens: bool)
        requires
            arena_wf(old(self).arena@),
            forall|j: int| 0 <= j < nodes.len() ==> #[trigger] nodes@[j].0 < id.0,
        ensures
            final(self).buffer@ == old(self).buffer@ + wrap(needs_parens, join_spec(old(self).arena@, nodes@, sep, id)),
            final(self).arena == old(self).arena,
        decreases id.0, 0nat, nodes.len() + 2,
    {
        if needs_parens {
            push_char(&mut self.buffer, '(');
        }
        self.print_children(nodes, sep, id);
        if needs_parens {
            push_char(&mut self.buffer, ')');
        }
        assert(self.buffer@ =~= old(self).buffer@ + wrap(needs_parens, join_spec(old(self).arena@, nodes@, sep, id)));
    }

    fn print_loop(&mut self, node: NodeId, low: u32, high: u32, lazy: bool, id: NodeId)
        requires
            arena_wf(old(self).arena@),
            node.0 < id.0,
        ensures
            final(self).buffer@ == old(self).buffer@ + (wrap(is_compound(old(self).arena@, node), print_spec(old(self).arena@, node, false))
                + loop_suffix(low, high) + if lazy {
                seq!['?']
            } else {
                Seq::empty()
            }),
            final(self).arena == old(self).arena,
        decreases id.0, 0nat, 0nat,
    {
        let arena = self.arena;
        let needs_parens = match arena.node(node) {
            Some(RegexNode::Concat { .. }) => true,
            Some(RegexNode::Or { .. }) => true,
            Some(RegexNode::And { .. }) => true,
            _ => false,
        };
        if needs_parens {
            push_char(&mut self.buffer, '(');
        }
        self.print_node(node, false);
        if needs_parens {
            push_char(&mut self.buffer, ')');
        }
        self.push_loop_suffix(low, high);
        if lazy {
            push_char(&mut self.buffer, '?');
        }
        assert(self.buffer@ =~= old(self).buffer@ + (wrap(is_compound(old(self).arena@, node), print_spec(old(self).arena@, node, false))
                + loop_suffix(low, high) + if lazy {
                seq!['?']
            } else {
                Seq::empty()
            }));
    }

    fn print_not(&mut self, inner: NodeId, id: NodeId)
        requires
            arena_wf(old(self).arena@),
            inner.0 < id.0,
        ensures
            final(self).buffer@ == old(self).buffer@ + (seq!['~'] + wrap(!is_singleton_node(old(self).arena@, inner), print_spec(old(self).arena@, inner, false))),
            final(self).arena == old(self).arena,
        decreases id.0, 0nat, 0nat,
    {
        let arena = self.arena;
        push_char(&mut self.buffer, '~');
        let needs_parens = match arena.node(inner) {
            Some(RegexNode::Singleton(_)) => false,
            _ => true,
        };
        if needs_parens {
            push_char(&mut self.buffer, '(');
        }
        self.print_node(inner, false);
        if needs_parens {
            push_char(&mut self.buffer, ')');
        }
        assert(self.buffer@ =~= old(self).buffer@ + (seq!['~'] + wrap(!is_singleton_node(old(self).arena@, inner), print_spec(old(self).arena@, inner, false))));
    }

    fn print_children(&mut self, nodes: &Vec<NodeId>, sep: char, id: NodeId)
        requires
            arena_wf(old(self).arena@),
            forall|j: int| 0 <= j < nodes.len() ==> #[trigger] nodes@[j].0 < id.0,
        ensures
            final(self).buffer@ == old(self).buffer@ + join_spec(old(self).arena@, nodes@, sep, id),
            final(self).arena == old(self).arena,
        decreases id.0, 0nat, nodes.len() + 1,
    {
        let ghost a = self.arena@;
        let mut i: usize = 0;
        assert(nodes@.take(0) =~= Seq::<NodeId>::empty());
        while i < nodes.len()
            invariant
                i <= nodes.len(),
                self.arena == old(self).arena,
                a == self.arena@,
                arena_wf(a),
                forall|j: int| 0 <= j < nodes.len() ==> #[trigger] nodes@[j].0 < id.0,
                self.buffer@ == old(self).buffer@ + join_spec(a, nodes@.take(i as int), sep, id),
            decreases nodes.len() - i,
        {
            let ghost before = self.buffer@;
            if i > 0 {
                push_char(&mut self.buffer, sep);
            }
            self.print_node(nodes[i], false);
            proof {
                let pre = nodes@.take(i as int);
                let post = nodes@.take(i + 1);
                assert(post.drop_last() =~= pre);
                assert(post.last() == nodes@[i as int]);
            }
            i = i + 1;
            assert(self.buffer@ =~= old(self).buffer@ + join_spec(a, nodes@.take(i as int), sep, id));
        }
        assert(nodes@.take(nodes.len() as int) =~= nodes@);
    }
}

/// Whether node `n` of `a` is an alternation of at least one part.
pub open spec fn is_alternation<T>(a: Seq<SpecInfo<T>>, n: NodeId) -> bool {
    &&& 4 <= n.0 < a.len()
    &&& (a[n.0 as int].node matches SpecNode::Or { nodes } && nodes.len() > 0)
}

/// An alternation that is a part of a concatenation is printed as its own
/// text in parentheses, so that the printed concatenation does not read as
/// an alternation of longer parts: `(a|b)c`, not `a|bc`.
pub proof fn lemma_alternation_in_concat<T: CharSetDisplay>(
    a: Seq<SpecInfo<T>>,
    id: NodeId,
    head: NodeId,
    tail: NodeId,
    in_concat: bool,
)
    requires
        4 <= id.0 < a.len(),
        a[id.0 as int].node == (SpecNode::<T>::Concat { head, tail }),
        head.0 < id.0,
        tail.0 < id.0,
    ensures
        is_alternation(a, head) ==> print_spec(a, id, in_concat) == seq!['('] + print_spec(a, head, false) + seq![
            ')',
        ] + print_spec(a, tail, true),
        is_alternation(a, tail) ==> print_spec(a, id, in_concat) == print_spec(a, head, true) + seq!['(']
            + print_spec(a, tail, false) + seq![')'],
{
    assert(print_spec(a, id, in_concat) == print_spec(a, head, true) + print_spec(a, tail, true));
    if is_alternation(a, head) {
        assert(print_spec(a, head, true) == seq!['('] + print_spec(a, head, false) + seq![')']);
    }
    if is_alternation(a, tail) {
        assert(print_spec(a, tail, true) == seq!['('] + print_spec(a, tail, false) + seq![')']);
    }
}

/// The operand of a loop that is a concatenation, an alternation or an
/// intersection is printed as its own text in parentheses before the
/// quantifier: `(ab)*`, not `ab*`.
pub proof fn lemma_loop_operand_in_parens<T: CharSetDisplay>(
    a: Seq<SpecInfo<T>>,
    id: NodeId,
    node: NodeId,
    low: u32,
    high: u32,
    lazy: bool,
    in_concat: bool,
)
    requires
        4 <= id.0 < a.len(),
        a[id.0 as int].node == (SpecNode::<T>::Loop { node, low, high, lazy }),
        node.0 < id.0,
        is_compound(a, node),
    ensures
        print_spec(a, id, in_concat).take(print_spec(a, node, false).len() + 2int) == seq!['('] + print_spec(
            a,
            node,
            false,
        ) + seq![')'],
{
    let t = seq!['('] + print_spec(a, node, false) + seq![')'];
    let rest = loop_suffix(low, high) + if lazy {
        seq!['?']
    } else {
        Seq::<char>::empty()
    };
    assert(print_spec(a, id, in_concat) =~= t + rest);
    assert((t + rest).take(t.len() as int) =~= t);
}

/// The operand of a negation that is not a single set is printed as its own
/// text in parentheses: `~(ab)`, not `~ab`.
pub proof fn lemma_negation_operand_in_parens<T: CharSetDisplay>(
    a: Seq<SpecInfo<T>>,
    id: NodeId,
    inner: NodeId,
    in_concat: bool,
)
    requires
        4 <= id.0 < a.len(),
        a[id.0 as int].node == (SpecNode::<T>::Not { inner }),
        inner.0 < id.0,
        !is_singleton_node(a, inner),
    ensures
        print_spec(a, id, in_concat) == seq!['~', '('] + print_spec(a, inner, false) + seq![')'],
{
    assert(print_spec(a, id, in_concat) =~= seq!['~', '('] + print_spec(a, inner, false) + seq![')']);
}

/// An alternation of two parts is printed as their texts joined by `|`, in
/// parentheses when it is part of a concatenation, and an intersection of
/// two parts as their texts joined by `&`, always in parentheses.
pub proof fn lemma_binary_print<T: CharSetDisplay>(a: Seq<SpecInfo<T>>, id: NodeId, x: NodeId, y: NodeId, in_concat: bool)
    requires
        4 <= id.0 < a.len(),
        x.0 < id.0,
        y.0 < id.0,
    ensures
        a[id.0 as int].node == (SpecNode::<T>::Or { nodes: seq![x, y] }) ==> print_spec(a, id, in_concat) == wrap(
            in_concat,
            print_spec(a, x, false) + seq!['|'] + print_spec(a, y, false),
        ),
        a[id.0 as int].node == (SpecNode::<T>::And { nodes: seq![x, y] }) ==> print_spec(a, id, in_concat)
            == seq!['('] + print_spec(a, x, false) + seq!['&'] + print_spec(a, y, false) + seq![')'],
{
    let nodes = seq![x, y];
    assert(nodes.drop_last() =~= seq![x]);
    assert(seq![x].drop_last() =~= Seq::<NodeId>::empty());
    reveal_with_fuel(join_spec, 3);
    assert(join_spec(a, seq![x], '|', id) == print_spec(a, x, false));
    assert(join_spec(a, nodes, '|', id) =~= print_spec(a, x, false) + seq!['|'] + print_spec(a, y, false));
    assert(join_spec(a, seq![x], '&', id) == print_spec(a, x, false));
    assert(join_spec(a, nodes, '&', id) =~= print_spec(a, x, false) + seq!['&'] + print_spec(a, y, false));
    assert(seq!['('] + (print_spec(a, x, false) + seq!['&'] + print_spec(a, y, false)) + seq![')'] =~= seq!['(']
        + print_spec(a, x, false) + seq!['&'] + print_spec(a, y, false) + seq![')']);
}

} // verus!
