//! The languages of regex nodes.
//!
//! `lang` gives the words each node of an arena of bit sets matches. A word
//! is a sequence of classes (bit sets), and a singleton over `s` matches the
//! one-letter words whose class `s` contains, as the bit set solver's
//! `contains` says. The four pre-allocated nodes match what they stand for:
//! `ε` the empty word, `⊥` nothing, `.` any one letter and `_*` every word.
//!
//! The fragment of `frag_arena` leaves out only anchors and lookarounds,
//! whose words depend on the position. The normalizations that can change
//! a language are ruled out where they are applied (see `builder_lang` and
//! `derivative_lang`): merging singletons or comparing stars with the
//! placeholder set of `.`, merging loops in a union across a gap in their
//! iteration counts, and flattening a loop over a loop where the iteration
//! counts leave a gap (`nest_exact`). Letters are classes that every
//! singleton set of the arena holds whole or not at all (`letter_ok`), as
//! the minterms of those sets are.
use vstd::prelude::*;
use crate::flags::has_bits;
use crate::node::{
    and_flags, and_step, concat_flags, flags_at, loop_flags, mk_info, not_flags, or_flags, or_step,
    any_id, arena_wf, children_below, epsilon_id, nothing_id, top_star_id, NodeId, SpecInfo, SpecNode,
};
use crate::derivative::decr;

verus! {

/// Whether the set `s` holds the class `x` whole or not at all.
pub open spec fn class_atomic(x: u64, s: u64) -> bool {
    x & s == x || x & s == 0
}

/// Whether `x` is a letter for arena `a`: a non-empty class that the set of
/// every singleton of `a` (but the placeholder set of `.`) holds whole or not
/// at all, as a minterm of those sets is.
pub open spec fn letter_ok(a: Seq<SpecInfo<u64>>, x: u64) -> bool {
    &&& x != 0
    &&& forall|i: int|
        0 <= i < a.len() && i != 2 ==> match (#[trigger] a[i]).node {
            SpecNode::Singleton(s) => class_atomic(x, s),
            _ => true,
        }
}

/// Whether every element of `w` is a letter for arena `a`.
pub open spec fn letters_ok(a: Seq<SpecInfo<u64>>, w: Seq<u64>) -> bool {
    forall|i: int| 0 <= i < w.len() ==> letter_ok(a, #[trigger] w[i])
}

/// Whether node `id` of arena `a` matches the word `w`.
pub open spec fn lang(a: Seq<SpecInfo<u64>>, id: NodeId, w: Seq<u64>) -> bool
    decreases id.0, w.len(), 3nat, 0nat,
{
    if id == epsilon_id() {
        w.len() == 0
    } else if id == nothing_id() {
        false
    } else if id == any_id() {
        w.len() == 1
    } else if id == top_star_id() {
        true
    } else if (id.0 as int) >= a.len() {
        false
    } else {
        match a[id.0 as int].node {
            SpecNode::Singleton(s) => w.len() == 1 && s & w[0] == w[0],
            SpecNode::Concat { head, tail } => head.0 < id.0 && tail.0 < id.0 && concat_split(
                a,
                head,
                tail,
                w,
                0,
                id,
            ),
            SpecNode::Or { nodes } => any_lang(a, nodes, w, id),
            SpecNode::And { nodes } => all_lang(a, nodes, w, id),
            SpecNode::Not { inner } => inner.0 < id.0 && !lang(a, inner, w),
            SpecNode::Loop { node, low, high, .. } => node.0 < id.0 && loop_lang(
                a,
                node,
                low,
                high,
                w,
                id,
            ),
            _ => false,
        }
    }
}

/// Whether `w` splits, at `i` or later, into a word of `head` and a word of
/// `tail` (children of node `bound`).
pub open spec fn concat_split(
    a: Seq<SpecInfo<u64>>,
    head: NodeId,
    tail: NodeId,
    w: Seq<u64>,
    i: int,
    bound: NodeId,
) -> bool
    decreases bound.0, w.len(), 1nat, w.len() + 1 - i,
{
    if i < 0 || i > w.len() || head.0 >= bound.0 || tail.0 >= bound.0 {
        false
    } else if lang(a, head, w.take(i)) && lang(a, tail, w.skip(i)) {
        true
    } else {
        concat_split(a, head, tail, w, i + 1, bound)
    }
}

/// Whether one of `nodes` (children of node `bound`) matches `w`.
pub open spec fn any_lang(a: Seq<SpecInfo<u64>>, nodes: Seq<NodeId>, w: Seq<u64>, bound: NodeId) -> bool
    decreases bound.0, w.len(), 1nat, nodes.len(),
{
    if nodes.len() == 0 {
        false
    } else if any_lang(a, nodes.drop_last(), w, bound) {
        true
    } else {
        nodes.last().0 < bound.0 && lang(a, nodes.last(), w)
    }
}

/// Whether all of `nodes` (children of node `bound`) match `w`.
pub open spec fn all_lang(a: Seq<SpecInfo<u64>>, nodes: Seq<NodeId>, w: Seq<u64>, bound: NodeId) -> bool
    decreases bound.0, w.len(), 1nat, nodes.len(),
{
    if nodes.len() == 0 {
        true
    } else if !all_lang(a, nodes.drop_last(), w, bound) {
        false
    } else {
        nodes.last().0 < bound.0 && lang(a, nodes.last(), w)
    }
}

/// Whether `w` is a word of `r{low,high}` (the loop node `bound` over `r`):
/// the empty word where no iteration is required or `r` matches it, else a
/// non-empty word of `r` followed by a word of the loop with one iteration
/// fewer.
pub open spec fn loop_lang(a: Seq<SpecInfo<u64>>, r: NodeId, low: u32, high: u32, w: Seq<u64>, bound: NodeId) -> bool
    decreases bound.0, w.len(), 2nat, 0nat,
{
    if r.0 >= bound.0 || low > high {
        false
    } else if w.len() == 0 {
        low == 0 || lang(a, r, w)
    } else if high == 0 {
        false
    } else {
        loop_split(a, r, low, high, w, 1, bound)
    }
}

/// Whether the non-empty word `w` splits, at `i` or later (`i >= 1`), into a
/// non-empty word of `r` and a word of `r{low-1,high-1}`.
pub open spec fn loop_split(
    a: Seq<SpecInfo<u64>>,
    r: NodeId,
    low: u32,
    high: u32,
    w: Seq<u64>,
    i: int,
    bound: NodeId,
) -> bool
    decreases bound.0, w.len(), 1nat, w.len() + 1 - i,
{
    if i < 1 || i > w.len() || r.0 >= bound.0 {
        false
    } else if lang(a, r, w.take(i)) && loop_lang(a, r, decr(low), decr(high), w.skip(i), bound) {
        true
    } else {
        loop_split(a, r, low, high, w, i + 1, bound)
    }
}

/// Whether `n` is a node of the fragment on which the derivative is
/// studied: no anchor or lookaround, and a loop, of any bounds, over a node
/// of the arena.
pub open spec fn frag_node(a: Seq<SpecInfo<u64>>, n: SpecNode<u64>) -> bool {
    match n {
        SpecNode::Concat { .. } => true,
        SpecNode::Or { .. } => true,
        SpecNode::And { .. } => true,
        SpecNode::Singleton(_) => true,
        SpecNode::Loop { node, low, high, .. } => low <= high && 1 <= high && body_ok(a, node),
        SpecNode::Not { .. } => true,
        _ => false,
    }
}

/// Whether `r` is a node of `a`.
pub open spec fn body_ok(a: Seq<SpecInfo<u64>>, r: NodeId) -> bool {
    r.0 < a.len()
}

/// Whether the normalized loop `r{low,high}` keeps the words of the loop:
/// `r` is a node of `a`, and where it is a loop past the pre-allocated
/// nodes, flattening it is exact (`nest_exact`, or its body matches the
/// empty word, when every count fits), the products of the bounds
/// stay below `u32::MAX`, and so on down to the innermost body.
pub open spec fn flatten_ok(a: Seq<SpecInfo<u64>>, r: NodeId, low: u32, high: u32) -> bool
    decreases r.0,
{
    &&& body_ok(a, r)
    &&& r.0 >= 4 ==> match a[r.0 as int].node {
        SpecNode::Loop { node: x, low: l2, high: h2, .. } => {
            &&& x.0 < r.0
            &&& l2 <= h2
            &&& 1 <= h2
            &&& l2 * low < u32::MAX
            &&& (h2 == u32::MAX || high == u32::MAX || h2 * high < u32::MAX)
            &&& (nest_exact(l2, h2, low, high) || lang(a, x, Seq::empty()))
            &&& flatten_ok(a, x, (l2 * low) as u32, flat_high(h2, high))
        },
        _ => true,
    }
}

/// Whether every node of `a` past the pre-allocated ones is in the fragment.
pub open spec fn frag_arena(a: Seq<SpecInfo<u64>>) -> bool {
    forall|i: int| 4 <= i < a.len() ==> #[trigger] frag_node(a, a[i].node)
}

/// `b` extends `a`: it holds `a` as a prefix.
pub open spec fn extends(a: Seq<SpecInfo<u64>>, b: Seq<SpecInfo<u64>>) -> bool {
    a.len() <= b.len() && b.take(a.len() as int) == a
}

/// Extending a well formed arena keeps the languages of its nodes.
pub proof fn lemma_lang_extend(a: Seq<SpecInfo<u64>>, b: Seq<SpecInfo<u64>>, id: NodeId, w: Seq<u64>)
    requires
        arena_wf(a),
        extends(a, b),
        (id.0 as int) < a.len(),
    ensures
        lang(b, id, w) == lang(a, id, w),
    decreases id.0, w.len(), 3nat, 0nat,
{
    if id.0 >= 4 {
        assert(b[id.0 as int] == b.take(a.len() as int)[id.0 as int]);
        assert(children_below(a[id.0 as int].node, id.0 as int));
        match a[id.0 as int].node {
            SpecNode::Concat { head, tail } => {
                lemma_concat_split_extend(a, b, head, tail, w, 0, id);
            },
            SpecNode::Or { nodes } => {
                lemma_any_lang_extend(a, b, nodes, w, id);
            },
            SpecNode::And { nodes } => {
                lemma_all_lang_extend(a, b, nodes, w, id);
            },
            SpecNode::Not { inner } => {
                lemma_lang_extend(a, b, inner, w);
            },
            SpecNode::Loop { node, low, high, .. } => {
                lemma_loop_lang_extend(a, b, node, low, high, w, id);
            },
            _ => {},
        }
    }
}

proof fn lemma_concat_split_extend(
    a: Seq<SpecInfo<u64>>,
    b: Seq<SpecInfo<u64>>,
    head: NodeId,
    tail: NodeId,
    w: Seq<u64>,
    i: int,
    bound: NodeId,
)
    requires
        arena_wf(a),
        extends(a, b),
        (bound.0 as int) < a.len(),
    ensures
        concat_split(b, head, tail, w, i, bound) == concat_split(a, head, tail, w, i, bound),
    decreases bound.0, w.len(), 1nat, w.len() + 1 - i,
{
    if 0 <= i <= w.len() && head.0 < bound.0 && tail.0 < bound.0 {
        lemma_lang_extend(a, b, head, w.take(i));
        lemma_lang_extend(a, b, tail, w.skip(i));
        lemma_concat_split_extend(a, b, head, tail, w, i + 1, bound);
    }
}

proof fn lemma_any_lang_extend(a: Seq<SpecInfo<u64>>, b: Seq<SpecInfo<u64>>, nodes: Seq<NodeId>, w: Seq<u64>, bound: NodeId)
    requires
        arena_wf(a),
        extends(a, b),
        (bound.0 as int) < a.len(),
    ensures
        any_lang(b, nodes, w, bound) == any_lang(a, nodes, w, bound),
    decreases bound.0, w.len(), 1nat, nodes.len(),
{
    if nodes.len() > 0 {
        lemma_any_lang_extend(a, b, nodes.drop_last(), w, bound);
        if nodes.last().0 < bound.0 {
            lemma_lang_extend(a, b, nodes.last(), w);
        }
    }
}

proof fn lemma_all_lang_extend(a: Seq<SpecInfo<u64>>, b: Seq<SpecInfo<u64>>, nodes: Seq<NodeId>, w: Seq<u64>, bound: NodeId)
    requires
        arena_wf(a),
        extends(a, b),
        (bound.0 as int) < a.len(),
    ensures
        all_lang(b, nodes, w, bound) == all_lang(a, nodes, w, bound),
    decreases bound.0, w.len(), 1nat, nodes.len(),
{
    if nodes.len() > 0 {
        lemma_all_lang_extend(a, b, nodes.drop_last(), w, bound);
        if nodes.last().0 < bound.0 {
            lemma_lang_extend(a, b, nodes.last(), w);
        }
    }
}

/// Extending a well formed arena keeps the words of a loop over one of its
/// nodes.
pub proof fn lemma_loop_lang_extend(
    a: Seq<SpecInfo<u64>>,
    b: Seq<SpecInfo<u64>>,
    r: NodeId,
    low: u32,
    high: u32,
    w: Seq<u64>,
    bound: NodeId,
)
    requires
        arena_wf(a),
        extends(a, b),
        (r.0 as int) < a.len(),
    ensures
        loop_lang(b, r, low, high, w, bound) == loop_lang(a, r, low, high, w, bound),
    decreases bound.0, w.len(), 2nat, 0nat,
{
    if r.0 < bound.0 && low <= high {
        if w.len() == 0 {
            lemma_lang_extend(a, b, r, w);
        } else if high != 0 {
            lemma_loop_split_extend(a, b, r, low, high, w, 1, bound);
        }
    }
}

proof fn lemma_loop_split_extend(
    a: Seq<SpecInfo<u64>>,
    b: Seq<SpecInfo<u64>>,
    r: NodeId,
    low: u32,
    high: u32,
    w: Seq<u64>,
    i: int,
    bound: NodeId,
)
    requires
        arena_wf(a),
        extends(a, b),
        (r.0 as int) < a.len(),
    ensures
        loop_split(b, r, low, high, w, i, bound) == loop_split(a, r, low, high, w, i, bound),
    decreases bound.0, w.len(), 1nat, w.len() + 1 - i,
{
    if 1 <= i <= w.len() && r.0 < bound.0 {
        lemma_lang_extend(a, b, r, w.take(i));
        lemma_loop_lang_extend(a, b, r, decr(low), decr(high), w.skip(i), bound);
        lemma_loop_split_extend(a, b, r, low, high, w, i + 1, bound);
    }
}

/// How the nullability bits of flags combine.
proof fn lemma_nullable_bits()
    by (bit_vector)
    ensures
        forall|h: u8, t: u8|
            #![trigger concat_flags(h, t)]
            has_bits(concat_flags(h, t), 1u8) == (has_bits(h, 1u8) && has_bits(t, 1u8)) && has_bits(
                concat_flags(h, t),
                2u8,
            ) == (has_bits(h, 2u8) && has_bits(t, 2u8)),
        forall|acc: u8, f: u8|
            #![trigger or_step(acc, f)]
            has_bits(or_step(acc, f), 1u8) == (has_bits(acc, 1u8) || has_bits(f, 1u8)) && has_bits(
                or_step(acc, f),
                2u8,
            ) == (has_bits(acc, 2u8) || has_bits(f, 2u8)),
        forall|acc: u8, f: u8|
            #![trigger and_step(acc, f)]
            has_bits(and_step(acc, f), 1u8) == (has_bits(acc, 1u8) && has_bits(f, 1u8)) && has_bits(
                and_step(acc, f),
                2u8,
            ) == (has_bits(acc, 2u8) && has_bits(f, 2u8)),
        forall|f: u8, low: u32|
            #![trigger loop_flags(f, low)]
            has_bits(loop_flags(f, low), 1u8) == (low == 0 || has_bits(f, 1u8)) && has_bits(
                loop_flags(f, low),
                2u8,
            ) == (low == 0 || has_bits(f, 2u8)),
        forall|f: u8|
            #![trigger not_flags(f)]
            (has_bits(f, 1u8) == has_bits(f, 2u8)) ==> has_bits(not_flags(f), 1u8) == !has_bits(f, 1u8)
                && has_bits(not_flags(f), 2u8) == !has_bits(f, 1u8),
        has_bits(0u8, 1u8) == false,
        has_bits(0u8, 2u8) == false,
        has_bits(3u8, 1u8),
        has_bits(3u8, 2u8),
{
}

/// In a fragment arena the two nullability bits of a node agree, and say
/// whether it matches the empty word.
pub proof fn lemma_flags_lang(a: Seq<SpecInfo<u64>>, id: NodeId)
    requires
        arena_wf(a),
        frag_arena(a),
        (id.0 as int) < a.len(),
    ensures
        has_bits(flags_at(a, id), 1u8) == lang(a, id, Seq::empty()),
        has_bits(flags_at(a, id), 2u8) == lang(a, id, Seq::empty()),
    decreases id.0, 1nat, 0nat,
{
    lemma_nullable_bits();
    let e = Seq::<u64>::empty();
    if id.0 >= 4 {
        let i = id.0 as int;
        let n = a[i].node;
        let t = a.take(i);
        assert(children_below(n, i) && a[i] == mk_info(t, n));
        assert(frag_node(a, n));
        assert forall|c: NodeId| (c.0 as int) < i implies #[trigger] flags_at(t, c) == flags_at(a, c) by {}
        match n {
            SpecNode::Concat { head, tail } => {
                lemma_flags_lang(a, head);
                lemma_flags_lang(a, tail);
                assert(flags_at(t, head) == flags_at(a, head));
                assert(flags_at(t, tail) == flags_at(a, tail));
                assert(e.take(0) =~= e && e.skip(0) =~= e);
                assert(!concat_split(a, head, tail, e, 1, id));
                assert(concat_split(a, head, tail, e, 0, id) == (lang(a, head, e) && lang(a, tail, e)));
                assert(has_bits(flags_at(a, id), 1u8) == lang(a, id, e));
            },
            SpecNode::Or { nodes } => {
                lemma_or_flags_lang(a, nodes, id);
                assert(has_bits(flags_at(a, id), 1u8) == lang(a, id, e));
            },
            SpecNode::And { nodes } => {
                lemma_and_flags_lang(a, nodes, id);
                assert(has_bits(flags_at(a, id), 1u8) == lang(a, id, e));
            },
            SpecNode::Not { inner } => {
                lemma_flags_lang(a, inner);
                assert(flags_at(t, inner) == flags_at(a, inner));
                assert(has_bits(flags_at(a, id), 1u8) == lang(a, id, e));
            },
            SpecNode::Loop { node, low, high, .. } => {
                lemma_flags_lang(a, node);
                assert(flags_at(t, node) == flags_at(a, node));
                assert(low <= high);
                assert(loop_lang(a, node, low, high, e, id) == (low == 0 || lang(a, node, e)));
                assert(flags_at(a, id) == loop_flags(flags_at(a, node), low));
                assert(has_bits(flags_at(a, id), 1u8) == lang(a, id, e));
            },
            _ => {
                assert(has_bits(flags_at(a, id), 1u8) == lang(a, id, e));
            },
        }
    } else {
        assert(has_bits(flags_at(a, id), 1u8) == lang(a, id, e));
    }
}

proof fn lemma_or_flags_lang(a: Seq<SpecInfo<u64>>, nodes: Seq<NodeId>, bound: NodeId)
    requires
        arena_wf(a),
        frag_arena(a),
        4 <= bound.0 < a.len(),
        forall|i: int| 0 <= i < nodes.len() ==> #[trigger] nodes[i].0 < bound.0,
    ensures
        has_bits(or_flags(a.take(bound.0 as int), nodes), 1u8) == any_lang(a, nodes, Seq::empty(), bound),
        has_bits(or_flags(a.take(bound.0 as int), nodes), 2u8) == any_lang(a, nodes, Seq::empty(), bound),
    decreases bound.0, 0nat, nodes.len(),
{
    lemma_nullable_bits();
    if nodes.len() > 0 {
        let t = a.take(bound.0 as int);
        lemma_or_flags_lang(a, nodes.drop_last(), bound);
        lemma_flags_lang(a, nodes.last());
        assert(flags_at(t, nodes.last()) == flags_at(a, nodes.last()));
    }
}

proof fn lemma_and_flags_lang(a: Seq<SpecInfo<u64>>, nodes: Seq<NodeId>, bound: NodeId)
    requires
        arena_wf(a),
        frag_arena(a),
        4 <= bound.0 < a.len(),
        forall|i: int| 0 <= i < nodes.len() ==> #[trigger] nodes[i].0 < bound.0,
    ensures
        has_bits(and_flags(a.take(bound.0 as int), nodes), 1u8) == all_lang(a, nodes, Seq::empty(), bound),
        has_bits(and_flags(a.take(bound.0 as int), nodes), 2u8) == all_lang(a, nodes, Seq::empty(), bound),
    decreases bound.0, 0nat, nodes.len(),
{
    lemma_nullable_bits();
    if nodes.len() > 0 {
        let t = a.take(bound.0 as int);
        lemma_and_flags_lang(a, nodes.drop_last(), bound);
        lemma_flags_lang(a, nodes.last());
        assert(flags_at(t, nodes.last()) == flags_at(a, nodes.last()));
    }
}

/// In a fragment arena, a node is nullable (at any location) exactly when
/// it matches the empty word.
pub proof fn lemma_nullable_lang(a: Seq<SpecInfo<u64>>, loc: crate::derivative::LocationKind, id: NodeId)
    requires
        arena_wf(a),
        frag_arena(a),
        (id.0 as int) < a.len(),
    ensures
        crate::derivative::nullable_spec(a, loc, id) == lang(a, id, Seq::empty()),
{
    lemma_flags_lang(a, id);
}

/// The words of a concatenation of `head` and `tail`.
pub open spec fn concat_lang(a: Seq<SpecInfo<u64>>, head: NodeId, tail: NodeId, w: Seq<u64>) -> bool {
    exists|i: int| 0 <= i <= w.len() && #[trigger] lang(a, head, w.take(i)) && lang(a, tail, w.skip(i))
}

/// A split at `j` shows a split search from `i <= j`.
proof fn lemma_concat_split_intro(
    a: Seq<SpecInfo<u64>>,
    head: NodeId,
    tail: NodeId,
    w: Seq<u64>,
    i: int,
    j: int,
    bound: NodeId,
)
    requires
        0 <= i <= j <= w.len(),
        head.0 < bound.0,
        tail.0 < bound.0,
        lang(a, head, w.take(j)),
        lang(a, tail, w.skip(j)),
    ensures
        concat_split(a, head, tail, w, i, bound),
    decreases j - i,
{
    if i < j && !(lang(a, head, w.take(i)) && lang(a, tail, w.skip(i))) {
        lemma_concat_split_intro(a, head, tail, w, i + 1, j, bound);
    }
}

/// A successful split search from `i` has a split at some `j >= i`.
proof fn lemma_concat_split_elim(a: Seq<SpecInfo<u64>>, head: NodeId, tail: NodeId, w: Seq<u64>, i: int, bound: NodeId) -> (j: int)
    requires
        concat_split(a, head, tail, w, i, bound),
    ensures
        i <= j <= w.len(),
        lang(a, head, w.take(j)),
        lang(a, tail, w.skip(j)),
    decreases w.len() + 1 - i,
{
    if lang(a, head, w.take(i)) && lang(a, tail, w.skip(i)) {
        i
    } else {
        lemma_concat_split_elim(a, head, tail, w, i + 1, bound)
    }
}

/// A concatenation node's words are those of `concat_lang`.
pub proof fn lemma_concat_node_lang(a: Seq<SpecInfo<u64>>, id: NodeId, head: NodeId, tail: NodeId, w: Seq<u64>)
    requires
        4 <= id.0 < a.len(),
        a[id.0 as int].node == (SpecNode::<u64>::Concat { head, tail }),
        head.0 < id.0,
        tail.0 < id.0,
    ensures
        lang(a, id, w) == concat_lang(a, head, tail, w),
{
    if lang(a, id, w) {
        let j = lemma_concat_split_elim(a, head, tail, w, 0, id);
        assert(lang(a, head, w.take(j)));
    }
    if concat_lang(a, head, tail, w) {
        let j = choose|j: int| 0 <= j <= w.len() && #[trigger] lang(a, head, w.take(j)) && lang(a, tail, w.skip(j));
        lemma_concat_split_intro(a, head, tail, w, 0, j, id);
    }
}

/// A split at `j` shows a loop split search from `1 <= i <= j`.
proof fn lemma_loop_split_intro(
    a: Seq<SpecInfo<u64>>,
    r: NodeId,
    low: u32,
    high: u32,
    w: Seq<u64>,
    i: int,
    j: int,
    bound: NodeId,
)
    requires
        1 <= i <= j <= w.len(),
        r.0 < bound.0,
        lang(a, r, w.take(j)),
        loop_lang(a, r, decr(low), decr(high), w.skip(j), bound),
    ensures
        loop_split(a, r, low, high, w, i, bound),
    decreases j - i,
{
    if i < j && !(lang(a, r, w.take(i)) && loop_lang(a, r, decr(low), decr(high), w.skip(i), bound)) {
        lemma_loop_split_intro(a, r, low, high, w, i + 1, j, bound);
    }
}

/// A successful loop split search from `i` has a split at some `j >= i`.
proof fn lemma_loop_split_elim(
    a: Seq<SpecInfo<u64>>,
    r: NodeId,
    low: u32,
    high: u32,
    w: Seq<u64>,
    i: int,
    bound: NodeId,
) -> (j: int)
    requires
        loop_split(a, r, low, high, w, i, bound),
    ensures
        1 <= i <= j <= w.len(),
        lang(a, r, w.take(j)),
        loop_lang(a, r, decr(low), decr(high), w.skip(j), bound),
    decreases w.len() + 1 - i,
{
    if lang(a, r, w.take(i)) && loop_lang(a, r, decr(low), decr(high), w.skip(i), bound) {
        i
    } else {
        lemma_loop_split_elim(a, r, low, high, w, i + 1, bound)
    }
}

/// The words of the loop `r{low,high}` (node `bound`): the empty word where
/// no iteration is needed or `r` matches it; a non-empty word where it splits
/// into a non-empty word of `r` and a word of `r{low-1,high-1}`.
pub open spec fn loop_words(a: Seq<SpecInfo<u64>>, r: NodeId, low: u32, high: u32, w: Seq<u64>, bound: NodeId) -> bool {
    if w.len() == 0 {
        low == 0 || lang(a, r, w)
    } else {
        high != 0 && exists|j: int|
            1 <= j <= w.len() && #[trigger] lang(a, r, w.take(j)) && loop_lang(
                a,
                r,
                decr(low),
                decr(high),
                w.skip(j),
                bound,
            )
    }
}

/// `loop_lang` unfolds to `loop_words`.
pub proof fn lemma_loop_lang_unfold(a: Seq<SpecInfo<u64>>, r: NodeId, low: u32, high: u32, w: Seq<u64>, bound: NodeId)
    requires
        r.0 < bound.0,
        low <= high,
    ensures
        loop_lang(a, r, low, high, w, bound) == loop_words(a, r, low, high, w, bound),
{
    if w.len() > 0 && high != 0 {
        if loop_lang(a, r, low, high, w, bound) {
            let j = lemma_loop_split_elim(a, r, low, high, w, 1, bound);
            assert(lang(a, r, w.take(j)));
        }
        if loop_words(a, r, low, high, w, bound) {
            let j = choose|j: int|
                1 <= j <= w.len() && #[trigger] lang(a, r, w.take(j)) && loop_lang(
                    a,
                    r,
                    decr(low),
                    decr(high),
                    w.skip(j),
                    bound,
                );
            lemma_loop_split_intro(a, r, low, high, w, 1, j, bound);
        }
    }
}


/// A loop over `_*` that allows an iteration matches every word.
pub proof fn lemma_loop_of_top(a: Seq<SpecInfo<u64>>, low: u32, high: u32, w: Seq<u64>, bound: NodeId)
    requires
        top_star_id().0 < bound.0,
        low <= high,
        1 <= high,
    ensures
        loop_lang(a, top_star_id(), low, high, w, bound),
{
    let r = top_star_id();
    lemma_loop_lang_unfold(a, r, low, high, w, bound);
    if w.len() > 0 {
        let e = w.skip(w.len() as int);
        assert(e.len() == 0);
        assert(loop_lang(a, r, decr(low), decr(high), e, bound));
        assert(lang(a, r, w.take(w.len() as int)));
    }
}

/// `.*` matches every word.
pub proof fn lemma_loop_of_any(a: Seq<SpecInfo<u64>>, w: Seq<u64>, bound: NodeId)
    requires
        any_id().0 < bound.0,
    ensures
        loop_lang(a, any_id(), 0, u32::MAX, w, bound),
    decreases w.len(),
{
    lemma_loop_lang_unfold(a, any_id(), 0, u32::MAX, w, bound);
    if w.len() > 0 {
        lemma_loop_of_any(a, w.skip(1), bound);
        assert(lang(a, any_id(), w.take(1)));
        assert(loop_lang(a, any_id(), decr(0), decr(u32::MAX), w.skip(1), bound));
    }
}

/// A loop over `ε` or `⊥` matches at most the empty word, and matches it
/// where no iteration is needed or the body matches it.
pub proof fn lemma_loop_of_empty(a: Seq<SpecInfo<u64>>, r: NodeId, low: u32, high: u32, w: Seq<u64>, bound: NodeId)
    requires
        r == epsilon_id() || r == nothing_id(),
        r.0 < bound.0,
        low <= high,
    ensures
        loop_lang(a, r, low, high, w, bound) == (w.len() == 0 && (low == 0 || r == epsilon_id())),
{
    lemma_loop_lang_unfold(a, r, low, high, w, bound);
    if w.len() > 0 && loop_lang(a, r, low, high, w, bound) {
        let j = choose|j: int|
            1 <= j <= w.len() && #[trigger] lang(a, r, w.take(j)) && loop_lang(
                a,
                r,
                decr(low),
                decr(high),
                w.skip(j),
                bound,
            );
        assert(w.take(j).len() == j);
    }
}

/// Two loops over `x` whose ranges of iteration counts overlap or touch
/// match together the words of one loop over the whole range.
pub proof fn lemma_loop_union(
    a: Seq<SpecInfo<u64>>,
    x: NodeId,
    l1: u32,
    h1: u32,
    l2: u32,
    h2: u32,
    lo: u32,
    hi: u32,
    w: Seq<u64>,
    bound: NodeId,
)
    requires
        x.0 < bound.0,
        l1 <= h1,
        l2 <= h2,
        l1 < u32::MAX,
        l2 < u32::MAX,
        l1 <= h2 + 1,
        l2 <= h1 + 1,
        lo == (if l1 <= l2 { l1 } else { l2 }),
        hi == (if h1 >= h2 { h1 } else { h2 }),
    ensures
        loop_lang(a, x, lo, hi, w, bound) == (loop_lang(a, x, l1, h1, w, bound) || loop_lang(a, x, l2, h2, w, bound)),
{
    if w.len() == 0 {
        lemma_loop_lang_unfold(a, x, lo, hi, w, bound);
        lemma_loop_lang_unfold(a, x, l1, h1, w, bound);
        lemma_loop_lang_unfold(a, x, l2, h2, w, bound);
    } else {
        lemma_loop_chunks_any(a, x, lo, hi, w, bound);
        lemma_loop_chunks_any(a, x, l1, h1, w, bound);
        lemma_loop_chunks_any(a, x, l2, h2, w, bound);
        if loop_lang(a, x, l1, h1, w, bound) {
            let k = choose|k: nat| count_ok(a, x, l1, h1, k) && #[trigger] chunks(a, x, k, w);
            assert(count_ok(a, x, lo, hi, k));
        }
        if loop_lang(a, x, l2, h2, w, bound) {
            let k = choose|k: nat| count_ok(a, x, l2, h2, k) && #[trigger] chunks(a, x, k, w);
            assert(count_ok(a, x, lo, hi, k));
        }
        if loop_lang(a, x, lo, hi, w, bound) {
            let k = choose|k: nat| count_ok(a, x, lo, hi, k) && #[trigger] chunks(a, x, k, w);
            if below(k, h1) && (lang(a, x, Seq::empty()) || l1 <= k) {
                assert(count_ok(a, x, l1, h1, k));
            } else {
                assert(below(k, h2) && (lang(a, x, Seq::empty()) || l2 <= k));
                assert(count_ok(a, x, l2, h2, k));
            }
        }
    }
}

/// A loop `r{2,high}` together with `r` matches the words of `r{1,high}`.
pub proof fn lemma_loop_with_body(a: Seq<SpecInfo<u64>>, r: NodeId, high: u32, w: Seq<u64>, bound: NodeId)
    requires
        r.0 < bound.0,
        2 <= high,
    ensures
        loop_lang(a, r, 1, high, w, bound) == (lang(a, r, w) || loop_lang(a, r, 2, high, w, bound)),
{
    if w.len() == 0 {
        lemma_loop_lang_unfold(a, r, 1, high, w, bound);
        lemma_loop_lang_unfold(a, r, 2, high, w, bound);
    } else {
        lemma_loop_chunks_any(a, r, 1, high, w, bound);
        lemma_loop_chunks_any(a, r, 2, high, w, bound);
        if lang(a, r, w) {
            let e = w.skip(w.len() as int);
            assert(e.len() == 0);
            assert(chunks(a, r, 0, e));
            assert(w.take(w.len() as int) =~= w);
            assert(lang(a, r, w.take(w.len() as int)));
            assert(chunks(a, r, 1, w));
            assert(count_ok(a, r, 1, high, 1));
        }
        if loop_lang(a, r, 2, high, w, bound) {
            let k = choose|k: nat| count_ok(a, r, 2, high, k) && #[trigger] chunks(a, r, k, w);
            assert(count_ok(a, r, 1, high, k));
        }
        if loop_lang(a, r, 1, high, w, bound) {
            let k = choose|k: nat| count_ok(a, r, 1, high, k) && #[trigger] chunks(a, r, k, w);
            if k == 1 {
                let j = choose|j: int|
                    1 <= j <= w.len() && #[trigger] lang(a, r, w.take(j)) && chunks(a, r, (k - 1) as nat, w.skip(j));
                assert(w.skip(j).len() == 0);
                assert(j == w.len());
                assert(w.take(j) =~= w);
            } else {
                assert(count_ok(a, r, 2, high, k));
            }
        }
    }
}

/// The words of a loop do not depend on which node above `r` holds it.
pub proof fn lemma_loop_lang_bound(
    a: Seq<SpecInfo<u64>>,
    r: NodeId,
    low: u32,
    high: u32,
    w: Seq<u64>,
    b1: NodeId,
    b2: NodeId,
)
    requires
        r.0 < b1.0,
        r.0 < b2.0,
    ensures
        loop_lang(a, r, low, high, w, b1) == loop_lang(a, r, low, high, w, b2),
    decreases w.len(),
{
    if low <= high {
        lemma_loop_lang_unfold(a, r, low, high, w, b1);
        lemma_loop_lang_unfold(a, r, low, high, w, b2);
        if w.len() > 0 && high != 0 {
            assert forall|j: int| 1 <= j <= w.len() implies loop_lang(
                a,
                r,
                decr(low),
                decr(high),
                w.skip(j),
                b1,
            ) == loop_lang(a, r, decr(low), decr(high), w.skip(j), b2) by {
                lemma_loop_lang_bound(a, r, decr(low), decr(high), w.skip(j), b1, b2);
            }
        }
    }
}

/// A non-empty word is a word of `r{0,h}` exactly when it is one of `r{1,h}`.
pub proof fn lemma_loop_low_01(a: Seq<SpecInfo<u64>>, r: NodeId, high: u32, w: Seq<u64>, bound: NodeId)
    requires
        r.0 < bound.0,
        1 <= high,
        w.len() > 0,
    ensures
        loop_lang(a, r, 0, high, w, bound) == loop_lang(a, r, 1, high, w, bound),
{
    lemma_loop_lang_unfold(a, r, 0, high, w, bound);
    lemma_loop_lang_unfold(a, r, 1, high, w, bound);
}

/// `r{0,0}` matches only the empty word.
pub proof fn lemma_loop_zero(a: Seq<SpecInfo<u64>>, r: NodeId, w: Seq<u64>, bound: NodeId)
    requires
        r.0 < bound.0,
    ensures
        loop_lang(a, r, 0, 0, w, bound) == (w.len() == 0),
{
}

/// `r{1,1}` matches the words of `r`.
pub proof fn lemma_loop_one_one(a: Seq<SpecInfo<u64>>, r: NodeId, w: Seq<u64>, bound: NodeId)
    requires
        r.0 < bound.0,
    ensures
        loop_lang(a, r, 1, 1, w, bound) == lang(a, r, w),
{
    lemma_loop_lang_unfold(a, r, 1, 1, w, bound);
    if w.len() > 0 {
        if loop_lang(a, r, 1, 1, w, bound) {
            let j = choose|j: int|
                1 <= j <= w.len() && #[trigger] lang(a, r, w.take(j)) && loop_lang(
                    a,
                    r,
                    decr(1),
                    decr(1),
                    w.skip(j),
                    bound,
                );
            lemma_loop_zero(a, r, w.skip(j), bound);
            assert(w.take(j) =~= w);
        }
        if lang(a, r, w) {
            assert(w.take(w.len() as int) =~= w);
            lemma_loop_zero(a, r, w.skip(w.len() as int), bound);
            assert(lang(a, r, w.take(w.len() as int)));
        }
    }
}

/// `r{0,1}` matches the empty word and the words of `r`.
pub proof fn lemma_loop_opt(a: Seq<SpecInfo<u64>>, r: NodeId, w: Seq<u64>, bound: NodeId)
    requires
        r.0 < bound.0,
    ensures
        loop_lang(a, r, 0, 1, w, bound) == (w.len() == 0 || lang(a, r, w)),
{
    if w.len() > 0 {
        lemma_loop_low_01(a, r, 1, w, bound);
        lemma_loop_one_one(a, r, w, bound);
    }
}

/// A loop that allows one iteration matches the words of its body.
pub proof fn lemma_loop_has_body(a: Seq<SpecInfo<u64>>, r: NodeId, low: u32, high: u32, w: Seq<u64>, bound: NodeId)
    requires
        r.0 < bound.0,
        low <= 1,
        1 <= high,
        lang(a, r, w),
    ensures
        loop_lang(a, r, low, high, w, bound),
{
    lemma_loop_lang_unfold(a, r, low, high, w, bound);
    if w.len() > 0 {
        assert(w.take(w.len() as int) =~= w);
        assert(decr(low) == 0);
        assert(loop_lang(a, r, decr(low), decr(high), w.skip(w.len() as int), bound));
        assert(lang(a, r, w.take(w.len() as int)));
    }
}

/// Whether every element of `w` is a class within the set `cs`.
pub open spec fn all_in(cs: u64, w: Seq<u64>) -> bool {
    forall|i: int| 0 <= i < w.len() ==> cs & #[trigger] w[i] == w[i]
}

/// The star of a singleton over `cs` matches the words of classes within `cs`.
pub proof fn lemma_star_lang(a: Seq<SpecInfo<u64>>, r: NodeId, cs: u64, w: Seq<u64>, bound: NodeId)
    requires
        4 <= r.0 < bound.0,
        (r.0 as int) < a.len(),
        a[r.0 as int].node == SpecNode::<u64>::Singleton(cs),
    ensures
        loop_lang(a, r, 0, u32::MAX, w, bound) == all_in(cs, w),
    decreases w.len(),
{
    lemma_loop_lang_unfold(a, r, 0, u32::MAX, w, bound);
    if w.len() > 0 {
        lemma_star_lang(a, r, cs, w.skip(1), bound);
        if loop_lang(a, r, 0, u32::MAX, w, bound) {
            let j = choose|j: int|
                1 <= j <= w.len() && #[trigger] lang(a, r, w.take(j)) && loop_lang(
                    a,
                    r,
                    decr(0),
                    decr(u32::MAX),
                    w.skip(j),
                    bound,
                );
            assert(j == 1);
            assert(w.take(1)[0] == w[0]);
            assert forall|i: int| 0 <= i < w.len() implies cs & #[trigger] w[i] == w[i] by {
                if i > 0 {
                    assert(w.skip(1)[i - 1] == w[i]);
                }
            }
        }
        if all_in(cs, w) {
            assert(all_in(cs, w.skip(1))) by {
                assert forall|i: int| 0 <= i < w.skip(1).len() implies cs & #[trigger] w.skip(1)[i]
                    == w.skip(1)[i] by {
                    assert(w.skip(1)[i] == w[i + 1]);
                }
            }
            assert(w.take(1)[0] == w[0]);
            assert(lang(a, r, w.take(1)));
        }
    }
}


/// Whether `w` splits into exactly `k` non-empty words of `r`.
pub open spec fn chunks(a: Seq<SpecInfo<u64>>, r: NodeId, k: nat, w: Seq<u64>) -> bool
    decreases k,
{
    if k == 0 {
        w.len() == 0
    } else {
        exists|j: int|
            1 <= j <= w.len() && #[trigger] lang(a, r, w.take(j)) && chunks(a, r, (k - 1) as nat, w.skip(j))
    }
}

/// Whether `k` iterations are allowed by the upper bound `high` of a loop
/// (`u32::MAX` allows any number).
pub open spec fn below(k: nat, high: u32) -> bool {
    high == u32::MAX || k <= high
}

/// Words of `k` non-empty words of `r`, followed by words of `k2` more, are
/// words of `k + k2` of them.
pub proof fn lemma_chunks_concat(a: Seq<SpecInfo<u64>>, r: NodeId, k1: nat, k2: nat, u: Seq<u64>, v: Seq<u64>)
    requires
        chunks(a, r, k1, u),
        chunks(a, r, k2, v),
    ensures
        chunks(a, r, k1 + k2, u + v),
    decreases k1,
{
    if k1 == 0 {
        assert(u + v =~= v);
    } else {
        let j = choose|j: int|
            1 <= j <= u.len() && #[trigger] lang(a, r, u.take(j)) && chunks(a, r, (k1 - 1) as nat, u.skip(j));
        lemma_chunks_concat(a, r, (k1 - 1) as nat, k2, u.skip(j), v);
        assert((u + v).take(j) =~= u.take(j));
        assert((u + v).skip(j) =~= u.skip(j) + v);
        assert(((k1 + k2) - 1) as nat == (k1 - 1) as nat + k2);
        assert(lang(a, r, (u + v).take(j)));
    }
}

/// Words of `k1 + k2` non-empty words of `r` split into words of `k1` and
/// words of `k2` of them.
pub proof fn lemma_chunks_split(a: Seq<SpecInfo<u64>>, r: NodeId, k1: nat, k2: nat, w: Seq<u64>) -> (i: int)
    requires
        chunks(a, r, k1 + k2, w),
    ensures
        0 <= i <= w.len(),
        chunks(a, r, k1, w.take(i)),
        chunks(a, r, k2, w.skip(i)),
    decreases k1,
{
    if k1 == 0 {
        assert(w.take(0) =~= Seq::<u64>::empty());
        assert(w.skip(0) =~= w);
        0
    } else {
        let j = choose|j: int|
            1 <= j <= w.len() && #[trigger] lang(a, r, w.take(j)) && chunks(a, r, ((k1 + k2) - 1) as nat, w.skip(j));
        assert(((k1 + k2) - 1) as nat == (k1 - 1) as nat + k2);
        let i2 = lemma_chunks_split(a, r, (k1 - 1) as nat, k2, w.skip(j));
        let i = j + i2;
        assert(w.take(i).take(j) =~= w.take(j));
        assert(w.take(i).skip(j) =~= w.skip(j).take(i2));
        assert(w.skip(i) =~= w.skip(j).skip(i2));
        assert(lang(a, r, w.take(i).take(j)));
        i
    }
}

/// A split into at least one word has a non-empty first word.
proof fn lemma_chunks_nonempty(a: Seq<SpecInfo<u64>>, r: NodeId, k: nat, w: Seq<u64>)
    requires
        chunks(a, r, k, w),
        k >= 1,
    ensures
        w.len() >= 1,
{
}

/// Whether `k` non-empty words of `r` make a word of `r{low,high}`: at
/// least one, at most `high`, and at least `low` unless `r` matches the
/// empty word (an unbounded lower bound is never reached).
pub open spec fn count_ok(a: Seq<SpecInfo<u64>>, r: NodeId, low: u32, high: u32, k: nat) -> bool {
    &&& 1 <= k
    &&& below(k, high)
    &&& ((low <= k && low < u32::MAX) || lang(a, r, Seq::empty()))
}

/// A non-empty word of a loop is a word of a number of non-empty words of
/// its body that the loop's bounds allow.
pub proof fn lemma_loop_chunks_any(a: Seq<SpecInfo<u64>>, r: NodeId, low: u32, high: u32, w: Seq<u64>, bound: NodeId)
    requires
        r.0 < bound.0,
        low <= high,
        w.len() > 0,
    ensures
        loop_lang(a, r, low, high, w, bound) == exists|k: nat| count_ok(a, r, low, high, k) && #[trigger] chunks(a, r, k, w),
    decreases w.len(),
{
    lemma_loop_lang_unfold(a, r, low, high, w, bound);
    if loop_lang(a, r, low, high, w, bound) {
        let j = choose|j: int|
            1 <= j <= w.len() && #[trigger] lang(a, r, w.take(j)) && loop_lang(
                a,
                r,
                decr(low),
                decr(high),
                w.skip(j),
                bound,
            );
        let rest = w.skip(j);
        if rest.len() == 0 {
            assert(rest =~= Seq::<u64>::empty());
            assert(chunks(a, r, 0, rest));
            assert(chunks(a, r, 1, w));
            assert(count_ok(a, r, low, high, 1));
        } else {
            lemma_loop_chunks_any(a, r, decr(low), decr(high), rest, bound);
            let k2 = choose|k: nat| count_ok(a, r, decr(low), decr(high), k) && #[trigger] chunks(a, r, k, rest);
            assert(((k2 + 1) - 1) as nat == k2);
            assert(chunks(a, r, k2 + 1, w));
            assert(count_ok(a, r, low, high, k2 + 1));
        }
    }
    if exists|k: nat| count_ok(a, r, low, high, k) && #[trigger] chunks(a, r, k, w) {
        let k = choose|k: nat| count_ok(a, r, low, high, k) && #[trigger] chunks(a, r, k, w);
        let j = choose|j: int|
            1 <= j <= w.len() && #[trigger] lang(a, r, w.take(j)) && chunks(a, r, (k - 1) as nat, w.skip(j));
        let rest = w.skip(j);
        if k == 1 {
            assert(rest.len() == 0);
            assert(rest =~= Seq::<u64>::empty());
            assert(loop_lang(a, r, decr(low), decr(high), rest, bound));
        } else {
            lemma_chunks_nonempty(a, r, (k - 1) as nat, rest);
            lemma_loop_chunks_any(a, r, decr(low), decr(high), rest, bound);
            assert(count_ok(a, r, decr(low), decr(high), (k - 1) as nat));
            assert(loop_lang(a, r, decr(low), decr(high), rest, bound));
        }
        assert(lang(a, r, w.take(j)));
    }
}

/// A word of `m` non-empty words of the loop `r` = `x{l2,h2}` is a word of
/// `k` non-empty words of `x`, with `m <= k <= m * h2`, and `m * l2 <= k`
/// unless `x` matches the empty word.
proof fn lemma_chunks_ungroup(a: Seq<SpecInfo<u64>>, r: NodeId, x: NodeId, l2: u32, h2: u32, m: nat, w: Seq<u64>) -> (k: nat)
    requires
        4 <= r.0 < a.len(),
        a[r.0 as int].node matches SpecNode::Loop { node, low, high, .. } && node == x && low == l2 && high == h2,
        x.0 < r.0,
        l2 <= h2,
        chunks(a, r, m, w),
    ensures
        m <= k,
        h2 == u32::MAX || k <= m * h2,
        lang(a, x, Seq::empty()) || m * l2 <= k,
        chunks(a, x, k, w),
    decreases m,
{
    if m == 0 {
        0
    } else {
        let j = choose|j: int|
            1 <= j <= w.len() && #[trigger] lang(a, r, w.take(j)) && chunks(a, r, (m - 1) as nat, w.skip(j));
        let u = w.take(j);
        assert(lang(a, r, u) == loop_lang(a, x, l2, h2, u, r));
        lemma_loop_chunks_any(a, x, l2, h2, u, r);
        let k1 = choose|k: nat| count_ok(a, x, l2, h2, k) && #[trigger] chunks(a, x, k, u);
        let k2 = lemma_chunks_ungroup(a, r, x, l2, h2, (m - 1) as nat, w.skip(j));
        lemma_chunks_concat(a, x, k1, k2, u, w.skip(j));
        assert(u + w.skip(j) =~= w);
        if h2 != u32::MAX {
            assert(k1 + k2 <= m * h2) by (nonlinear_arith)
                requires
                    k1 <= h2,
                    k2 <= (m - 1) * h2,
                    m >= 1,
            ;
        }
        if !lang(a, x, Seq::empty()) {
            assert(m * l2 <= k1 + k2) by (nonlinear_arith)
                requires
                    l2 <= k1,
                    (m - 1) * l2 <= k2,
                    m >= 1,
            ;
        }
        k1 + k2
    }
}

/// A word of `k` non-empty words of `x`, with `m <= k <= m * h2` and, unless
/// `x` matches the empty word, `m * l2 <= k`, is a word of `m` non-empty
/// words of the loop `r` = `x{l2,h2}`.
proof fn lemma_chunks_group(a: Seq<SpecInfo<u64>>, r: NodeId, x: NodeId, l2: u32, h2: u32, m: nat, k: nat, w: Seq<u64>)
    requires
        4 <= r.0 < a.len(),
        a[r.0 as int].node matches SpecNode::Loop { node, low, high, .. } && node == x && low == l2 && high == h2,
        x.0 < r.0,
        l2 <= h2,
        1 <= h2,
        lang(a, x, Seq::empty()) || l2 < u32::MAX,
        chunks(a, x, k, w),
        m <= k,
        (m == 0) == (k == 0),
        h2 == u32::MAX || k <= m * h2,
        lang(a, x, Seq::empty()) || m * l2 <= k,
    ensures
        chunks(a, r, m, w),
    decreases m,
{
    if m > 0 {
        let nul = lang(a, x, Seq::empty());
        let el: nat = if nul || l2 == 0 {
            1
        } else {
            l2 as nat
        };
        assert(m * el <= k) by (nonlinear_arith)
            requires
                el == 1 || (el == l2 && m * l2 <= k),
                m <= k,
        ;
        assert((m - 1) * el <= k - el) by (nonlinear_arith)
            requires
                m * el <= k,
                m >= 1,
        ;
        let g: nat = if h2 == u32::MAX || (k - (m - 1) * el) as nat <= h2 {
            (k - (m - 1) * el) as nat
        } else {
            h2 as nat
        };
        if m == 1 && h2 != u32::MAX {
            assert(k <= h2) by (nonlinear_arith)
                requires
                    k <= m * h2,
                    m == 1,
            ;
        }
        assert(el <= g) by (nonlinear_arith)
            requires
                m * el <= k,
                m >= 1,
                g == (k - (m - 1) * el) || (g == h2 && h2 as int >= el),
                el <= h2 || h2 == u32::MAX,
        ;
        assert(1 <= g <= k);
        assert(k == g + (k - g) as nat);
        let i = lemma_chunks_split(a, x, g, (k - g) as nat, w);
        let u = w.take(i);
        lemma_chunks_nonempty(a, x, g, u);
        assert(lang(a, r, u) == loop_lang(a, x, l2, h2, u, r));
        lemma_loop_chunks_any(a, x, l2, h2, u, r);
        assert(count_ok(a, x, l2, h2, g));
        assert(lang(a, r, u));
        let rest = (k - g) as nat;
        if g == (k - (m - 1) * el) as nat {
            assert(rest == (m - 1) * el);
            assert((m - 1) as nat <= rest) by (nonlinear_arith)
                requires
                    rest == (m - 1) * el,
                    el >= 1,
                    m >= 1,
            ;
            assert(h2 == u32::MAX || rest <= (m - 1) * h2) by (nonlinear_arith)
                requires
                    rest == (m - 1) * el,
                    el <= h2 || h2 == u32::MAX,
                    m >= 1,
            ;
            assert(nul || (m - 1) * l2 <= rest) by (nonlinear_arith)
                requires
                    rest == (m - 1) * el,
                    nul || el == l2 || l2 == 0,
                    m >= 1,
            ;
            assert((m - 1 == 0) == (rest == 0)) by (nonlinear_arith)
                requires
                    rest == (m - 1) * el,
                    el >= 1,
                    m >= 1,
            ;
        } else {
            assert(g == h2 && h2 != u32::MAX);
            assert(rest <= (m - 1) * h2) by (nonlinear_arith)
                requires
                    k <= m * h2,
                    g == h2,
                    g <= k,
                    rest == k - g,
                    m >= 1,
            ;
            assert(rest > (m - 1) * el);
            assert((m - 1) as nat <= rest && (nul || (m - 1) * l2 <= rest)) by (nonlinear_arith)
                requires
                    rest > (m - 1) * el,
                    el >= 1,
                    nul || el == l2 || l2 == 0,
                    m >= 1,
            ;
            assert(m >= 2);
        }
        lemma_chunks_group(a, r, x, l2, h2, (m - 1) as nat, rest, w.skip(i));
        assert(lang(a, r, w.take(i)));
    }
}

/// The upper bound of a loop over a loop, flattened: the product of the two
/// bounds, or unbounded where either is.
pub open spec fn flat_high(h2: u32, high: u32) -> u32 {
    if h2 == u32::MAX || high == u32::MAX {
        u32::MAX
    } else {
        (h2 * high) as u32
    }
}

/// Whether flattening `(x{l2,h2}){low,high}` into `x{l2*low, h2*high}`
/// keeps its words whatever `x` is: the inner lower bound is at most one, or
/// the outer loop is not optional and the ranges `[m*l2, m*h2]` of its
/// iteration counts `m` leave no gap (a single count, an unbounded inner
/// loop, or no gap after the first count, after which they only widen).
pub open spec fn nest_exact(l2: u32, h2: u32, low: u32, high: u32) -> bool {
    l2 <= 1 || (low >= 1 && (low == high || h2 == u32::MAX || (low + 1) * l2 <= low * h2 + 1))
}

/// A loop `r{low,high}` over the loop `r` = `x{l2,h2}`, where the
/// flattening is exact (`nest_exact`, or `x` matches the empty word, so that
/// every count of iterations of `x` is allowed) and the products of the
/// bounds stay below `u32::MAX`, matches the words of `x{l2*low, h2*high}`.
pub proof fn lemma_loop_nested(
    a: Seq<SpecInfo<u64>>,
    r: NodeId,
    x: NodeId,
    l2: u32,
    h2: u32,
    low: u32,
    high: u32,
    w: Seq<u64>,
    b1: NodeId,
    b2: NodeId,
)
    requires
        4 <= r.0 < a.len(),
        a[r.0 as int].node matches SpecNode::Loop { node, low, high, .. } && node == x && low == l2 && high == h2,
        x.0 < r.0,
        r.0 < b1.0,
        x.0 < b2.0,
        l2 <= h2,
        1 <= h2,
        low <= high,
        1 <= high,
        l2 * low < u32::MAX,
        h2 == u32::MAX || high == u32::MAX || h2 * high < u32::MAX,
        nest_exact(l2, h2, low, high) || lang(a, x, Seq::empty()),
    ensures
        loop_lang(a, r, low, high, w, b1) == loop_lang(a, x, (l2 * low) as u32, flat_high(h2, high), w, b2),
{
    let lo = (l2 * low) as u32;
    let hi = flat_high(h2, high);
    assert(lo == l2 * low);
    assert((lo == 0) == (l2 == 0 || low == 0)) by (nonlinear_arith)
        requires
            lo == l2 * low,
    ;
    assert(1 <= hi) by (nonlinear_arith)
        requires
            1 <= h2,
            1 <= high,
            hi == flat_high(h2, high),
            h2 == u32::MAX || high == u32::MAX || h2 * high < u32::MAX,
    ;
    assert(hi >= high) by (nonlinear_arith)
        requires
            1 <= h2,
            hi == flat_high(h2, high),
            h2 == u32::MAX || high == u32::MAX || h2 * high < u32::MAX,
    ;
    assert(lo <= hi) by (nonlinear_arith)
        requires
            lo == l2 * low,
            l2 <= h2,
            low <= high,
            hi == flat_high(h2, high),
            lo < u32::MAX,
            h2 == u32::MAX || high == u32::MAX || h2 * high < u32::MAX,
    ;
    let e = Seq::<u64>::empty();
    let nul = lang(a, x, e);
    assert(lang(a, r, e) == (l2 == 0 || nul)) by {
        assert(lang(a, r, e) == loop_lang(a, x, l2, h2, e, r));
    }
    if w.len() == 0 {
        assert(w =~= e);
        assert(lang(a, r, w) == loop_lang(a, x, l2, h2, w, r));
    } else {
        lemma_loop_chunks_any(a, r, low, high, w, b1);
        lemma_loop_chunks_any(a, x, lo, hi, w, b2);
        if loop_lang(a, r, low, high, w, b1) {
            let m = choose|m: nat| count_ok(a, r, low, high, m) && #[trigger] chunks(a, r, m, w);
            let k = lemma_chunks_ungroup(a, r, x, l2, h2, m, w);
            if h2 != u32::MAX && high != u32::MAX {
                assert(k <= h2 * high) by (nonlinear_arith)
                    requires
                        k <= m * h2,
                        m <= high,
                ;
            }
            assert(below(k, hi));
            if !nul && l2 != 0 {
                assert(lo <= k) by (nonlinear_arith)
                    requires
                        low <= m,
                        m * l2 <= k,
                        lo == l2 * low,
                ;
            }
            assert(count_ok(a, x, lo, hi, k));
        }
        if loop_lang(a, x, lo, hi, w, b2) {
            let k = choose|k: nat| count_ok(a, x, lo, hi, k) && #[trigger] chunks(a, x, k, w);
            let m: nat = if nul || l2 <= 1 {
                if high == u32::MAX || k <= high {
                    k
                } else {
                    high as nat
                }
            } else if high == u32::MAX || k / (l2 as nat) <= high {
                k / (l2 as nat)
            } else {
                high as nat
            };
            if nul || l2 <= 1 {
                if h2 != u32::MAX {
                    assert(k <= m * h2) by (nonlinear_arith)
                        requires
                            1 <= h2,
                            m == k || (m == high && high != u32::MAX && k <= h2 * high),
                    ;
                }
                assert(nul || m * l2 <= k) by (nonlinear_arith)
                    requires
                        nul || l2 <= 1,
                        m <= k,
                ;
                if !nul && l2 == 1 {
                    assert(low <= m);
                }
            } else {
                assert(low >= 1);
                assert(l2 < u32::MAX) by (nonlinear_arith)
                    requires
                        l2 * low < u32::MAX,
                        low >= 1,
                ;
                assert(l2 * low <= k);
                assert(low <= k / (l2 as nat)) by (nonlinear_arith)
                    requires
                        l2 * low <= k,
                        l2 >= 2,
                ;
                assert(low <= m);
                assert(m * l2 <= k && m <= k) by (nonlinear_arith)
                    requires
                        m <= k / (l2 as nat),
                        l2 >= 2,
                ;
                if h2 != u32::MAX {
                    if high != u32::MAX && m == high {
                        assert(k <= m * h2) by (nonlinear_arith)
                            requires
                                m == high,
                                high != u32::MAX,
                                k <= h2 * high,
                        ;
                    } else {
                        assert(m == k / (l2 as nat)) by {
                            if high != u32::MAX && k / (l2 as nat) > high {
                                assert(m == high);
                            }
                        }
                        assert(k < (m + 1) * l2) by (nonlinear_arith)
                            requires
                                m == k / (l2 as nat),
                                l2 >= 2,
                        ;
                        assert(low != high || high == u32::MAX);
                        assert(low != high) by {
                            if low == high {
                                assert(l2 * low >= u32::MAX) by (nonlinear_arith)
                                    requires
                                        low == u32::MAX,
                                        l2 >= 2,
                                ;
                            }
                        }
                        assert((m + 1) * l2 <= m * h2 + 1) by (nonlinear_arith)
                            requires
                                (low + 1) * l2 <= low * h2 + 1,
                                low <= m,
                                l2 <= h2,
                        ;
                    }
                }
            }
            lemma_chunks_group(a, r, x, l2, h2, m, k, w);
            assert(below(m, high));
            assert(count_ok(a, r, low, high, m));
        }
    }
}

} // verus!
