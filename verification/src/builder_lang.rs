//! The languages of the builder's operations on fragment arenas.
//!
//! On the fragment of `semantics::frag_arena`, over the bit set solver, each
//! normalizing operation of the builder gives a node whose words are those
//! of the regex it stands for: a concatenation matches the concatenated
//! words, an alternation the union and a conjunction the intersection (on
//! words of letters for the arena), a negation the complement, and a loop
//! the repeated words. The conditions under which a normalization would
//! change the words are stated where they apply: `or_safe` and `and_safe`
//! for unions and intersections, `flatten_ok` for loops. Each result stays
//! in the fragment and keeps the letters, so the operations compose.
use vstd::prelude::*;
use crate::builder::{
    alloc_spec, and_spec, concat_spec, is_not_of, lemma_alloc_spec_wf, loop_spec, max_u32, min_u32, node_at,
    not_spec, or_spec, or_spec_tail, or_spec_tail2, sat_mul, singleton_spec, sorted_pair, star_pred,
};
use crate::flags::{has_bits, CAN_BE_NULLABLE_BIT};
use crate::node::{
    any_id, arena_wf, children_below, epsilon_id, flags_at, nothing_id, top_star_id, NodeId, SpecInfo, SpecNode,
};
use crate::solver::{BitSetSolver, CharSetSolver};
use crate::semantics::{
    all_in, all_lang, any_lang, class_atomic, concat_lang, extends, flat_high, flatten_ok, frag_arena, frag_node,
    lang, lemma_concat_node_lang, lemma_flags_lang, lemma_lang_extend, lemma_loop_has_body, lemma_loop_lang_bound,
    lemma_loop_lang_extend, lemma_loop_low_01, lemma_loop_nested, lemma_loop_of_any, lemma_loop_of_empty,
    lemma_loop_of_top, lemma_loop_one_one, lemma_loop_opt, lemma_loop_union, lemma_loop_with_body, lemma_star_lang,
    letter_ok, letters_ok, loop_lang,
};

verus! {

/// Every letter for `a` is one for `b`.
pub open spec fn letters_kept(a: Seq<SpecInfo<u64>>, b: Seq<SpecInfo<u64>>) -> bool {
    forall|x: u64| letter_ok(a, x) ==> #[trigger] letter_ok(b, x)
}

/// `b` extends the fragment arena `a`, stays in the fragment, keeps the
/// letters of `a`, and holds the node `id`.
pub open spec fn frag_step(a: Seq<SpecInfo<u64>>, b: Seq<SpecInfo<u64>>, id: NodeId) -> bool {
    &&& arena_wf(b)
    &&& frag_arena(b)
    &&& extends(a, b)
    &&& letters_kept(a, b)
    &&& (id.0 as int) < b.len()
}

/// A well formed arena of the fragment.
pub open spec fn frag_ok(a: Seq<SpecInfo<u64>>) -> bool {
    arena_wf(a) && frag_arena(a)
}

/// A node of `a`.
pub open spec fn frag_id(a: Seq<SpecInfo<u64>>, id: NodeId) -> bool {
    (id.0 as int) < a.len()
}

/// Whether node `n` of `a` is no loop with a lower bound above one.
pub open spec fn small_loop(a: Seq<SpecInfo<u64>>, n: NodeId) -> bool {
    !(node_at(a, n) matches Some(SpecNode::Loop { low, .. }) && low > 1)
}

/// Whether `n` is a star over `.`, whose placeholder set the star rules of
/// unions and intersections would read.
pub open spec fn star_of_any(a: Seq<SpecInfo<u64>>, n: NodeId) -> bool {
    node_at(a, n) matches Some(SpecNode::Loop { node, low, high, .. }) && node == any_id() && low == 0 && high
        == u32::MAX
}

/// Whether `n` is a star over a singleton (`.` counts), whose set the star
/// rules of unions and intersections compare.
pub open spec fn star_like(a: Seq<SpecInfo<u64>>, n: NodeId) -> bool {
    node_at(a, n) matches Some(SpecNode::Loop { node, low, high, .. }) && low == 0 && high == u32::MAX
        && node_at(a, node) matches Some(SpecNode::Singleton(_))
}

/// Whether no normalization of the union or intersection of `n1` and `n2`
/// reads the placeholder set of `.`: `.` is not merged with a singleton, and
/// a star over `.` is not compared with another star.
pub open spec fn no_placeholder(a: Seq<SpecInfo<u64>>, n1: NodeId, n2: NodeId) -> bool {
    &&& n1 != n2 ==> !(n1 == any_id() && node_at(a, n2) matches Some(SpecNode::Singleton(_)))
    &&& n1 != n2 ==> !(n2 == any_id() && node_at(a, n1) matches Some(SpecNode::Singleton(_)))
    &&& !(star_of_any(a, n1) && star_like(a, n2))
    &&& !(star_of_any(a, n2) && star_like(a, n1))
}

/// Whether the loop `n`, if it is one, keeps its words with its lower
/// bound lowered to zero or one: the flattening of its body is exact there.
pub open spec fn chain_ok(a: Seq<SpecInfo<u64>>, n: NodeId) -> bool {
    node_at(a, n) matches Some(SpecNode::Loop { node, high, .. }) ==> flatten_ok(a, node, 0, high) && flatten_ok(
        a,
        node,
        1,
        high,
    )
}

/// Whether two loops `n1` and `n2` over the same body merge into one loop
/// with the same words: their ranges of iteration counts overlap or touch,
/// their lower bounds are finite, and the merged loop flattens exactly.
pub open spec fn loops_merge_ok(a: Seq<SpecInfo<u64>>, n1: NodeId, n2: NodeId) -> bool {
    match (node_at(a, n1), node_at(a, n2)) {
        (
            Some(SpecNode::Loop { node: x, low: l1, high: h1, .. }),
            Some(SpecNode::Loop { low: l2, high: h2, .. }),
        ) => {
            &&& l1 < u32::MAX
            &&& l2 < u32::MAX
            &&& l1 <= h2 + 1
            &&& l2 <= h1 + 1
            &&& flatten_ok(a, x, min_u32(l1, l2), max_u32(h1, h2))
        },
        _ => true,
    }
}

/// Whether node `n` of `a` is no loop with a lower bound above two.
pub open spec fn tail_loop_ok(a: Seq<SpecInfo<u64>>, n: NodeId) -> bool {
    !(node_at(a, n) matches Some(SpecNode::Loop { low, .. }) && low > 2)
}

/// Whether the union's merges of loops keep words: two loops over the same
/// body merge exactly (`loops_merge_ok`), a loop that the union would merge
/// with its body has a lower bound of at most two, and one it would make
/// optional for `ε` a lower bound of at most one.
pub open spec fn merge_small(a: Seq<SpecInfo<u64>>, n1: NodeId, n2: NodeId) -> bool {
    &&& n1 == epsilon_id() ==> small_loop(a, n2)
    &&& n2 == epsilon_id() ==> small_loop(a, n1)
    &&& (node_at(a, n1) matches Some(SpecNode::Loop { node: x1, .. }) && node_at(a, n2) matches Some(
        SpecNode::Loop { node: x2, .. },
    ) && x1 == x2) ==> loops_merge_ok(a, n1, n2)
    &&& (node_at(a, n2) matches Some(SpecNode::Loop { node, .. }) && node == n1) ==> tail_loop_ok(a, n2)
    &&& (node_at(a, n1) matches Some(SpecNode::Loop { node, .. }) && node == n2) ==> tail_loop_ok(a, n1)
}

/// Whether the union of `n1` and `n2` is one whose normalizations keep
/// languages: no loop with a lower bound above one is merged, the loops it
/// lowers flatten exactly, and the placeholder set of `.` is not read.
pub open spec fn or_safe(a: Seq<SpecInfo<u64>>, n1: NodeId, n2: NodeId) -> bool {
    &&& merge_small(a, n1, n2)
    &&& chain_ok(a, n1)
    &&& chain_ok(a, n2)
    &&& no_placeholder(a, n1, n2)
}

/// Whether the intersection of `n1` and `n2` is one whose normalizations
/// keep languages: the placeholder set of `.` is not read.
pub open spec fn and_safe(a: Seq<SpecInfo<u64>>, n1: NodeId, n2: NodeId) -> bool {
    no_placeholder(a, n1, n2)
}

/// An arena steps to itself with any of its nodes.
pub proof fn lemma_frag_step_refl(a: Seq<SpecInfo<u64>>, id: NodeId)
    requires
        frag_ok(a),
        frag_id(a, id),
    ensures
        frag_step(a, a, id),
{
    assert(a.take(a.len() as int) =~= a);
}

/// Steps compose.
pub proof fn lemma_frag_step_trans(a: Seq<SpecInfo<u64>>, b: Seq<SpecInfo<u64>>, c: Seq<SpecInfo<u64>>, id: NodeId)
    requires
        extends(a, b),
        letters_kept(a, b),
        frag_step(b, c, id),
    ensures
        frag_step(a, c, id),
{
    assert(c.take(a.len() as int) =~= b.take(a.len() as int));
}

/// Adding a fragment node to a fragment arena: the new arena is a step, and
/// the languages of the old nodes stay.
pub proof fn lemma_frag_alloc(a: Seq<SpecInfo<u64>>, n: SpecNode<u64>)
    requires
        frag_ok(a),
        a.len() < u32::MAX,
        children_below(n, a.len() as int),
        frag_node(a, n),
        n matches SpecNode::Singleton(cs) ==> forall|x: u64| letter_ok(a, x) ==> #[trigger] class_atomic(x, cs),
    ensures
        frag_step(a, alloc_spec(a, n).0, alloc_spec(a, n).1),
        alloc_spec(a, n).1.0 == a.len(),
        alloc_spec(a, n).0[a.len() as int].node == n,
{
    lemma_alloc_spec_wf(a, n);
    let b = alloc_spec(a, n).0;
    assert forall|i: int| 4 <= i < b.len() implies #[trigger] frag_node(b, b[i].node) by {
        assert(frag_node(a, b[i].node));
    }
    assert forall|x: u64| letter_ok(a, x) implies #[trigger] letter_ok(b, x) by {
        assert forall|i: int| 0 <= i < b.len() && i != 2 implies match (#[trigger] b[i]).node {
            SpecNode::Singleton(cs) => class_atomic(x, cs),
            _ => true,
        } by {
            if i < a.len() {
                assert(b[i] == a[i]);
            } else {
                if let SpecNode::Singleton(cs) = n {
                    assert(class_atomic(x, cs));
                }
            }
        }
    }
}

/// The languages of the nodes of `a` stay in an arena that extends it.
pub proof fn lemma_lang_step(a: Seq<SpecInfo<u64>>, b: Seq<SpecInfo<u64>>, id: NodeId)
    requires
        arena_wf(a),
        extends(a, b),
        (id.0 as int) < a.len(),
    ensures
        forall|w: Seq<u64>| #[trigger] lang(b, id, w) == lang(a, id, w),
{
    assert forall|w: Seq<u64>| #[trigger] lang(b, id, w) == lang(a, id, w) by {
        lemma_lang_extend(a, b, id, w);
    }
}

/// The words of `ε · t` are those of `t`, and those of `h · ε` those of `h`.
proof fn lemma_concat_lang_eps(a: Seq<SpecInfo<u64>>, h: NodeId, t: NodeId, w: Seq<u64>)
    ensures
        h == epsilon_id() ==> concat_lang(a, h, t, w) == lang(a, t, w),
        t == epsilon_id() ==> concat_lang(a, h, t, w) == lang(a, h, w),
        h == nothing_id() || t == nothing_id() ==> !concat_lang(a, h, t, w),
{
    if h == epsilon_id() {
        if lang(a, t, w) {
            assert(w.take(0) =~= Seq::<u64>::empty());
            assert(w.skip(0) =~= w);
            assert(lang(a, h, w.take(0)));
        }
        if concat_lang(a, h, t, w) {
            let i = choose|i: int| 0 <= i <= w.len() && #[trigger] lang(a, h, w.take(i)) && lang(a, t, w.skip(i));
            assert(i == 0);
            assert(w.skip(0) =~= w);
        }
    }
    if t == epsilon_id() {
        if lang(a, h, w) {
            assert(w.take(w.len() as int) =~= w);
            assert(w.skip(w.len() as int) =~= Seq::<u64>::empty());
            assert(lang(a, h, w.take(w.len() as int)));
        }
        if concat_lang(a, h, t, w) {
            let i = choose|i: int| 0 <= i <= w.len() && #[trigger] lang(a, h, w.take(i)) && lang(a, t, w.skip(i));
            assert(i == w.len());
            assert(w.take(i) =~= w);
        }
    }
}

/// The words of `concat_lang` stay in an arena that extends `a`.
pub proof fn lemma_concat_lang_step(a: Seq<SpecInfo<u64>>, b: Seq<SpecInfo<u64>>, h: NodeId, t: NodeId, w: Seq<u64>)
    requires
        arena_wf(a),
        extends(a, b),
        (h.0 as int) < a.len(),
        (t.0 as int) < a.len(),
    ensures
        concat_lang(b, h, t, w) == concat_lang(a, h, t, w),
{
    lemma_lang_step(a, b, h);
    lemma_lang_step(a, b, t);
    if concat_lang(b, h, t, w) {
        let i = choose|i: int| 0 <= i <= w.len() && #[trigger] lang(b, h, w.take(i)) && lang(b, t, w.skip(i));
        assert(lang(a, h, w.take(i)));
    }
    if concat_lang(a, h, t, w) {
        let i = choose|i: int| 0 <= i <= w.len() && #[trigger] lang(a, h, w.take(i)) && lang(a, t, w.skip(i));
        assert(lang(b, h, w.take(i)));
    }
}

/// A normalized concatenation matches the concatenated words.
pub proof fn lemma_concat_spec_lang(a: Seq<SpecInfo<u64>>, h: NodeId, t: NodeId)
    requires
        frag_ok(a),
        frag_id(a, h),
        frag_id(a, t),
        a.len() < u32::MAX,
    ensures
        frag_step(a, concat_spec(a, h, t).0, concat_spec(a, h, t).1),
        forall|w: Seq<u64>|
            #[trigger] lang(concat_spec(a, h, t).0, concat_spec(a, h, t).1, w) == concat_lang(a, h, t, w),
{
    let (b, r) = concat_spec(a, h, t);
    if h == epsilon_id() || t == epsilon_id() || h == nothing_id() || t == nothing_id() {
        lemma_frag_step_refl(a, r);
        assert forall|w: Seq<u64>| #[trigger] lang(b, r, w) == concat_lang(a, h, t, w) by {
            lemma_concat_lang_eps(a, h, t, w);
        }
    } else {
        let n = SpecNode::<u64>::Concat { head: h, tail: t };
        lemma_frag_alloc(a, n);
        assert forall|w: Seq<u64>| #[trigger] lang(b, r, w) == concat_lang(a, h, t, w) by {
            lemma_concat_node_lang(b, r, h, t, w);
            lemma_concat_lang_step(a, b, h, t, w);
        }
    }
}

/// A normalized negation matches the words its argument does not.
pub proof fn lemma_not_spec_lang(a: Seq<SpecInfo<u64>>, inner: NodeId)
    requires
        frag_ok(a),
        frag_id(a, inner),
        a.len() < u32::MAX,
    ensures
        frag_step(a, not_spec(a, inner).0, not_spec(a, inner).1),
        forall|w: Seq<u64>| #[trigger] lang(not_spec(a, inner).0, not_spec(a, inner).1, w) == !lang(a, inner, w),
{
    let (b, r) = not_spec(a, inner);
    if let Some(SpecNode::Not { inner: nested }) = node_at(a, inner) {
        if inner.0 >= 4 {
            assert(frag_node(a, a[inner.0 as int].node));
            assert(children_below(a[inner.0 as int].node, inner.0 as int));
        }
        lemma_frag_step_refl(a, r);
        assert forall|w: Seq<u64>| #[trigger] lang(b, r, w) == !lang(a, inner, w) by {
            if inner.0 >= 4 {
                assert(lang(a, inner, w) == !lang(a, nested, w));
            }
        }
    } else if inner == nothing_id() || inner == top_star_id() {
        lemma_frag_step_refl(a, r);
    } else {
        let n = SpecNode::<u64>::Not { inner };
        lemma_frag_alloc(a, n);
        lemma_lang_step(a, b, inner);
        assert forall|w: Seq<u64>| #[trigger] lang(b, r, w) == !lang(a, inner, w) by {
            assert(lang(b, r, w) == !lang(b, inner, w));
        }
    }
}

/// A normalized loop whose flattening is exact matches the words of the
/// loop.
pub proof fn lemma_loop_spec_lang(a: Seq<SpecInfo<u64>>, r: NodeId, low: u32, high: u32, lazy: bool, bound: NodeId)
    requires
        frag_ok(a),
        flatten_ok(a, r, low, high),
        r.0 < bound.0,
        low <= high,
        a.len() < u32::MAX,
    ensures
        frag_step(a, loop_spec(a, r, low, high, lazy).0, loop_spec(a, r, low, high, lazy).1),
        forall|w: Seq<u64>|
            #[trigger] lang(loop_spec(a, r, low, high, lazy).0, loop_spec(a, r, low, high, lazy).1, w)
                == loop_lang(a, r, low, high, w, bound),
    decreases r.0,
{
    let (b, res) = loop_spec(a, r, low, high, lazy);
    if low == 1 && high == 1 {
        lemma_frag_step_refl(a, res);
        assert forall|w: Seq<u64>| #[trigger] lang(b, res, w) == loop_lang(a, r, low, high, w, bound) by {
            lemma_loop_one_one(a, r, w, bound);
        }
    } else if high == 0 {
        lemma_frag_step_refl(a, res);
    } else if r == epsilon_id() || r == nothing_id() {
        lemma_frag_step_refl(a, res);
        assert forall|w: Seq<u64>| #[trigger] lang(b, res, w) == loop_lang(a, r, low, high, w, bound) by {
            lemma_loop_of_empty(a, r, low, high, w, bound);
        }
    } else if r == top_star_id() {
        assert(sat_mul(0, low) == 0);
        assert(loop_spec(a, r, low, high, lazy) == loop_spec(a, any_id(), 0, u32::MAX, lazy));
        lemma_loop_spec_lang(a, any_id(), 0, u32::MAX, lazy, bound);
        assert forall|w: Seq<u64>| #[trigger] lang(b, res, w) == loop_lang(a, r, low, high, w, bound) by {
            lemma_loop_of_any(a, w, bound);
            lemma_loop_of_top(a, low, high, w, bound);
        }
    } else if let SpecNode::Loop { node: x, low: l2, high: h2, .. } = a[r.0 as int].node {
        let lo = (l2 * low) as u32;
        let hi = flat_high(h2, high);
        assert(sat_mul(l2, low) == lo && lo == l2 * low) by (nonlinear_arith)
            requires
                l2 * low < u32::MAX,
                lo == (l2 * low) as u32,
        ;
        if h2 != u32::MAX && high != u32::MAX {
            assert(sat_mul(h2, high) == hi) by (nonlinear_arith)
                requires
                    h2 * high < u32::MAX,
                    hi == (h2 * high) as u32,
            ;
        }
        assert(1 <= hi) by (nonlinear_arith)
            requires
                1 <= h2,
                1 <= high,
                hi == flat_high(h2, high),
                h2 == u32::MAX || high == u32::MAX || h2 * high < u32::MAX,
        ;
        assert(hi >= high) by (nonlinear_arith)
            requires
                1 <= h2,
                hi == flat_high(h2, high),
                h2 == u32::MAX || high == u32::MAX || h2 * high < u32::MAX,
        ;
        assert(lo <= hi) by (nonlinear_arith)
            requires
                lo == l2 * low,
                l2 <= h2,
                low <= high,
                hi == flat_high(h2, high),
                lo < u32::MAX,
                h2 == u32::MAX || high == u32::MAX || h2 * high < u32::MAX,
        ;
        assert(loop_spec(a, r, low, high, lazy) == loop_spec(a, x, lo, hi, lazy));
        lemma_loop_spec_lang(a, x, lo, hi, lazy, bound);
        assert forall|w: Seq<u64>| #[trigger] lang(b, res, w) == loop_lang(a, r, low, high, w, bound) by {
            lemma_loop_nested(a, r, x, l2, h2, low, high, w, bound, bound);
        }
    } else {
        let n = SpecNode::<u64>::Loop { node: r, low, high, lazy };
        lemma_frag_alloc(a, n);
        assert forall|w: Seq<u64>| #[trigger] lang(b, res, w) == loop_lang(a, r, low, high, w, bound) by {
            lemma_loop_lang_extend(a, b, r, low, high, w, res);
            lemma_loop_lang_bound(a, r, low, high, w, res, bound);
        }
    }
}

proof fn lemma_class_or(x: u64, s1: u64, s2: u64)
    by (bit_vector)
    requires
        x & s1 == x || x & s1 == 0,
        x & s2 == x || x & s2 == 0,
    ensures
        ((s1 | s2) & x == x) == (s1 & x == x || s2 & x == x),
{
}

proof fn lemma_class_atomic_or(x: u64, s1: u64, s2: u64)
    by (bit_vector)
    requires
        x & s1 == x || x & s1 == 0,
        x & s2 == x || x & s2 == 0,
    ensures
        x & (s1 | s2) == x || x & (s1 | s2) == 0,
{
}

proof fn lemma_class_atomic_and(x: u64, s1: u64, s2: u64)
    by (bit_vector)
    requires
        x & s1 == x || x & s1 == 0,
        x & s2 == x || x & s2 == 0,
    ensures
        x & (s1 & s2) == x || x & (s1 & s2) == 0,
{
}

proof fn lemma_class_plain(x: u64, s1: u64, s2: u64)
    by (bit_vector)
    ensures
        ((s1 & s2) & x == x) == (s1 & x == x && s2 & x == x),
        (s2 & s1 == s2 && s2 & x == x) ==> s1 & x == x,
        x != 0 && s1 == 0 ==> s1 & x != x,
        x & s1 == s1 & x,
{
}

/// How classes meet unions, intersections and inclusions of bit sets: a
/// class that two sets each hold whole or not at all is in their union
/// where it is in one of them, and so held by the union and the
/// intersection whole or not at all.
pub proof fn lemma_class_bits(x: u64, s1: u64, s2: u64)
    ensures
        class_atomic(x, s1) && class_atomic(x, s2) ==> (((s1 | s2) & x == x) == (s1 & x == x || s2 & x == x)),
        class_atomic(x, s1) && class_atomic(x, s2) ==> class_atomic(x, s1 | s2) && class_atomic(x, s1 & s2),
        ((s1 & s2) & x == x) == (s1 & x == x && s2 & x == x),
        (s2 & s1 == s2 && s2 & x == x) ==> s1 & x == x,
        x != 0 && s1 == 0 ==> s1 & x != x,
        x & s1 == s1 & x,
{
    lemma_class_plain(x, s1, s2);
    if class_atomic(x, s1) && class_atomic(x, s2) {
        lemma_class_or(x, s1, s2);
        lemma_class_atomic_or(x, s1, s2);
        lemma_class_atomic_and(x, s1, s2);
    }
}

/// A star over a singleton matches the words of classes within its set.
pub proof fn lemma_star_pred_lang(s: BitSetSolver, a: Seq<SpecInfo<u64>>, n: NodeId, w: Seq<u64>)
    requires
        frag_ok(a),
        frag_id(a, n),
        n != top_star_id(),
        star_pred(s, a, n) is Some,
        !star_of_any(a, n),
    ensures
        lang(a, n, w) == all_in(star_pred(s, a, n)->0, w),
{
    assert(n.0 >= 4);
    assert(frag_node(a, a[n.0 as int].node));
    assert(children_below(a[n.0 as int].node, n.0 as int));
    let node = a[n.0 as int].node->Loop_node;
    assert(node.0 >= 4);
    lemma_star_lang(a, node, star_pred(s, a, n)->0, w, n);
}

/// The classes within a larger set take in the words of a smaller one.
pub proof fn lemma_all_in_mono(p1: u64, p2: u64, w: Seq<u64>)
    requires
        p2 & p1 == p2,
        all_in(p2, w),
    ensures
        all_in(p1, w),
{
    assert forall|i: int| 0 <= i < w.len() implies p1 & #[trigger] w[i] == w[i] by {
        lemma_class_bits(w[i], p1, p2);
    }
}

/// The words of a two-child `Or` node's children.
pub proof fn lemma_any_lang_pair(a: Seq<SpecInfo<u64>>, x: NodeId, y: NodeId, w: Seq<u64>, bound: NodeId)
    requires
        x.0 < bound.0,
        y.0 < bound.0,
    ensures
        any_lang(a, seq![x, y], w, bound) == (lang(a, x, w) || lang(a, y, w)),
{
    assert(seq![x, y].drop_last() =~= seq![x]);
    assert(seq![x].drop_last() =~= Seq::<NodeId>::empty());
    reveal_with_fuel(any_lang, 3);
}

/// The words of a two-child `And` node's children.
pub proof fn lemma_all_lang_pair(a: Seq<SpecInfo<u64>>, x: NodeId, y: NodeId, w: Seq<u64>, bound: NodeId)
    requires
        x.0 < bound.0,
        y.0 < bound.0,
    ensures
        all_lang(a, seq![x, y], w, bound) == (lang(a, x, w) && lang(a, y, w)),
{
    assert(seq![x, y].drop_last() =~= seq![x]);
    assert(seq![x].drop_last() =~= Seq::<NodeId>::empty());
    reveal_with_fuel(all_lang, 3);
}

/// `b` and its node `r` stand for the union of `n1` and `n2` of `a` on the
/// words of letters for `a`.
pub open spec fn or_result(a: Seq<SpecInfo<u64>>, b: Seq<SpecInfo<u64>>, r: NodeId, n1: NodeId, n2: NodeId) -> bool {
    &&& frag_step(a, b, r)
    &&& forall|w: Seq<u64>| letters_ok(a, w) ==> (#[trigger] lang(b, r, w) == (lang(a, n1, w) || lang(a, n2, w)))
}

/// `b` and its node `r` stand for the intersection of `n1` and `n2` of `a`
/// on the words of letters for `a`.
pub open spec fn and_result(a: Seq<SpecInfo<u64>>, b: Seq<SpecInfo<u64>>, r: NodeId, n1: NodeId, n2: NodeId) -> bool {
    &&& frag_step(a, b, r)
    &&& forall|w: Seq<u64>| letters_ok(a, w) ==> (#[trigger] lang(b, r, w) == (lang(a, n1, w) && lang(a, n2, w)))
}

/// `n?` for a node `n` that does not match the empty word.
proof fn lemma_or_eps(a: Seq<SpecInfo<u64>>, n: NodeId)
    requires
        frag_ok(a),
        frag_id(a, n),
        n != epsilon_id(),
        n != nothing_id(),
        n != top_star_id(),
        small_loop(a, n),
        chain_ok(a, n),
        a.len() < u32::MAX,
    ensures
        frag_step(a, loop_spec(a, n, 0, 1, false).0, loop_spec(a, n, 0, 1, false).1),
        forall|w: Seq<u64>|
            #[trigger] lang(loop_spec(a, n, 0, 1, false).0, loop_spec(a, n, 0, 1, false).1, w) == (w.len() == 0
                || lang(a, n, w)),
{
    let (b, r) = loop_spec(a, n, 0, 1, false);
    assert(n == any_id() || n.0 >= 4);
    if n.0 >= 4 {
        assert(frag_node(a, a[n.0 as int].node));
        assert(children_below(a[n.0 as int].node, n.0 as int));
    }
    if let SpecNode::Loop { node: inner, low: il, high: ih, .. } = a[n.0 as int].node {
        assert(sat_mul(il, 0) == 0) by (nonlinear_arith);
        assert(ih != u32::MAX ==> sat_mul(ih, 1) == ih) by (nonlinear_arith);
        assert(loop_spec(a, n, 0, 1, false) == loop_spec(a, inner, 0, ih, false));
        lemma_loop_spec_lang(a, inner, 0, ih, false, n);
        assert forall|w: Seq<u64>| #[trigger] lang(b, r, w) == (w.len() == 0 || lang(a, n, w)) by {
            assert(lang(a, n, w) == loop_lang(a, inner, il, ih, w, n));
            if w.len() > 0 {
                lemma_loop_low_01(a, inner, ih, w, n);
            }
        }
    } else {
        let bound = NodeId(a.len() as u32);
        lemma_loop_spec_lang(a, n, 0, 1, false, bound);
        assert forall|w: Seq<u64>| #[trigger] lang(b, r, w) == (w.len() == 0 || lang(a, n, w)) by {
            lemma_loop_opt(a, n, w, bound);
        }
    }
}

/// Two loops over the same node merge into one with the wider bounds.
#[verifier::rlimit(40)]
proof fn lemma_or_loops(a: Seq<SpecInfo<u64>>, n1: NodeId, n2: NodeId, inner: NodeId, l1: u32, h1: u32, l2: u32, h2: u32)
    requires
        frag_ok(a),
        frag_id(a, n1),
        frag_id(a, n2),
        n1 != epsilon_id(),
        n1 != top_star_id(),
        n2 != epsilon_id(),
        n2 != top_star_id(),
        a[n1.0 as int].node matches SpecNode::Loop { node, low, high, .. } && node == inner && low == l1 && high == h1,
        a[n2.0 as int].node matches SpecNode::Loop { node, low, high, .. } && node == inner && low == l2 && high == h2,
        or_safe(a, n1, n2),
        a.len() < u32::MAX,
    ensures
        or_result(
            a,
            loop_spec(a, inner, min_u32(l1, l2), max_u32(h1, h2), false).0,
            loop_spec(a, inner, min_u32(l1, l2), max_u32(h1, h2), false).1,
            n1,
            n2,
        ),
{
    assert(n1.0 >= 4 && n2.0 >= 4);
    assert(frag_node(a, a[n1.0 as int].node));
    assert(frag_node(a, a[n2.0 as int].node));
    assert(children_below(a[n1.0 as int].node, n1.0 as int));
    assert(children_below(a[n2.0 as int].node, n2.0 as int));
    let lo = min_u32(l1, l2);
    let hi = max_u32(h1, h2);
    let (b, r) = loop_spec(a, inner, lo, hi, false);
    assert(loops_merge_ok(a, n1, n2));
    lemma_loop_spec_lang(a, inner, lo, hi, false, n1);
    assert forall|w: Seq<u64>| #[trigger] lang(b, r, w) == (lang(a, n1, w) || lang(a, n2, w)) by {
        assert(lang(a, n1, w) == loop_lang(a, inner, l1, h1, w, n1));
        assert(lang(a, n2, w) == loop_lang(a, inner, l2, h2, w, n2));
        lemma_loop_lang_bound(a, inner, l2, h2, w, n2, n1);
        lemma_loop_union(a, inner, l1, h1, l2, h2, lo, hi, w, n1);
    }
}

/// The last rules of the union: a loop over the other node takes it in, and
/// otherwise a new `Or` node is made.
proof fn lemma_or_tail(a: Seq<SpecInfo<u64>>, n1: NodeId, n2: NodeId)
    requires
        frag_ok(a),
        frag_id(a, n1),
        frag_id(a, n2),
        n1 != n2,
        n1 != epsilon_id(),
        n1 != top_star_id(),
        n2 != epsilon_id(),
        n2 != top_star_id(),
        or_safe(a, n1, n2),
        a.len() < u32::MAX,
    ensures
        or_result(a, or_spec_tail(a, n1, n2).0, or_spec_tail(a, n1, n2).1, n1, n2),
{
    let (b, r) = or_spec_tail(a, n1, n2);
    if node_at(a, n2) matches Some(SpecNode::Loop { node: inner, .. }) && inner == n1 {
        let low = a[n2.0 as int].node->Loop_low;
        let high = a[n2.0 as int].node->Loop_high;
        assert(n2.0 >= 4);
        assert(frag_node(a, a[n2.0 as int].node));
        assert(children_below(a[n2.0 as int].node, n2.0 as int));
        let lo = min_u32(low, 1);
        assert(lo == 0 || lo == 1);
        lemma_loop_spec_lang(a, n1, lo, high, false, n2);
        assert forall|w: Seq<u64>| #[trigger] lang(b, r, w) == (lang(a, n1, w) || lang(a, n2, w)) by {
            if low == 2 {
                lemma_loop_with_body(a, n1, high, w, n2);
            } else if lang(a, n1, w) {
                lemma_loop_has_body(a, n1, low, high, w, n2);
            }
        }
    } else if node_at(a, n1) matches Some(SpecNode::Loop { node: inner, .. }) && inner == n2 {
        let low = a[n1.0 as int].node->Loop_low;
        let high = a[n1.0 as int].node->Loop_high;
        assert(n1.0 >= 4);
        assert(frag_node(a, a[n1.0 as int].node));
        assert(children_below(a[n1.0 as int].node, n1.0 as int));
        let lo = min_u32(low, 1);
        assert(lo == 0 || lo == 1);
        assert(or_spec_tail(a, n1, n2) == or_spec_tail2(a, n1, n2));
        lemma_loop_spec_lang(a, n2, lo, high, false, n1);
        assert forall|w: Seq<u64>| #[trigger] lang(b, r, w) == (lang(a, n1, w) || lang(a, n2, w)) by {
            if low == 2 {
                lemma_loop_with_body(a, n2, high, w, n1);
            } else if lang(a, n2, w) {
                lemma_loop_has_body(a, n2, low, high, w, n1);
            }
        }
    } else {
        let n = SpecNode::<u64>::Or { nodes: sorted_pair(n1, n2) };
        assert(or_spec_tail(a, n1, n2) == alloc_spec(a, n));
        lemma_frag_alloc(a, n);
        lemma_lang_step(a, b, n1);
        lemma_lang_step(a, b, n2);
        assert forall|w: Seq<u64>| #[trigger] lang(b, r, w) == (lang(a, n1, w) || lang(a, n2, w)) by {
            lemma_any_lang_pair(b, n1, n2, w, r);
            lemma_any_lang_pair(b, n2, n1, w, r);
        }
    }
}

/// The normalized union of two fragment nodes matches, on words of letters,
/// the words of either, where its normalizations keep words (`or_safe`).
pub proof fn lemma_or_spec_lang(s: BitSetSolver, a: Seq<SpecInfo<u64>>, n1: NodeId, n2: NodeId)
    requires
        frag_ok(a),
        frag_id(a, n1),
        frag_id(a, n2),
        or_safe(a, n1, n2),
        a.len() < u32::MAX,
    ensures
        or_result(a, or_spec(s, a, n1, n2).0, or_spec(s, a, n1, n2).1, n1, n2),
{
    let (b, r) = or_spec(s, a, n1, n2);
    if n1 == n2 || n1 == nothing_id() || n2 == nothing_id() || n1 == top_star_id() || n2 == top_star_id() {
        lemma_frag_step_refl(a, r);
    } else if is_not_of(a, n1, n2) || is_not_of(a, n2, n1) {
        lemma_frag_step_refl(a, r);
        assert forall|w: Seq<u64>| #[trigger] lang(b, r, w) == (lang(a, n1, w) || lang(a, n2, w)) by {
            if is_not_of(a, n1, n2) {
                assert(children_below(a[n1.0 as int].node, n1.0 as int));
                assert(lang(a, n1, w) == !lang(a, n2, w));
            } else {
                assert(children_below(a[n2.0 as int].node, n2.0 as int));
                assert(lang(a, n2, w) == !lang(a, n1, w));
            }
        }
    } else if let (Some(SpecNode::Singleton(s1)), Some(SpecNode::Singleton(s2))) = (
        node_at(a, n1),
        node_at(a, n2),
    ) {
        let cs = s1 | s2;
        assert(or_spec(s, a, n1, n2) == singleton_spec(s, a, cs));
        assert(n1.0 >= 4 && n2.0 >= 4);
        assert forall|x: u64| letter_ok(a, x) implies class_atomic(x, s1) && class_atomic(x, s2) by {
            assert(match a[n1.0 as int].node {
                SpecNode::Singleton(t) => class_atomic(x, t),
                _ => true,
            });
            assert(match a[n2.0 as int].node {
                SpecNode::Singleton(t) => class_atomic(x, t),
                _ => true,
            });
        }
        if cs == 0 {
            lemma_frag_step_refl(a, r);
            assert(s1 == 0 && s2 == 0) by (bit_vector)
                requires
                    cs == s1 | s2,
                    cs == 0,
            ;
            assert forall|w: Seq<u64>| letters_ok(a, w) implies #[trigger] lang(b, r, w) == (lang(a, n1, w) || lang(
                a,
                n2,
                w,
            )) by {
                if w.len() == 1 {
                    assert(letter_ok(a, w[0]));
                    lemma_class_bits(w[0], s1, s2);
                    lemma_class_bits(w[0], s2, s1);
                }
            }
        } else {
            assert forall|x: u64| letter_ok(a, x) implies #[trigger] class_atomic(x, cs) by {
                lemma_class_bits(x, s1, s2);
            }
            lemma_frag_alloc(a, SpecNode::Singleton(cs));
            assert forall|w: Seq<u64>| letters_ok(a, w) implies #[trigger] lang(b, r, w) == (lang(a, n1, w) || lang(
                a,
                n2,
                w,
            )) by {
                if w.len() == 1 {
                    assert(letter_ok(a, w[0]));
                    lemma_class_bits(w[0], s1, s2);
                }
            }
        }
    } else if n1 == epsilon_id() || n2 == epsilon_id() {
        let n = if n1 == epsilon_id() {
            n2
        } else {
            n1
        };
        lemma_flags_lang(a, n);
        if has_bits(flags_at(a, n), CAN_BE_NULLABLE_BIT) {
            lemma_frag_step_refl(a, r);
            assert forall|w: Seq<u64>| #[trigger] lang(b, r, w) == (lang(a, n1, w) || lang(a, n2, w)) by {
                if w.len() == 0 {
                    assert(w =~= Seq::<u64>::empty());
                }
            }
        } else {
            assert(or_spec(s, a, n1, n2) == loop_spec(a, n, 0, 1, false));
            lemma_or_eps(a, n);
        }
    } else if star_pred(s, a, n1) is Some && star_pred(s, a, n2) is Some && (s.spec_contains(
        star_pred(s, a, n1)->0,
        star_pred(s, a, n2)->0,
    ) || s.spec_contains(star_pred(s, a, n2)->0, star_pred(s, a, n1)->0)) {
        lemma_frag_step_refl(a, r);
        let p1 = star_pred(s, a, n1)->0;
        let p2 = star_pred(s, a, n2)->0;
        assert forall|w: Seq<u64>| #[trigger] lang(b, r, w) == (lang(a, n1, w) || lang(a, n2, w)) by {
            lemma_star_pred_lang(s, a, n1, w);
            lemma_star_pred_lang(s, a, n2, w);
            if s.spec_contains(p1, p2) {
                if all_in(p2, w) {
                    lemma_all_in_mono(p1, p2, w);
                }
            } else {
                if all_in(p1, w) {
                    lemma_all_in_mono(p2, p1, w);
                }
            }
        }
    } else if let (
        Some(SpecNode::Loop { node: inner1, low: l1, high: h1, .. }),
        Some(SpecNode::Loop { node: inner2, low: l2, high: h2, .. }),
    ) = (node_at(a, n1), node_at(a, n2)) {
        if inner1 == inner2 {
            lemma_or_loops(a, n1, n2, inner1, l1, h1, l2, h2);
        } else {
            lemma_or_tail(a, n1, n2);
        }
    } else {
        assert(or_spec(s, a, n1, n2) == or_spec_tail(a, n1, n2));
        lemma_or_tail(a, n1, n2);
    }
}


/// The normalized intersection of two fragment nodes matches, on words of
/// letters, the words of both, where it reads no placeholder (`and_safe`).
pub proof fn lemma_and_spec_lang(s: BitSetSolver, a: Seq<SpecInfo<u64>>, n1: NodeId, n2: NodeId)
    requires
        frag_ok(a),
        frag_id(a, n1),
        frag_id(a, n2),
        and_safe(a, n1, n2),
        a.len() < u32::MAX,
    ensures
        and_result(a, and_spec(s, a, n1, n2).0, and_spec(s, a, n1, n2).1, n1, n2),
{
    let (b, r) = and_spec(s, a, n1, n2);
    if n1 == n2 || n1 == top_star_id() || n2 == top_star_id() || n1 == nothing_id() || n2 == nothing_id() {
        lemma_frag_step_refl(a, r);
    } else if is_not_of(a, n1, n2) || is_not_of(a, n2, n1) {
        lemma_frag_step_refl(a, r);
        assert forall|w: Seq<u64>| #[trigger] lang(b, r, w) == (lang(a, n1, w) && lang(a, n2, w)) by {
            if is_not_of(a, n1, n2) {
                assert(children_below(a[n1.0 as int].node, n1.0 as int));
                assert(lang(a, n1, w) == !lang(a, n2, w));
            } else {
                assert(children_below(a[n2.0 as int].node, n2.0 as int));
                assert(lang(a, n2, w) == !lang(a, n1, w));
            }
        }
    } else if let (Some(SpecNode::Singleton(s1)), Some(SpecNode::Singleton(s2))) = (
        node_at(a, n1),
        node_at(a, n2),
    ) {
        let cs = s1 & s2;
        assert(and_spec(s, a, n1, n2) == singleton_spec(s, a, cs));
        assert(n1.0 >= 4 && n2.0 >= 4);
        if cs == 0 {
            lemma_frag_step_refl(a, r);
            assert forall|w: Seq<u64>| letters_ok(a, w) implies #[trigger] lang(b, r, w) == (lang(a, n1, w) && lang(
                a,
                n2,
                w,
            )) by {
                if w.len() == 1 {
                    assert(letter_ok(a, w[0]));
                    lemma_class_bits(w[0], s1, s2);
                    lemma_class_bits(w[0], cs, s2);
                }
            }
        } else {
            assert forall|x: u64| letter_ok(a, x) implies #[trigger] class_atomic(x, cs) by {
                assert(match a[n1.0 as int].node {
                    SpecNode::Singleton(t) => class_atomic(x, t),
                    _ => true,
                });
                assert(match a[n2.0 as int].node {
                    SpecNode::Singleton(t) => class_atomic(x, t),
                    _ => true,
                });
                lemma_class_bits(x, s1, s2);
            }
            lemma_frag_alloc(a, SpecNode::Singleton(cs));
            assert forall|w: Seq<u64>| #[trigger] lang(b, r, w) == (lang(a, n1, w) && lang(a, n2, w)) by {
                if w.len() == 1 {
                    lemma_class_bits(w[0], s1, s2);
                }
            }
        }
    } else if star_pred(s, a, n1) is Some && star_pred(s, a, n2) is Some && (s.spec_contains(
        star_pred(s, a, n1)->0,
        star_pred(s, a, n2)->0,
    ) || s.spec_contains(star_pred(s, a, n2)->0, star_pred(s, a, n1)->0)) {
        lemma_frag_step_refl(a, r);
        let p1 = star_pred(s, a, n1)->0;
        let p2 = star_pred(s, a, n2)->0;
        assert forall|w: Seq<u64>| #[trigger] lang(b, r, w) == (lang(a, n1, w) && lang(a, n2, w)) by {
            lemma_star_pred_lang(s, a, n1, w);
            lemma_star_pred_lang(s, a, n2, w);
            if s.spec_contains(p1, p2) {
                if all_in(p2, w) {
                    lemma_all_in_mono(p1, p2, w);
                }
            } else {
                if all_in(p1, w) {
                    lemma_all_in_mono(p2, p1, w);
                }
            }
        }
    } else {
        let n = SpecNode::<u64>::And { nodes: sorted_pair(n1, n2) };
        assert(and_spec(s, a, n1, n2) == alloc_spec(a, n));
        lemma_frag_alloc(a, n);
        lemma_lang_step(a, b, n1);
        lemma_lang_step(a, b, n2);
        assert forall|w: Seq<u64>| #[trigger] lang(b, r, w) == (lang(a, n1, w) && lang(a, n2, w)) by {
            lemma_all_lang_pair(b, n1, n2, w, r);
            lemma_all_lang_pair(b, n2, n1, w, r);
        }
    }
}

} // verus!
