//! The derivative's correctness.
//!
//! Over the bit set solver, the derivative of a node by a letter `c`
//! matches exactly the words `w` of letters for which the node matches
//! `c·w`: `L(D_c(R)) = { w | c·w ∈ L(R) }`. The arena the derivative builds
//! extends the old one, stays in the fragment and keeps its letters. The
//! law asks (`deriv_safe`) that none of the normalizations the derivative
//! applies changes a language, which happens only where:
//! - a union merges loops across a gap in their iteration counts
//!   (`D_x(x·a{3} | x·a{6})` merges `a{3}` and `a{6}` into `a{3,6}`, and
//!   `a | a{3,5}` becomes `a{1,5}`), or makes a loop with a lower bound
//!   above one optional (`ε | a{2}` becomes `a{0,2}`);
//! - a loop over a loop is flattened across a gap in its iteration counts
//!   (`(a{2}){0,1}` becomes `a{0,2}`);
//! - a union or intersection reads the placeholder set that `.` holds
//!   (`D_x(x· . | x·[b])` merges `.` and `[b]` into one singleton).
//!
//! Letters are non-empty classes that every set of the arena holds whole or
//! not at all: a union of singletons `[a] | [b]` merges into `[ab]`, which
//! contains the class `{a, b}` that neither part contains, and an
//! intersection with no common element becomes `⊥`, while both parts
//! contain the empty class.
use vstd::prelude::*;
use crate::builder::{concat_spec, loop_spec, not_spec};
use crate::builder_lang::{
    and_safe, frag_id, frag_ok, frag_step, lemma_and_spec_lang, lemma_class_bits, lemma_concat_spec_lang,
    lemma_frag_step_refl, lemma_frag_step_trans, lemma_lang_step, lemma_loop_spec_lang, lemma_not_spec_lang,
    lemma_or_spec_lang, or_safe,
};
use crate::derivative::{
    acc_fits, and_acc_spec, decr, deriv_and_fold, deriv_concat_spec, deriv_loop_spec, deriv_not_spec, deriv_or_fold,
    deriv_spec, or_acc_spec, LocationKind,
};
use crate::node::{any_id, children_below, epsilon_id, nothing_id, top_star_id, NodeId, SpecInfo, SpecNode};
use crate::semantics::{
    all_lang, any_lang, concat_lang, flatten_ok, frag_node, lang, lemma_concat_node_lang, lemma_loop_lang_unfold,
    lemma_nullable_lang, letter_ok, letters_ok, loop_lang,
};
use crate::builder::concat_spec as concat_spec_of;
use crate::derivative::nullable_spec;
use crate::solver::BitSetSolver;

verus! {

/// `b` and its node `d` stand for the derivative by `c` of node `id` of `a`.
pub open spec fn deriv_result(a: Seq<SpecInfo<u64>>, b: Seq<SpecInfo<u64>>, d: NodeId, id: NodeId, c: u64) -> bool {
    &&& frag_step(a, b, d)
    &&& forall|w: Seq<u64>| letters_ok(a, w) ==> (#[trigger] lang(b, d, w) == lang(a, id, seq![c] + w))
}

/// Whether every normalization that the derivative of node `id` by `c`
/// applies keeps languages: its unions are `or_safe`, its intersections
/// `and_safe`, and its loops with one iteration fewer flatten exactly.
pub open spec fn deriv_safe(s: BitSetSolver, a: Seq<SpecInfo<u64>>, loc: LocationKind, c: u64, id: NodeId) -> bool
    decreases id.0, 2nat, 0nat,
{
    if id == epsilon_id() || id == nothing_id() || id == top_star_id() || id == any_id() || (id.0 as int)
        >= a.len() {
        true
    } else {
        match a[id.0 as int].node {
            SpecNode::Loop { node, low, high, lazy } => deriv_loop_safe(s, a, loc, c, id, node, low, high, lazy),
            SpecNode::Or { nodes } => deriv_or_safe(s, a, loc, c, nodes, id),
            SpecNode::And { nodes } => deriv_and_safe(s, a, loc, c, nodes, id),
            SpecNode::Not { inner } => deriv_not_safe(s, a, loc, c, id, inner),
            SpecNode::Concat { head, tail } => deriv_concat_safe(s, a, loc, c, id, head, tail),
            _ => true,
        }
    }
}

/// `deriv_safe` of a loop: the loop with one iteration fewer flattens
/// exactly, and `deriv_safe` of its body holds in the arena after that loop
/// has been built.
pub open spec fn deriv_loop_safe(
    s: BitSetSolver,
    a: Seq<SpecInfo<u64>>,
    loc: LocationKind,
    c: u64,
    id: NodeId,
    r: NodeId,
    low: u32,
    high: u32,
    lazy: bool,
) -> bool
    decreases id.0, 1nat, 0nat,
{
    if r.0 < id.0 {
        &&& flatten_ok(a, r, decr(low), decr(high))
        &&& deriv_safe(s, loop_spec(a, r, decr(low), decr(high), lazy).0, loc, c, r)
    } else {
        true
    }
}

/// `deriv_safe` of a negation: that of its operand.
pub open spec fn deriv_not_safe(
    s: BitSetSolver,
    a: Seq<SpecInfo<u64>>,
    loc: LocationKind,
    c: u64,
    id: NodeId,
    inner: NodeId,
) -> bool
    decreases id.0, 1nat, 0nat,
{
    if inner.0 < id.0 {
        deriv_safe(s, a, loc, c, inner)
    } else {
        true
    }
}

/// `deriv_safe` of a concatenation: that of its head and, where the head
/// matches the empty word, that of its tail and the union of both parts.
pub open spec fn deriv_concat_safe(
    s: BitSetSolver,
    a: Seq<SpecInfo<u64>>,
    loc: LocationKind,
    c: u64,
    id: NodeId,
    head: NodeId,
    tail: NodeId,
) -> bool
    decreases id.0, 1nat, 0nat,
{
    if head.0 < id.0 && tail.0 < id.0 {
        let (a1, dr, ok1) = deriv_spec(s, a, loc, c, head);
        let (a2, dr_s) = concat_spec_of(a1, dr, tail);
        &&& deriv_safe(s, a, loc, c, head)
        &&& if nullable_spec(a2, loc, head) {
            let (a3, ds, ok3) = deriv_spec(s, a2, loc, c, tail);
            &&& deriv_safe(s, a2, loc, c, tail)
            &&& (ds == nothing_id() || dr_s == nothing_id() || or_safe(a3, dr_s, ds))
        } else {
            true
        }
    } else {
        true
    }
}

/// `deriv_safe` of the union of `nodes`: that of each, and of each union of
/// their derivatives.
pub open spec fn deriv_or_safe(
    s: BitSetSolver,
    a: Seq<SpecInfo<u64>>,
    loc: LocationKind,
    c: u64,
    nodes: Seq<NodeId>,
    bound: NodeId,
) -> bool
    decreases bound.0, 1nat, nodes.len(),
{
    if nodes.len() == 0 {
        true
    } else {
        let (a1, acc, ok1) = deriv_or_fold(s, a, loc, c, nodes.drop_last(), bound);
        let last = nodes.last();
        &&& deriv_or_safe(s, a, loc, c, nodes.drop_last(), bound)
        &&& if last.0 < bound.0 {
            let (a2, d, ok2) = deriv_spec(s, a1, loc, c, last);
            &&& deriv_safe(s, a1, loc, c, last)
            &&& (d == nothing_id() || acc == nothing_id() || or_safe(a2, acc, d))
        } else {
            true
        }
    }
}

/// `deriv_safe` of the intersection of `nodes`: that of each, and of each
/// intersection of their derivatives.
pub open spec fn deriv_and_safe(
    s: BitSetSolver,
    a: Seq<SpecInfo<u64>>,
    loc: LocationKind,
    c: u64,
    nodes: Seq<NodeId>,
    bound: NodeId,
) -> bool
    decreases bound.0, 1nat, nodes.len(),
{
    if nodes.len() == 0 {
        true
    } else {
        let (a1, acc, ok1) = deriv_and_fold(s, a, loc, c, nodes.drop_last(), bound);
        let last = nodes.last();
        &&& deriv_and_safe(s, a, loc, c, nodes.drop_last(), bound)
        &&& if last.0 < bound.0 {
            let (a2, d, ok2) = deriv_spec(s, a1, loc, c, last);
            &&& deriv_safe(s, a1, loc, c, last)
            &&& (d == top_star_id() || acc == top_star_id() || and_safe(a2, acc, d))
        } else {
            true
        }
    }
}

/// The words `w` for which `head · tail` matches `c·w` with a non-empty
/// part in `head`.
pub open spec fn concat_cons_lang(a: Seq<SpecInfo<u64>>, head: NodeId, tail: NodeId, c: u64, w: Seq<u64>) -> bool {
    exists|j: int| 0 <= j <= w.len() && #[trigger] lang(a, head, seq![c] + w.take(j)) && lang(a, tail, w.skip(j))
}

/// `c·w` splits between `head` and `tail` either with an empty part in
/// `head` or with a non-empty one.
proof fn lemma_concat_cons(a: Seq<SpecInfo<u64>>, head: NodeId, tail: NodeId, c: u64, w: Seq<u64>)
    ensures
        concat_lang(a, head, tail, seq![c] + w) == ((lang(a, head, Seq::empty()) && lang(a, tail, seq![c] + w))
            || concat_cons_lang(a, head, tail, c, w)),
{
    let v = seq![c] + w;
    assert(v.take(0) =~= Seq::<u64>::empty());
    assert(v.skip(0) =~= v);
    if concat_lang(a, head, tail, v) {
        let i = choose|i: int| 0 <= i <= v.len() && #[trigger] lang(a, head, v.take(i)) && lang(a, tail, v.skip(i));
        if i > 0 {
            assert(v.take(i) =~= seq![c] + w.take(i - 1));
            assert(v.skip(i) =~= w.skip(i - 1));
            assert(lang(a, head, seq![c] + w.take(i - 1)));
        }
    }
    if lang(a, head, Seq::empty()) && lang(a, tail, v) {
        assert(lang(a, head, v.take(0)));
    }
    if concat_cons_lang(a, head, tail, c, w) {
        let j = choose|j: int| 0 <= j <= w.len() && #[trigger] lang(a, head, seq![c] + w.take(j)) && lang(a, tail, w.skip(j));
        assert(v.take(j + 1) =~= seq![c] + w.take(j));
        assert(v.skip(j + 1) =~= w.skip(j));
        assert(lang(a, head, v.take(j + 1)));
    }
}

/// The words `w` for which the loop `r{low,high}` matches `c·w`.
pub open spec fn loop_cons_lang(a: Seq<SpecInfo<u64>>, r: NodeId, low: u32, high: u32, c: u64, w: Seq<u64>, bound: NodeId) -> bool {
    exists|j: int|
        0 <= j <= w.len() && #[trigger] lang(a, r, seq![c] + w.take(j)) && loop_lang(
            a,
            r,
            decr(low),
            decr(high),
            w.skip(j),
            bound,
        )
}

/// `c·w` is a word of a loop when it starts with a non-empty word of the
/// body followed by a word of the loop with one iteration fewer.
proof fn lemma_loop_cons(a: Seq<SpecInfo<u64>>, r: NodeId, low: u32, high: u32, c: u64, w: Seq<u64>, bound: NodeId)
    requires
        r.0 < bound.0,
        low <= high,
        1 <= high,
    ensures
        loop_lang(a, r, low, high, seq![c] + w, bound) == loop_cons_lang(a, r, low, high, c, w, bound),
{
    let v = seq![c] + w;
    lemma_loop_lang_unfold(a, r, low, high, v, bound);
    if loop_lang(a, r, low, high, v, bound) {
        let i = choose|i: int|
            1 <= i <= v.len() && #[trigger] lang(a, r, v.take(i)) && loop_lang(
                a,
                r,
                decr(low),
                decr(high),
                v.skip(i),
                bound,
            );
        assert(v.take(i) =~= seq![c] + w.take(i - 1));
        assert(v.skip(i) =~= w.skip(i - 1));
        assert(lang(a, r, seq![c] + w.take(i - 1)));
    }
    if loop_cons_lang(a, r, low, high, c, w, bound) {
        let j = choose|j: int|
            0 <= j <= w.len() && #[trigger] lang(a, r, seq![c] + w.take(j)) && loop_lang(
                a,
                r,
                decr(low),
                decr(high),
                w.skip(j),
                bound,
            );
        assert(v.take(j + 1) =~= seq![c] + w.take(j));
        assert(v.skip(j + 1) =~= w.skip(j));
        assert(lang(a, r, v.take(j + 1)));
    }
}

/// The derivative of a loop: `D(r) · r{low-1,high-1}`.
proof fn lemma_deriv_loop_lang(
    s: BitSetSolver,
    a: Seq<SpecInfo<u64>>,
    loc: LocationKind,
    c: u64,
    id: NodeId,
    r: NodeId,
    low: u32,
    high: u32,
    lazy: bool,
)
    requires
        frag_ok(a),
        4 <= id.0 < a.len(),
        a[id.0 as int].node == (SpecNode::<u64>::Loop { node: r, low, high, lazy }),
        letter_ok(a, c),
        deriv_loop_spec(s, a, loc, c, id, r, low, high, lazy).2,
        deriv_loop_safe(s, a, loc, c, id, r, low, high, lazy),
    ensures
        deriv_result(
            a,
            deriv_loop_spec(s, a, loc, c, id, r, low, high, lazy).0,
            deriv_loop_spec(s, a, loc, c, id, r, low, high, lazy).1,
            id,
            c,
        ),
    decreases id.0, 1nat, 0nat,
{
    assert(frag_node(a, a[id.0 as int].node));
    assert(children_below(a[id.0 as int].node, id.0 as int));
    let (a1, r_decr) = loop_spec(a, r, decr(low), decr(high), lazy);
    lemma_loop_spec_lang(a, r, decr(low), decr(high), lazy, id);
    let (a2, dr, ok2) = deriv_spec(s, a1, loc, c, r);
    lemma_derivative_lang(s, a1, loc, c, r);
    lemma_lang_step(a, a1, r);
    let (a3, res) = concat_spec(a2, dr, r_decr);
    lemma_lang_step(a1, a2, r_decr);
    lemma_concat_spec_lang(a2, dr, r_decr);
    lemma_frag_step_trans(a1, a2, a3, res);
    lemma_frag_step_trans(a, a1, a3, res);
    assert forall|w: Seq<u64>| letters_ok(a, w) implies #[trigger] lang(a3, res, w) == lang(a, id, seq![c] + w) by {
        lemma_loop_cons(a, r, low, high, c, w, id);
        let l = lang(a, id, seq![c] + w);
        assert(l == loop_lang(a, r, low, high, seq![c] + w, id));
        if concat_lang(a2, dr, r_decr, w) {
            let k = choose|k: int| 0 <= k <= w.len() && #[trigger] lang(a2, dr, w.take(k)) && lang(a2, r_decr, w.skip(k));
            assert(lang(a1, r, seq![c] + w.take(k)));
            assert(lang(a, r, seq![c] + w.take(k)));
        }
        if loop_cons_lang(a, r, low, high, c, w, id) {
            let k = choose|k: int|
                0 <= k <= w.len() && #[trigger] lang(a, r, seq![c] + w.take(k)) && loop_lang(
                    a,
                    r,
                    decr(low),
                    decr(high),
                    w.skip(k),
                    id,
                );
            assert(lang(a1, r, seq![c] + w.take(k)));
            assert(lang(a2, dr, w.take(k)));
            assert(lang(a1, r_decr, w.skip(k)));
        }
    }
}

/// The derivative of a negation: `~D(inner)`.
proof fn lemma_deriv_not_lang(
    s: BitSetSolver,
    a: Seq<SpecInfo<u64>>,
    loc: LocationKind,
    c: u64,
    id: NodeId,
    inner: NodeId,
)
    requires
        frag_ok(a),
        4 <= id.0 < a.len(),
        a[id.0 as int].node == (SpecNode::<u64>::Not { inner }),
        letter_ok(a, c),
        deriv_not_spec(s, a, loc, c, id, inner).2,
        deriv_not_safe(s, a, loc, c, id, inner),
    ensures
        deriv_result(a, deriv_not_spec(s, a, loc, c, id, inner).0, deriv_not_spec(s, a, loc, c, id, inner).1, id, c),
    decreases id.0, 1nat, 0nat,
{
    assert(frag_node(a, a[id.0 as int].node));
    assert(children_below(a[id.0 as int].node, id.0 as int));
    let (a1, d, ok1) = deriv_spec(s, a, loc, c, inner);
    lemma_derivative_lang(s, a, loc, c, inner);
    let (a2, res) = not_spec(a1, d);
    lemma_not_spec_lang(a1, d);
    lemma_frag_step_trans(a, a1, a2, res);
}

/// The first part of the derivative of `head · tail`: `D(head) · tail`
/// matches the words `w` for which `c·w` splits with a non-empty part in
/// `head`.
proof fn lemma_concat_first(a: Seq<SpecInfo<u64>>, a1: Seq<SpecInfo<u64>>, dr: NodeId, head: NodeId, tail: NodeId, c: u64)
    requires
        frag_ok(a),
        (head.0 as int) < a.len(),
        frag_id(a, tail),
        deriv_result(a, a1, dr, head, c),
        a1.len() < u32::MAX,
    ensures
        frag_step(a, concat_spec(a1, dr, tail).0, concat_spec(a1, dr, tail).1),
        forall|w: Seq<u64>|
            letters_ok(a, w) ==> #[trigger] lang(concat_spec(a1, dr, tail).0, concat_spec(a1, dr, tail).1, w) == concat_cons_lang(
                a,
                head,
                tail,
                c,
                w,
            ),
{
    let (a2, dr_s) = concat_spec(a1, dr, tail);
    lemma_lang_step(a, a1, tail);
    lemma_concat_spec_lang(a1, dr, tail);
    lemma_frag_step_trans(a, a1, a2, dr_s);
    assert forall|w: Seq<u64>| letters_ok(a, w) implies #[trigger] lang(a2, dr_s, w) == concat_cons_lang(a, head, tail, c, w) by {
        assert(lang(a2, dr_s, w) == concat_lang(a1, dr, tail, w));
        if concat_lang(a1, dr, tail, w) {
            let k = choose|k: int| 0 <= k <= w.len() && #[trigger] lang(a1, dr, w.take(k)) && lang(a1, tail, w.skip(k));
            assert(lang(a, head, seq![c] + w.take(k)));
        }
        if concat_cons_lang(a, head, tail, c, w) {
            let k = choose|k: int| 0 <= k <= w.len() && #[trigger] lang(a, head, seq![c] + w.take(k)) && lang(a, tail, w.skip(k));
            assert(lang(a1, dr, w.take(k)));
            assert(lang(a1, tail, w.skip(k)));
        }
    }
}

/// The words `w` for which `head · tail` matches `c·w`.
proof fn lemma_concat_target(a: Seq<SpecInfo<u64>>, id: NodeId, head: NodeId, tail: NodeId, c: u64)
    requires
        4 <= id.0 < a.len(),
        a[id.0 as int].node == (SpecNode::<u64>::Concat { head, tail }),
        head.0 < id.0,
        tail.0 < id.0,
    ensures
        forall|w: Seq<u64>| #[trigger] lang(a, id, seq![c] + w) == ((lang(a, head, Seq::empty()) && lang(
            a,
            tail,
            seq![c] + w,
        )) || concat_cons_lang(a, head, tail, c, w)),
{
    assert forall|w: Seq<u64>| #[trigger] lang(a, id, seq![c] + w) == ((lang(a, head, Seq::empty()) && lang(
        a,
        tail,
        seq![c] + w,
    )) || concat_cons_lang(a, head, tail, c, w)) by {
        lemma_concat_node_lang(a, id, head, tail, seq![c] + w);
        lemma_concat_cons(a, head, tail, c, w);
    }
}

/// The derivative of a concatenation: `D(head) · tail`, with `D(tail)` added
/// where `head` matches the empty word.
#[verifier::rlimit(40)]
proof fn lemma_deriv_concat_lang(
    s: BitSetSolver,
    a: Seq<SpecInfo<u64>>,
    loc: LocationKind,
    c: u64,
    id: NodeId,
    head: NodeId,
    tail: NodeId,
)
    requires
        frag_ok(a),
        4 <= id.0 < a.len(),
        a[id.0 as int].node == (SpecNode::<u64>::Concat { head, tail }),
        letter_ok(a, c),
        deriv_concat_spec(s, a, loc, c, id, head, tail).2,
        deriv_concat_safe(s, a, loc, c, id, head, tail),
    ensures
        deriv_result(
            a,
            deriv_concat_spec(s, a, loc, c, id, head, tail).0,
            deriv_concat_spec(s, a, loc, c, id, head, tail).1,
            id,
            c,
        ),
    decreases id.0, 1nat, 0nat,
{
    assert(frag_node(a, a[id.0 as int].node));
    assert(children_below(a[id.0 as int].node, id.0 as int));
    let (a1, dr, ok1) = deriv_spec(s, a, loc, c, head);
    assert(deriv_safe(s, a, loc, c, head));
    lemma_derivative_lang(s, a, loc, c, head);
    let (a2, dr_s) = concat_spec(a1, dr, tail);
    lemma_concat_first(a, a1, dr, head, tail, c);
    lemma_concat_target(a, id, head, tail, c);
    lemma_lang_step(a, a2, head);
    lemma_lang_step(a, a2, tail);
    lemma_nullable_lang(a2, loc, head);
    if lang(a, head, Seq::empty()) {
        let (a3, ds, ok3) = deriv_spec(s, a2, loc, c, tail);
        assert(nullable_spec(a2, loc, head));
        assert(deriv_safe(s, a2, loc, c, tail));
        lemma_derivative_lang(s, a2, loc, c, tail);
        let (a4, res) = or_acc_spec(s, a3, dr_s, ds);
        assert(ds == nothing_id() || dr_s == nothing_id() || or_safe(a3, dr_s, ds));
        assert(deriv_concat_spec(s, a, loc, c, id, head, tail).0 == a4);
        assert(deriv_concat_spec(s, a, loc, c, id, head, tail).1 == res);
        lemma_or_acc_lang(s, a, a2, dr_s, a3, ds);
        assert forall|w: Seq<u64>| letters_ok(a, w) implies #[trigger] lang(a4, res, w) == lang(a, id, seq![c] + w) by {
            assert(lang(a4, res, w) == (lang(a2, dr_s, w) || lang(a3, ds, w)));
            assert(lang(a3, ds, w) == lang(a2, tail, seq![c] + w));
            assert(lang(a2, tail, seq![c] + w) == lang(a, tail, seq![c] + w));
        }
    } else {
        assert(deriv_concat_spec(s, a, loc, c, id, head, tail).0 == a2);
        assert(deriv_concat_spec(s, a, loc, c, id, head, tail).1 == dr_s);
    }
}

/// Adding `y` (of `b2`) to the union `x` (of `b1`) built so far.
proof fn lemma_or_acc_lang(
    s: BitSetSolver,
    a: Seq<SpecInfo<u64>>,
    b1: Seq<SpecInfo<u64>>,
    x: NodeId,
    b2: Seq<SpecInfo<u64>>,
    y: NodeId,
)
    requires
        frag_step(a, b1, x),
        frag_step(b1, b2, y),
        y == nothing_id() || x == nothing_id() || b2.len() < u32::MAX,
        y == nothing_id() || x == nothing_id() || or_safe(b2, x, y),
    ensures
        frag_step(a, or_acc_spec(s, b2, x, y).0, or_acc_spec(s, b2, x, y).1),
        forall|w: Seq<u64>|
            letters_ok(a, w) ==> #[trigger] lang(or_acc_spec(s, b2, x, y).0, or_acc_spec(s, b2, x, y).1, w) == (lang(b1, x, w) || lang(
                b2,
                y,
                w,
            )),
{
    let (b3, r) = or_acc_spec(s, b2, x, y);
    lemma_lang_step(b1, b2, x);
    if y == nothing_id() {
        lemma_frag_step_refl(b2, x);
        lemma_frag_step_trans(b1, b2, b2, x);
        lemma_frag_step_trans(a, b1, b2, x);
    } else if x == nothing_id() {
        lemma_frag_step_trans(a, b1, b2, y);
    } else {
        lemma_or_spec_lang(s, b2, x, y);
        lemma_frag_step_trans(b1, b2, b3, r);
        lemma_frag_step_trans(a, b1, b3, r);
    }
}

/// Adding `y` (of `b2`) to the intersection `x` (of `b1`) built so far.
proof fn lemma_and_acc_lang(
    s: BitSetSolver,
    a: Seq<SpecInfo<u64>>,
    b1: Seq<SpecInfo<u64>>,
    x: NodeId,
    b2: Seq<SpecInfo<u64>>,
    y: NodeId,
)
    requires
        frag_step(a, b1, x),
        frag_step(b1, b2, y),
        y == top_star_id() || x == top_star_id() || b2.len() < u32::MAX,
        y == top_star_id() || x == top_star_id() || and_safe(b2, x, y),
    ensures
        frag_step(a, and_acc_spec(s, b2, x, y).0, and_acc_spec(s, b2, x, y).1),
        forall|w: Seq<u64>|
            letters_ok(a, w) ==> #[trigger] lang(and_acc_spec(s, b2, x, y).0, and_acc_spec(s, b2, x, y).1, w) == (lang(b1, x, w) && lang(
                b2,
                y,
                w,
            )),
{
    let (b3, r) = and_acc_spec(s, b2, x, y);
    lemma_lang_step(b1, b2, x);
    if y == top_star_id() {
        lemma_frag_step_refl(b2, x);
        lemma_frag_step_trans(b1, b2, b2, x);
        lemma_frag_step_trans(a, b1, b2, x);
    } else if x == top_star_id() {
        lemma_frag_step_trans(a, b1, b2, y);
    } else {
        lemma_and_spec_lang(s, b2, x, y);
        lemma_frag_step_trans(b1, b2, b3, r);
        lemma_frag_step_trans(a, b1, b3, r);
    }
}

/// The derivative of the union of `nodes`: the union of their derivatives.
proof fn lemma_deriv_or_fold_lang(
    s: BitSetSolver,
    a: Seq<SpecInfo<u64>>,
    loc: LocationKind,
    c: u64,
    nodes: Seq<NodeId>,
    bound: NodeId,
)
    requires
        frag_ok(a),
        (bound.0 as int) < a.len(),
        forall|i: int| 0 <= i < nodes.len() ==> (#[trigger] nodes[i]).0 < bound.0,
        letter_ok(a, c),
        deriv_or_fold(s, a, loc, c, nodes, bound).2,
        deriv_or_safe(s, a, loc, c, nodes, bound),
    ensures
        frag_step(a, deriv_or_fold(s, a, loc, c, nodes, bound).0, deriv_or_fold(s, a, loc, c, nodes, bound).1),
        forall|w: Seq<u64>|
            letters_ok(a, w) ==> #[trigger] lang(deriv_or_fold(s, a, loc, c, nodes, bound).0, deriv_or_fold(s, a, loc, c, nodes, bound).1, w)
                == any_lang(a, nodes, seq![c] + w, bound),
    decreases bound.0, 1nat, nodes.len(),
{
    if nodes.len() == 0 {
        lemma_frag_step_refl(a, nothing_id());
    } else {
        let prefix = nodes.drop_last();
        let last = nodes.last();
        assert(last == nodes[nodes.len() - 1]);
        let (a1, acc, ok1) = deriv_or_fold(s, a, loc, c, prefix, bound);
        assert(deriv_or_safe(s, a, loc, c, prefix, bound));
        lemma_deriv_or_fold_lang(s, a, loc, c, prefix, bound);
        let (a2, d, ok2) = deriv_spec(s, a1, loc, c, last);
        assert(deriv_safe(s, a1, loc, c, last));
        lemma_derivative_lang(s, a1, loc, c, last);
        let (a3, res) = or_acc_spec(s, a2, acc, d);
        assert(d == nothing_id() || acc == nothing_id() || or_safe(a2, acc, d));
        assert(deriv_or_fold(s, a, loc, c, nodes, bound) == (a3, res, ok1 && ok2 && acc_fits(a2, acc, d, nothing_id())));
        lemma_or_acc_lang(s, a, a1, acc, a2, d);
        lemma_lang_step(a, a1, last);
        assert forall|w: Seq<u64>| letters_ok(a, w) implies #[trigger] lang(a3, res, w) == any_lang(a, nodes, seq![c] + w, bound) by {
            assert(lang(a3, res, w) == (lang(a1, acc, w) || lang(a2, d, w)));
            assert(lang(a1, acc, w) == any_lang(a, prefix, seq![c] + w, bound));
            assert(lang(a2, d, w) == lang(a1, last, seq![c] + w));
            assert(lang(a1, last, seq![c] + w) == lang(a, last, seq![c] + w));
        }
    }
}

/// The derivative of the intersection of `nodes`: the intersection of their
/// derivatives.
proof fn lemma_deriv_and_fold_lang(
    s: BitSetSolver,
    a: Seq<SpecInfo<u64>>,
    loc: LocationKind,
    c: u64,
    nodes: Seq<NodeId>,
    bound: NodeId,
)
    requires
        frag_ok(a),
        (bound.0 as int) < a.len(),
        forall|i: int| 0 <= i < nodes.len() ==> (#[trigger] nodes[i]).0 < bound.0,
        letter_ok(a, c),
        deriv_and_fold(s, a, loc, c, nodes, bound).2,
        deriv_and_safe(s, a, loc, c, nodes, bound),
    ensures
        frag_step(a, deriv_and_fold(s, a, loc, c, nodes, bound).0, deriv_and_fold(s, a, loc, c, nodes, bound).1),
        forall|w: Seq<u64>|
            letters_ok(a, w) ==> #[trigger] lang(deriv_and_fold(s, a, loc, c, nodes, bound).0, deriv_and_fold(s, a, loc, c, nodes, bound).1, w)
                == all_lang(a, nodes, seq![c] + w, bound),
    decreases bound.0, 1nat, nodes.len(),
{
    if nodes.len() == 0 {
        lemma_frag_step_refl(a, top_star_id());
    } else {
        let prefix = nodes.drop_last();
        let last = nodes.last();
        assert(last == nodes[nodes.len() - 1]);
        let (a1, acc, ok1) = deriv_and_fold(s, a, loc, c, prefix, bound);
        assert(deriv_and_safe(s, a, loc, c, prefix, bound));
        lemma_deriv_and_fold_lang(s, a, loc, c, prefix, bound);
        let (a2, d, ok2) = deriv_spec(s, a1, loc, c, last);
        assert(deriv_safe(s, a1, loc, c, last));
        lemma_derivative_lang(s, a1, loc, c, last);
        let (a3, res) = and_acc_spec(s, a2, acc, d);
        assert(deriv_and_fold(s, a, loc, c, nodes, bound) == (a3, res, ok1 && ok2 && acc_fits(a2, acc, d, top_star_id())));
        lemma_and_acc_lang(s, a, a1, acc, a2, d);
        lemma_lang_step(a, a1, last);
        assert forall|w: Seq<u64>| letters_ok(a, w) implies #[trigger] lang(a3, res, w) == all_lang(a, nodes, seq![c] + w, bound) by {
            assert(lang(a3, res, w) == (lang(a1, acc, w) && lang(a2, d, w)));
            assert(lang(a1, acc, w) == all_lang(a, prefix, seq![c] + w, bound));
            assert(lang(a2, d, w) == lang(a1, last, seq![c] + w));
            assert(lang(a1, last, seq![c] + w) == lang(a, last, seq![c] + w));
        }
    }
}

/// The derivative law: on a fragment arena, the derivative of a node by a
/// letter `c` matches exactly the words `w` of letters for which the node
/// matches `c·w`, and the arena it builds extends the old one within the
/// fragment, wherever none of its normalizations changes a language
/// (`deriv_safe`).
pub proof fn lemma_derivative_lang(s: BitSetSolver, a: Seq<SpecInfo<u64>>, loc: LocationKind, c: u64, id: NodeId)
    requires
        frag_ok(a),
        (id.0 as int) < a.len(),
        letter_ok(a, c),
        deriv_spec(s, a, loc, c, id).2,
        deriv_safe(s, a, loc, c, id),
    ensures
        deriv_result(a, deriv_spec(s, a, loc, c, id).0, deriv_spec(s, a, loc, c, id).1, id, c),
    decreases id.0, 2nat, 0nat,
{
    let (b, d, ok) = deriv_spec(s, a, loc, c, id);
    if id == epsilon_id() || id == nothing_id() || id == top_star_id() || id == any_id() {
        lemma_frag_step_refl(a, d);
        assert forall|w: Seq<u64>| letters_ok(a, w) implies #[trigger] lang(b, d, w) == lang(a, id, seq![c] + w) by {
            if id == any_id() && w.len() == 0 {
                assert(w =~= Seq::<u64>::empty());
            }
        }
    } else {
        assert(frag_node(a, a[id.0 as int].node));
        assert(children_below(a[id.0 as int].node, id.0 as int));
        match a[id.0 as int].node {
            SpecNode::Singleton(pred) => {
                lemma_frag_step_refl(a, d);
                lemma_class_bits(c, pred, pred);
                assert forall|w: Seq<u64>| letters_ok(a, w) implies #[trigger] lang(b, d, w) == lang(a, id, seq![c] + w) by {
                    assert((seq![c] + w)[0] == c);
                    if w.len() == 0 {
                        assert(w =~= Seq::<u64>::empty());
                    }
                }
            },
            SpecNode::Loop { node, low, high, lazy } => {
                lemma_deriv_loop_lang(s, a, loc, c, id, node, low, high, lazy);
            },
            SpecNode::Or { nodes } => {
                lemma_deriv_or_fold_lang(s, a, loc, c, nodes, id);
            },
            SpecNode::And { nodes } => {
                lemma_deriv_and_fold_lang(s, a, loc, c, nodes, id);
            },
            SpecNode::Not { inner } => {
                lemma_deriv_not_lang(s, a, loc, c, id, inner);
            },
            SpecNode::Concat { head, tail } => {
                lemma_deriv_concat_lang(s, a, loc, c, id, head, tail);
            },
            _ => {},
        }
    }
}

} // verus!
