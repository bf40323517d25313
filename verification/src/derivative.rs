//! Brzozowski derivatives for regex patterns.
//!
//! The derivative of a pattern R with respect to a character c is a new
//! pattern R' such that: L(R') = { w | cw ∈ L(R) }. `derivative` builds R'
//! with the builder's normalizing operations; `is_nullable` tells whether a
//! pattern matches the empty string at a location.
use vstd::prelude::*;
use crate::builder::{
    alloc_spec, and_spec, concat_fits, concat_spec, lookaround_spec, loop_spec, node_at, not_spec, or_spec,
    RegexBuilder,
};
use crate::flags::{has_bits, lemma_flag_constants, CAN_BE_NULLABLE_BIT, IS_ALWAYS_NULLABLE_BIT};
use crate::node::{
    lemma_flags_consistent, any_id, arena_wf, children_below, epsilon_id, flags_at, nothing_id, top_star_id, NodeId,
    RegexNode, SpecInfo, SpecNode,
};
use crate::solver::CharSetSolver;

verus! {

/// Location within the input string, used for anchor handling.
#[derive(Debug, Clone, Copy, PartialEq, Eq, Structural)]
pub enum LocationKind {
    /// At the beginning of the input.
    Begin,
    /// In the middle of the input (not at either end).
    Center,
    /// At the end of the input.
    End,
}

/// Whether node `id` of arena `a` is nullable at `loc`: the flags decide when
/// they say "never" or "always"; otherwise the node's children decide.
pub open spec fn nullable_spec<T>(a: Seq<SpecInfo<T>>, loc: LocationKind, id: NodeId) -> bool
    decreases id.0, 1nat, 0nat,
{
    let f = flags_at(a, id);
    if !has_bits(f, CAN_BE_NULLABLE_BIT) {
        false
    } else if has_bits(f, IS_ALWAYS_NULLABLE_BIT) {
        true
    } else if (id.0 as int) >= a.len() {
        false
    } else {
        match a[id.0 as int].node {
            SpecNode::Singleton(_) => false,
            SpecNode::Or { nodes } => any_nullable(a, loc, nodes, id),
            SpecNode::And { nodes } => all_nullable(a, loc, nodes, id),
            SpecNode::Loop { node, low, .. } => low == 0 || (node.0 < id.0 && nullable_spec(
                a,
                loc,
                node,
            )),
            SpecNode::Not { inner } => inner.0 < id.0 && !nullable_spec(a, loc, inner),
            SpecNode::Concat { head, tail } => head.0 < id.0 && tail.0 < id.0 && nullable_spec(
                a,
                loc,
                head,
            ) && nullable_spec(a, loc, tail),
            SpecNode::LookAround { inner, .. } => inner.0 < id.0 && nullable_spec(a, loc, inner),
            SpecNode::Begin => loc == LocationKind::Begin,
            SpecNode::End => loc == LocationKind::End,
        }
    }
}

/// Whether one of `nodes`, children of node `bound`, is nullable at `loc`.
pub open spec fn any_nullable<T>(a: Seq<SpecInfo<T>>, loc: LocationKind, nodes: Seq<NodeId>, bound: NodeId) -> bool
    decreases bound.0, 0nat, nodes.len(),
{
    if nodes.len() == 0 {
        false
    } else if any_nullable(a, loc, nodes.drop_last(), bound) {
        true
    } else if nodes.last().0 < bound.0 {
        nullable_spec(a, loc, nodes.last())
    } else {
        false
    }
}

/// Whether all of `nodes`, children of node `bound`, are nullable at `loc`.
pub open spec fn all_nullable<T>(a: Seq<SpecInfo<T>>, loc: LocationKind, nodes: Seq<NodeId>, bound: NodeId) -> bool
    decreases bound.0, 0nat, nodes.len(),
{
    if nodes.len() == 0 {
        true
    } else if !all_nullable(a, loc, nodes.drop_last(), bound) {
        false
    } else if nodes.last().0 < bound.0 {
        nullable_spec(a, loc, nodes.last())
    } else {
        false
    }
}

/// Check if a regex pattern is nullable (can match the empty string)
/// at the given location.
///
/// This takes into account anchors (^ and $) which are only nullable
/// at specific locations.
pub fn is_nullable<S: CharSetSolver>(builder: &RegexBuilder<S>, loc: LocationKind, id: NodeId) -> (r: bool)
    requires
        builder.wf(),
    ensures
        r == nullable_spec(builder.spec_arena(), loc, id),
    decreases id.0, 1nat, 0nat,
{
    let ghost a = builder.spec_arena();
    let flags = builder.flags(id);
    // Fast path: use precomputed flags
    if !flags.can_be_nullable() {
        return false;
    }
    if flags.is_always_nullable() {
        return true;
    }
    // Need to check recursively
    let info = match builder.get_info(id) {
        Some(info) => info,
        None => {
            return false;
        },
    };
    proof {
        lemma_flag_constants();
        assert(id.0 >= 4);
        assert(children_below(a[id.0 as int].node, id.0 as int));
    }
    match &info.node {
        RegexNode::Singleton(_) => false,
        RegexNode::Or { nodes } => {
            let mut i: usize = 0;
            while i < nodes.len()
                invariant
                    builder.wf(),
                    a == builder.spec_arena(),
                    i <= nodes.len(),
                    forall|j: int| 0 <= j < nodes.len() ==> #[trigger] nodes@[j].0 < id.0,
                    !any_nullable(a, loc, nodes@.take(i as int), id),
                    (id.0 as int) < a.len(),
                    has_bits(flags_at(a, id), CAN_BE_NULLABLE_BIT),
                    !has_bits(flags_at(a, id), IS_ALWAYS_NULLABLE_BIT),
                    a[id.0 as int].node == (SpecNode::<S::CharSet>::Or { nodes: nodes@ }),
                decreases nodes.len() - i,
            {
                let ghost pre = nodes@.take(i as int);
                proof {
                    assert(nodes@.take(i + 1).drop_last() =~= pre);
                }
                if is_nullable(builder, loc, nodes[i]) {
                    proof {
                        lemma_any_nullable_prefix(a, loc, nodes@, id, i + 1);
                    }
                    return true;
                }
                i = i + 1;
            }
            proof {
                assert(nodes@.take(nodes.len() as int) =~= nodes@);
            }
            false
        },
        RegexNode::And { nodes } => {
            let mut i: usize = 0;
            while i < nodes.len()
                invariant
                    builder.wf(),
                    a == builder.spec_arena(),
                    i <= nodes.len(),
                    forall|j: int| 0 <= j < nodes.len() ==> #[trigger] nodes@[j].0 < id.0,
                    all_nullable(a, loc, nodes@.take(i as int), id),
                    (id.0 as int) < a.len(),
                    has_bits(flags_at(a, id), CAN_BE_NULLABLE_BIT),
                    !has_bits(flags_at(a, id), IS_ALWAYS_NULLABLE_BIT),
                    a[id.0 as int].node == (SpecNode::<S::CharSet>::And { nodes: nodes@ }),
                decreases nodes.len() - i,
            {
                let ghost pre = nodes@.take(i as int);
                proof {
                    assert(nodes@.take(i + 1).drop_last() =~= pre);
                }
                if !is_nullable(builder, loc, nodes[i]) {
                    proof {
                        lemma_all_nullable_prefix(a, loc, nodes@, id, i + 1);
                    }
                    return false;
                }
                i = i + 1;
            }
            proof {
                assert(nodes@.take(nodes.len() as int) =~= nodes@);
            }
            true
        },
        RegexNode::Loop { node, low, .. } => *low == 0 || is_nullable(builder, loc, *node),
        RegexNode::Not { inner } => !is_nullable(builder, loc, *inner),
        RegexNode::Concat { head, tail } => {
            is_nullable(builder, loc, *head) && is_nullable(builder, loc, *tail)
        },
        RegexNode::LookAround { inner, .. } => is_nullable(builder, loc, *inner),
        RegexNode::Begin => loc == LocationKind::Begin,
        RegexNode::End => loc == LocationKind::End,
    }
}

/// The bound of a loop after one character is consumed: unbounded and zero
/// bounds stay, others go down by one.
pub open spec fn decr(x: u32) -> u32 {
    if x == u32::MAX || x == 0 {
        x
    } else {
        (x - 1) as u32
    }
}

/// The derivative of node `id` of arena `a` by `c` at `loc`: the arena after
/// the nodes it needs have been built, the derivative's id, and whether every
/// step was within bounds (the arena kept below `u32::MAX` nodes and every
/// concatenation's minimum length fitting in a `u32`).
pub open spec fn deriv_spec<S: CharSetSolver>(
    s: S,
    a: Seq<SpecInfo<S::CharSet>>,
    loc: LocationKind,
    c: S::CharSet,
    id: NodeId,
) -> (Seq<SpecInfo<S::CharSet>>, NodeId, bool)
    decreases id.0, 2nat, 0nat,
{
    if id == epsilon_id() || id == nothing_id() {
        (a, nothing_id(), true)
    } else if id == top_star_id() {
        (a, top_star_id(), true)
    } else if id == any_id() {
        (a, epsilon_id(), true)
    } else if (id.0 as int) >= a.len() {
        (a, nothing_id(), true)
    } else {
        match a[id.0 as int].node {
            SpecNode::Singleton(pred) => (a, if s.spec_contains(pred, c) {
                epsilon_id()
            } else {
                nothing_id()
            }, true),
            SpecNode::Loop { node, low, high, lazy } => deriv_loop_spec(
                s,
                a,
                loc,
                c,
                id,
                node,
                low,
                high,
                lazy,
            ),
            SpecNode::Or { nodes } => deriv_or_fold(s, a, loc, c, nodes, id),
            SpecNode::And { nodes } => deriv_and_fold(s, a, loc, c, nodes, id),
            SpecNode::Not { inner } => deriv_not_spec(s, a, loc, c, id, inner),
            SpecNode::Concat { head, tail } => deriv_concat_spec(s, a, loc, c, id, head, tail),
            SpecNode::LookAround { inner, look_back, negative } => deriv_lookaround_spec(
                s,
                a,
                loc,
                c,
                id,
                inner,
                look_back,
                negative,
            ),
            SpecNode::Begin => (a, nothing_id(), true),
            SpecNode::End => (a, nothing_id(), true),
        }
    }
}

/// The derivative of the loop `id` = `r{low,high}`: `D(r) · r{low-1,high-1}`.
pub open spec fn deriv_loop_spec<S: CharSetSolver>(
    s: S,
    a: Seq<SpecInfo<S::CharSet>>,
    loc: LocationKind,
    c: S::CharSet,
    id: NodeId,
    r: NodeId,
    low: u32,
    high: u32,
    lazy: bool,
) -> (Seq<SpecInfo<S::CharSet>>, NodeId, bool)
    decreases id.0, 1nat, 0nat,
{
    if r.0 < id.0 {
        let (a1, r_decr) = loop_spec(a, r, decr(low), decr(high), lazy);
        let (a2, dr, ok2) = deriv_spec(s, a1, loc, c, r);
        let (a3, res) = concat_spec(a2, dr, r_decr);
        (a3, res, a.len() < u32::MAX && ok2 && a2.len() < u32::MAX && concat_fits(a2, dr, r_decr))
    } else {
        (a, nothing_id(), false)
    }
}

/// The derivative of the negation `id` = `~inner`: `~D(inner)`.
pub open spec fn deriv_not_spec<S: CharSetSolver>(
    s: S,
    a: Seq<SpecInfo<S::CharSet>>,
    loc: LocationKind,
    c: S::CharSet,
    id: NodeId,
    inner: NodeId,
) -> (Seq<SpecInfo<S::CharSet>>, NodeId, bool)
    decreases id.0, 1nat, 0nat,
{
    if inner.0 < id.0 {
        let (a1, d, ok1) = deriv_spec(s, a, loc, c, inner);
        let (a2, res) = not_spec(a1, d);
        (a2, res, ok1 && a1.len() < u32::MAX)
    } else {
        (a, nothing_id(), false)
    }
}

/// The derivative of the concatenation `id` = `head · tail`:
/// `D(head) · tail`, united with `D(tail)` where `head` is nullable.
pub open spec fn deriv_concat_spec<S: CharSetSolver>(
    s: S,
    a: Seq<SpecInfo<S::CharSet>>,
    loc: LocationKind,
    c: S::CharSet,
    id: NodeId,
    head: NodeId,
    tail: NodeId,
) -> (Seq<SpecInfo<S::CharSet>>, NodeId, bool)
    decreases id.0, 1nat, 0nat,
{
    if head.0 < id.0 && tail.0 < id.0 {
        let (a1, dr, ok1) = deriv_spec(s, a, loc, c, head);
        let (a2, dr_s) = concat_spec(a1, dr, tail);
        let ok2 = ok1 && a1.len() < u32::MAX && concat_fits(a1, dr, tail);
        if nullable_spec(a2, loc, head) {
            let (a3, ds, ok3) = deriv_spec(s, a2, loc, c, tail);
            if ds == nothing_id() {
                (a3, dr_s, ok2 && ok3)
            } else if dr_s == nothing_id() {
                (a3, ds, ok2 && ok3)
            } else {
                let (a4, res) = or_spec(s, a3, dr_s, ds);
                (a4, res, ok2 && ok3 && a3.len() < u32::MAX)
            }
        } else {
            (a2, dr_s, ok2)
        }
    } else {
        (a, nothing_id(), false)
    }
}

/// The node whose derivative a lookaround over `inner` takes: for a
/// lookbehind over `_* · r`, it is `r`; otherwise `inner` itself.
pub open spec fn lookaround_target<T>(a: Seq<SpecInfo<T>>, inner: NodeId, look_back: bool) -> NodeId {
    if look_back && (inner.0 as int) < a.len() && a[inner.0 as int].node is Concat
        && a[inner.0 as int].node->Concat_head == top_star_id() {
        a[inner.0 as int].node->Concat_tail
    } else {
        inner
    }
}

/// The derivative of the lookaround `id` over `inner`: the same lookaround
/// over the derivative of its target.
pub open spec fn deriv_lookaround_spec<S: CharSetSolver>(
    s: S,
    a: Seq<SpecInfo<S::CharSet>>,
    loc: LocationKind,
    c: S::CharSet,
    id: NodeId,
    inner: NodeId,
    look_back: bool,
    negative: bool,
) -> (Seq<SpecInfo<S::CharSet>>, NodeId, bool)
    decreases id.0, 1nat, 0nat,
{
    let target = lookaround_target(a, inner, look_back);
    if target.0 < id.0 {
        let (a1, d, ok1) = deriv_spec(s, a, loc, c, target);
        let (a2, res) = lookaround_spec(a1, d, look_back, negative);
        (a2, res, ok1 && a1.len() < u32::MAX)
    } else {
        (a, nothing_id(), false)
    }
}

/// Adding the derivative `d` of one more child to the union `acc` built so
/// far: `NOTHING` on either side is dropped.
pub open spec fn or_acc_spec<S: CharSetSolver>(
    s: S,
    a: Seq<SpecInfo<S::CharSet>>,
    acc: NodeId,
    d: NodeId,
) -> (Seq<SpecInfo<S::CharSet>>, NodeId) {
    if d == nothing_id() {
        (a, acc)
    } else if acc == nothing_id() {
        (a, d)
    } else {
        or_spec(s, a, acc, d)
    }
}

/// Adding the derivative `d` of one more child to the intersection `acc`
/// built so far: `TOP_STAR` on either side is dropped.
pub open spec fn and_acc_spec<S: CharSetSolver>(
    s: S,
    a: Seq<SpecInfo<S::CharSet>>,
    acc: NodeId,
    d: NodeId,
) -> (Seq<SpecInfo<S::CharSet>>, NodeId) {
    if d == top_star_id() {
        (a, acc)
    } else if acc == top_star_id() {
        (a, d)
    } else {
        and_spec(s, a, acc, d)
    }
}

/// Whether combining `acc` and `d` stays within the arena's bounds: no node
/// is built when either is the `unit` of the combination.
pub open spec fn acc_fits<T>(a: Seq<SpecInfo<T>>, acc: NodeId, d: NodeId, unit: NodeId) -> bool {
    d == unit || acc == unit || a.len() < u32::MAX
}

/// The derivative of an `Or` node over `nodes`: the union, built from the
/// first child on, of the children's derivatives that are not `NOTHING`.
pub open spec fn deriv_or_fold<S: CharSetSolver>(
    s: S,
    a: Seq<SpecInfo<S::CharSet>>,
    loc: LocationKind,
    c: S::CharSet,
    nodes: Seq<NodeId>,
    bound: NodeId,
) -> (Seq<SpecInfo<S::CharSet>>, NodeId, bool)
    decreases bound.0, 1nat, nodes.len(),
{
    if nodes.len() == 0 {
        (a, nothing_id(), true)
    } else {
        let (a1, acc, ok1) = deriv_or_fold(s, a, loc, c, nodes.drop_last(), bound);
        let last = nodes.last();
        if last.0 < bound.0 {
            let (a2, d, ok2) = deriv_spec(s, a1, loc, c, last);
            let (a3, res) = or_acc_spec(s, a2, acc, d);
            (a3, res, ok1 && ok2 && acc_fits(a2, acc, d, nothing_id()))
        } else {
            (a1, acc, false)
        }
    }
}

/// The derivative of an `And` node over `nodes`: the intersection, built from
/// the first child on, of the children's derivatives that are not `TOP_STAR`.
pub open spec fn deriv_and_fold<S: CharSetSolver>(
    s: S,
    a: Seq<SpecInfo<S::CharSet>>,
    loc: LocationKind,
    c: S::CharSet,
    nodes: Seq<NodeId>,
    bound: NodeId,
) -> (Seq<SpecInfo<S::CharSet>>, NodeId, bool)
    decreases bound.0, 1nat, nodes.len(),
{
    if nodes.len() == 0 {
        (a, top_star_id(), true)
    } else {
        let (a1, acc, ok1) = deriv_and_fold(s, a, loc, c, nodes.drop_last(), bound);
        let last = nodes.last();
        if last.0 < bound.0 {
            let (a2, d, ok2) = deriv_spec(s, a1, loc, c, last);
            let (a3, res) = and_acc_spec(s, a2, acc, d);
            (a3, res, ok1 && ok2 && acc_fits(a2, acc, d, top_star_id()))
        } else {
            (a1, acc, false)
        }
    }
}

/// `b` holds `a` as a prefix, is well formed, and `id` is one of its nodes.
pub open spec fn grows<T>(a: Seq<SpecInfo<T>>, b: Seq<SpecInfo<T>>, id: NodeId) -> bool {
    &&& a.len() <= b.len()
    &&& b.take(a.len() as int) == a
    &&& (id.0 as int) < b.len()
    &&& arena_wf(b)
}

fn decr_bound(x: u32) -> (r: u32)
    ensures
        r == decr(x),
{
    if x == u32::MAX || x == 0 {
        x
    } else {
        x - 1
    }
}

/// Compute the Brzozowski derivative of a pattern with respect to a character.
///
/// * `builder` - The regex builder (for creating new nodes)
/// * `loc` - The current location in the input
/// * `char_class` - The character class (minterm) being consumed
/// * `id` - The node ID to derive
///
/// Returns the node ID of the derivative pattern.
pub fn derivative<S: CharSetSolver>(
    builder: &mut RegexBuilder<S>,
    loc: LocationKind,
    char_class: S::CharSet,
    id: NodeId,
) -> (r: NodeId)
    requires
        old(builder).wf(),
        deriv_spec(old(builder).spec_solver(), old(builder).spec_arena(), loc, char_class, id).2,
    ensures
        (final(builder).spec_arena(), r) == deriv_parts(
            deriv_spec(old(builder).spec_solver(), old(builder).spec_arena(), loc, char_class, id),
        ),
        final(builder).spec_solver() == old(builder).spec_solver(),
        grows(old(builder).spec_arena(), final(builder).spec_arena(), r),
    decreases id.0, 2nat, 0nat,
{
    let ghost a = builder.spec_arena();
    proof {
        assert(a.take(a.len() as int) =~= a);
    }
    // Handle special nodes
    if id == NodeId::EPSILON() || id == NodeId::NOTHING() {
        return NodeId::NOTHING();
    }
    // D_c(_*) = _* (TOP_STAR matches any string including empty)
    if id == NodeId::TOP_STAR() {
        return NodeId::TOP_STAR();
    }
    // D_c(.) = ε (ANY matches any single character)
    if id == NodeId::ANY() {
        return NodeId::EPSILON();
    }
    let info_node = match builder.get_info(id) {
        Some(info) => copy_node_shape(&info.node),
        None => {
            return NodeId::NOTHING();
        },
    };
    proof {
        assert(children_below(a[id.0 as int].node, id.0 as int));
    }
    match info_node {
        NodeShape::Singleton(pred) => {
            // D_c([pred]) = ε if c ∈ pred, else ⊥
            if builder.solver().contains(&pred, &char_class) {
                NodeId::EPSILON()
            } else {
                NodeId::NOTHING()
            }
        },
        NodeShape::Loop { node, low, high, lazy } => derivative_loop(
            builder,
            loc,
            char_class,
            id,
            node,
            low,
            high,
            lazy,
        ),
        NodeShape::Or { nodes } => derivative_or(builder, loc, char_class, &nodes, id),
        NodeShape::And { nodes } => derivative_and(builder, loc, char_class, &nodes, id),
        NodeShape::Not { inner } => derivative_not(builder, loc, char_class, id, inner),
        NodeShape::Concat { head, tail } => derivative_concat(
            builder,
            loc,
            char_class,
            id,
            head,
            tail,
        ),
        NodeShape::LookAround { inner, look_back, negative } => derivative_lookaround(
            builder,
            loc,
            char_class,
            id,
            inner,
            look_back,
            negative,
        ),
        // Anchors don't consume characters
        NodeShape::Begin => NodeId::NOTHING(),
        NodeShape::End => NodeId::NOTHING(),
    }
}

/// The arena and the node of a derivative, without its bounds flag.
pub open spec fn deriv_parts<T>(d: (Seq<SpecInfo<T>>, NodeId, bool)) -> (Seq<SpecInfo<T>>, NodeId) {
    (d.0, d.1)
}

/// D_c(R{m,n}) = D_c(R) · R{m-1, n-1}
fn derivative_loop<S: CharSetSolver>(
    builder: &mut RegexBuilder<S>,
    loc: LocationKind,
    char_class: S::CharSet,
    id: NodeId,
    r: NodeId,
    low: u32,
    high: u32,
    lazy: bool,
) -> (res: NodeId)
    requires
        old(builder).wf(),
        (id.0 as int) < old(builder).spec_arena().len(),
        r.0 < id.0,
        deriv_loop_spec(old(builder).spec_solver(), old(builder).spec_arena(), loc, char_class, id, r, low, high, lazy).2,
    ensures
        (final(builder).spec_arena(), res) == deriv_parts(
            deriv_loop_spec(old(builder).spec_solver(), old(builder).spec_arena(), loc, char_class, id, r, low, high, lazy),
        ),
        final(builder).spec_solver() == old(builder).spec_solver(),
        grows(old(builder).spec_arena(), final(builder).spec_arena(), res),
    decreases id.0, 1nat, 0nat,
{
    let ghost a0 = builder.spec_arena();
    let r_decr = builder.loop_(r, decr_bound(low), decr_bound(high), lazy);
    let ghost a1 = builder.spec_arena();
    let dr = derivative(builder, loc, char_class, r);
    let ghost a2 = builder.spec_arena();
    proof {
        assert(a1.take(a0.len() as int) == a0);
        assert(a2.take(a1.len() as int) == a1);
        assert(a2.take(a0.len() as int) =~= a0);
    }
    let res = builder.concat(dr, r_decr);
    proof {
        lemma_grows_trans(a0, a2, builder.spec_arena(), res);
    }
    res
}

/// D_c(~R) = ~D_c(R)
fn derivative_not<S: CharSetSolver>(
    builder: &mut RegexBuilder<S>,
    loc: LocationKind,
    char_class: S::CharSet,
    id: NodeId,
    inner: NodeId,
) -> (res: NodeId)
    requires
        old(builder).wf(),
        (id.0 as int) < old(builder).spec_arena().len(),
        inner.0 < id.0,
        deriv_not_spec(old(builder).spec_solver(), old(builder).spec_arena(), loc, char_class, id, inner).2,
    ensures
        (final(builder).spec_arena(), res) == deriv_parts(
            deriv_not_spec(old(builder).spec_solver(), old(builder).spec_arena(), loc, char_class, id, inner),
        ),
        final(builder).spec_solver() == old(builder).spec_solver(),
        grows(old(builder).spec_arena(), final(builder).spec_arena(), res),
    decreases id.0, 1nat, 0nat,
{
    let ghost a0 = builder.spec_arena();
    let d = derivative(builder, loc, char_class, inner);
    let ghost a1 = builder.spec_arena();
    let res = builder.not(d);
    proof {
        lemma_grows_trans(a0, a1, builder.spec_arena(), res);
    }
    res
}

/// D_c(RS) = D_c(R)S | nullable(R)?D_c(S)
fn derivative_concat<S: CharSetSolver>(
    builder: &mut RegexBuilder<S>,
    loc: LocationKind,
    char_class: S::CharSet,
    id: NodeId,
    head: NodeId,
    tail: NodeId,
) -> (res: NodeId)
    requires
        old(builder).wf(),
        (id.0 as int) < old(builder).spec_arena().len(),
        head.0 < id.0,
        tail.0 < id.0,
        deriv_concat_spec(old(builder).spec_solver(), old(builder).spec_arena(), loc, char_class, id, head, tail).2,
    ensures
        (final(builder).spec_arena(), res) == deriv_parts(
            deriv_concat_spec(old(builder).spec_solver(), old(builder).spec_arena(), loc, char_class, id, head, tail),
        ),
        final(builder).spec_solver() == old(builder).spec_solver(),
        grows(old(builder).spec_arena(), final(builder).spec_arena(), res),
    decreases id.0, 1nat, 0nat,
{
    let ghost a0 = builder.spec_arena();
    let dr = derivative(builder, loc, char_class, head);
    let ghost a1 = builder.spec_arena();
    let dr_s = builder.concat(dr, tail);
    let ghost a2 = builder.spec_arena();
    proof {
        lemma_grows_trans(a0, a1, a2, dr_s);
    }
    if is_nullable(builder, loc, head) {
        let ds = derivative(builder, loc, char_class, tail);
        let ghost a3 = builder.spec_arena();
        proof {
            lemma_grows_trans(a0, a2, a3, ds);
            assert(a3.take(a2.len() as int) == a2);
            assert((dr_s.0 as int) < a3.len());
        }
        if ds == NodeId::NOTHING() {
            dr_s
        } else if dr_s == NodeId::NOTHING() {
            ds
        } else {
            let res = builder.or(dr_s, ds);
            proof {
                lemma_grows_trans(a0, a3, builder.spec_arena(), res);
            }
            res
        }
    } else {
        dr_s
    }
}

/// Lookahead: D_c((?=R)) = (?=D_c(R)); lookbehind: D_c((?<=R)) = (?<=D_c(R)),
/// where a leading `_*` of R is dropped: (?<=_*R) -> (?<=D_c(R)).
fn derivative_lookaround<S: CharSetSolver>(
    builder: &mut RegexBuilder<S>,
    loc: LocationKind,
    char_class: S::CharSet,
    id: NodeId,
    inner: NodeId,
    look_back: bool,
    negative: bool,
) -> (res: NodeId)
    requires
        old(builder).wf(),
        (id.0 as int) < old(builder).spec_arena().len(),
        inner.0 < id.0,
        deriv_lookaround_spec(old(builder).spec_solver(), old(builder).spec_arena(), loc, char_class, id, inner, look_back, negative).2,
    ensures
        (final(builder).spec_arena(), res) == deriv_parts(
            deriv_lookaround_spec(old(builder).spec_solver(), old(builder).spec_arena(), loc, char_class, id, inner, look_back, negative),
        ),
        final(builder).spec_solver() == old(builder).spec_solver(),
        grows(old(builder).spec_arena(), final(builder).spec_arena(), res),
    decreases id.0, 1nat, 0nat,
{
    let ghost a0 = builder.spec_arena();
    let mut target = inner;
    if look_back {
        match builder.get_info(inner) {
            Some(i) => match &i.node {
                RegexNode::Concat { head, tail } => {
                    if *head == NodeId::TOP_STAR() {
                        target = *tail;
                    }
                },
                _ => {},
            },
            None => {},
        }
    }
    proof {
        assert(target == lookaround_target(a0, inner, look_back));
        if target != inner {
            assert(inner.0 >= 4);
            assert(children_below(a0[inner.0 as int].node, inner.0 as int));
        }
    }
    let d = derivative(builder, loc, char_class, target);
    let ghost a1 = builder.spec_arena();
    let res = builder.lookaround(d, look_back, negative);
    proof {
        lemma_grows_trans(a0, a1, builder.spec_arena(), res);
    }
    res
}

/// A copy of a node, with the child list copied into a fresh vector.
enum NodeShape<T> {
    Concat { head: NodeId, tail: NodeId },
    Or { nodes: Vec<NodeId> },
    And { nodes: Vec<NodeId> },
    Singleton(T),
    Loop { node: NodeId, low: u32, high: u32, lazy: bool },
    Not { inner: NodeId },
    LookAround { inner: NodeId, look_back: bool, negative: bool },
    Begin,
    End,
}

impl<T> View for NodeShape<T> {
    type V = SpecNode<T>;

    closed spec fn view(&self) -> SpecNode<T> {
        match self {
            NodeShape::Concat { head, tail } => SpecNode::Concat { head: *head, tail: *tail },
            NodeShape::Or { nodes } => SpecNode::Or { nodes: nodes@ },
            NodeShape::And { nodes } => SpecNode::And { nodes: nodes@ },
            NodeShape::Singleton(c) => SpecNode::Singleton(*c),
            NodeShape::Loop { node, low, high, lazy } => SpecNode::Loop {
                node: *node,
                low: *low,
                high: *high,
                lazy: *lazy,
            },
            NodeShape::Not { inner } => SpecNode::Not { inner: *inner },
            NodeShape::LookAround { inner, look_back, negative } => SpecNode::LookAround {
                inner: *inner,
                look_back: *look_back,
                negative: *negative,
            },
            NodeShape::Begin => SpecNode::Begin,
            NodeShape::End => SpecNode::End,
        }
    }
}

fn copy_ids(v: &Vec<NodeId>) -> (r: Vec<NodeId>)
    ensures
        r@ == v@,
{
    let mut r: Vec<NodeId> = Vec::new();
    let mut i: usize = 0;
    while i < v.len()
        invariant
            i <= v.len(),
            r@ == v@.take(i as int),
        decreases v.len() - i,
    {
        r.push(v[i]);
        i = i + 1;
        assert(r@ =~= v@.take(i as int));
    }
    assert(v@.take(v.len() as int) =~= v@);
    r
}

fn copy_node_shape<T: Copy>(n: &RegexNode<T>) -> (r: NodeShape<T>)
    ensures
        r@ == n@,
{
    match n {
        RegexNode::Concat { head, tail } => NodeShape::Concat { head: *head, tail: *tail },
        RegexNode::Or { nodes } => NodeShape::Or { nodes: copy_ids(nodes) },
        RegexNode::And { nodes } => NodeShape::And { nodes: copy_ids(nodes) },
        RegexNode::Singleton(c) => NodeShape::Singleton(*c),
        RegexNode::Loop { node, low, high, lazy } => NodeShape::Loop {
            node: *node,
            low: *low,
            high: *high,
            lazy: *lazy,
        },
        RegexNode::Not { inner } => NodeShape::Not { inner: *inner },
        RegexNode::LookAround { inner, look_back, negative } => NodeShape::LookAround {
            inner: *inner,
            look_back: *look_back,
            negative: *negative,
        },
        RegexNode::Begin => NodeShape::Begin,
        RegexNode::End => NodeShape::End,
    }
}

/// Adds `d` to the union `acc`.
fn or_acc<S: CharSetSolver>(builder: &mut RegexBuilder<S>, acc: NodeId, d: NodeId) -> (r: NodeId)
    requires
        old(builder).wf(),
        (acc.0 as int) < old(builder).spec_arena().len(),
        (d.0 as int) < old(builder).spec_arena().len(),
        acc_fits(old(builder).spec_arena(), acc, d, nothing_id()),
    ensures
        (final(builder).spec_arena(), r) == or_acc_spec(old(builder).spec_solver(), old(builder).spec_arena(), acc, d),
        final(builder).spec_solver() == old(builder).spec_solver(),
        grows(old(builder).spec_arena(), final(builder).spec_arena(), r),
{
    proof {
        let a = builder.spec_arena();
        assert(a.take(a.len() as int) =~= a);
    }
    if d == NodeId::NOTHING() {
        acc
    } else if acc == NodeId::NOTHING() {
        d
    } else {
        builder.or(acc, d)
    }
}

/// Adds `d` to the intersection `acc`.
fn and_acc<S: CharSetSolver>(builder: &mut RegexBuilder<S>, acc: NodeId, d: NodeId) -> (r: NodeId)
    requires
        old(builder).wf(),
        (acc.0 as int) < old(builder).spec_arena().len(),
        (d.0 as int) < old(builder).spec_arena().len(),
        acc_fits(old(builder).spec_arena(), acc, d, top_star_id()),
    ensures
        (final(builder).spec_arena(), r) == and_acc_spec(old(builder).spec_solver(), old(builder).spec_arena(), acc, d),
        final(builder).spec_solver() == old(builder).spec_solver(),
        grows(old(builder).spec_arena(), final(builder).spec_arena(), r),
{
    proof {
        let a = builder.spec_arena();
        assert(a.take(a.len() as int) =~= a);
    }
    if d == NodeId::TOP_STAR() {
        acc
    } else if acc == NodeId::TOP_STAR() {
        d
    } else {
        builder.and(acc, d)
    }
}

/// The derivative of an `Or` node with children `nodes`.
fn derivative_or<S: CharSetSolver>(
    builder: &mut RegexBuilder<S>,
    loc: LocationKind,
    char_class: S::CharSet,
    nodes: &Vec<NodeId>,
    id: NodeId,
) -> (r: NodeId)
    requires
        old(builder).wf(),
        forall|j: int| 0 <= j < nodes.len() ==> #[trigger] nodes@[j].0 < id.0,
        (id.0 as int) < old(builder).spec_arena().len(),
        deriv_or_fold(old(builder).spec_solver(), old(builder).spec_arena(), loc, char_class, nodes@, id).2,
    ensures
        (final(builder).spec_arena(), r) == deriv_parts(
            deriv_or_fold(old(builder).spec_solver(), old(builder).spec_arena(), loc, char_class, nodes@, id),
        ),
        final(builder).spec_solver() == old(builder).spec_solver(),
        grows(old(builder).spec_arena(), final(builder).spec_arena(), r),
    decreases id.0, 1nat, nodes.len() + 1,
{
    let ghost a0 = builder.spec_arena();
    let ghost s = builder.spec_solver();
    let mut result = NodeId::NOTHING();
    let mut i: usize = 0;
    proof {
        assert(a0.take(a0.len() as int) =~= a0);
        assert(nodes@.take(0) =~= Seq::<NodeId>::empty());
        lemma_or_fold_ok_prefix(s, a0, loc, char_class, nodes@, id, 0);
    }
    while i < nodes.len()
        invariant
            i <= nodes.len(),
            builder.spec_solver() == s,
            forall|j: int| 0 <= j < nodes.len() ==> #[trigger] nodes@[j].0 < id.0,
            (id.0 as int) < a0.len(),
            deriv_or_fold(s, a0, loc, char_class, nodes@, id).2,
            builder.spec_arena() == deriv_or_fold(s, a0, loc, char_class, nodes@.take(i as int), id).0,
            result == deriv_or_fold(s, a0, loc, char_class, nodes@.take(i as int), id).1,
            deriv_or_fold(s, a0, loc, char_class, nodes@.take(i as int), id).2,
            grows(a0, builder.spec_arena(), result),
        decreases nodes.len() - i,
    {
        let node = nodes[i];
        let ghost pre = nodes@.take(i as int);
        let ghost post = nodes@.take(i + 1);
        proof {
            assert(post.drop_last() =~= pre);
            assert(post.last() == node);
            lemma_or_fold_ok_prefix(s, a0, loc, char_class, nodes@, id, i + 1);
        }
        let ghost a1 = builder.spec_arena();
        let d = derivative(builder, loc, char_class, node);
        let ghost a2 = builder.spec_arena();
        proof {
            lemma_grows_trans(a0, a1, a2, d);
            assert(a2.take(a1.len() as int) == a1);
            assert((result.0 as int) < a2.len());
        }
        result = or_acc(builder, result, d);
        i = i + 1;
        proof {
            lemma_grows_trans(a0, a2, builder.spec_arena(), result);
        }
    }
    proof {
        assert(nodes@.take(nodes.len() as int) =~= nodes@);
    }
    result
}

/// The derivative of an `And` node with children `nodes`.
fn derivative_and<S: CharSetSolver>(
    builder: &mut RegexBuilder<S>,
    loc: LocationKind,
    char_class: S::CharSet,
    nodes: &Vec<NodeId>,
    id: NodeId,
) -> (r: NodeId)
    requires
        old(builder).wf(),
        forall|j: int| 0 <= j < nodes.len() ==> #[trigger] nodes@[j].0 < id.0,
        (id.0 as int) < old(builder).spec_arena().len(),
        deriv_and_fold(old(builder).spec_solver(), old(builder).spec_arena(), loc, char_class, nodes@, id).2,
    ensures
        (final(builder).spec_arena(), r) == deriv_parts(
            deriv_and_fold(old(builder).spec_solver(), old(builder).spec_arena(), loc, char_class, nodes@, id),
        ),
        final(builder).spec_solver() == old(builder).spec_solver(),
        grows(old(builder).spec_arena(), final(builder).spec_arena(), r),
    decreases id.0, 1nat, nodes.len() + 1,
{
    let ghost a0 = builder.spec_arena();
    let ghost s = builder.spec_solver();
    let mut result = NodeId::TOP_STAR();
    let mut i: usize = 0;
    proof {
        assert(a0.take(a0.len() as int) =~= a0);
        assert(nodes@.take(0) =~= Seq::<NodeId>::empty());
        lemma_and_fold_ok_prefix(s, a0, loc, char_class, nodes@, id, 0);
    }
    while i < nodes.len()
        invariant
            i <= nodes.len(),
            builder.spec_solver() == s,
            forall|j: int| 0 <= j < nodes.len() ==> #[trigger] nodes@[j].0 < id.0,
            (id.0 as int) < a0.len(),
            deriv_and_fold(s, a0, loc, char_class, nodes@, id).2,
            builder.spec_arena() == deriv_and_fold(s, a0, loc, char_class, nodes@.take(i as int), id).0,
            result == deriv_and_fold(s, a0, loc, char_class, nodes@.take(i as int), id).1,
            deriv_and_fold(s, a0, loc, char_class, nodes@.take(i as int), id).2,
            grows(a0, builder.spec_arena(), result),
        decreases nodes.len() - i,
    {
        let node = nodes[i];
        let ghost pre = nodes@.take(i as int);
        let ghost post = nodes@.take(i + 1);
        proof {
            assert(post.drop_last() =~= pre);
            assert(post.last() == node);
            lemma_and_fold_ok_prefix(s, a0, loc, char_class, nodes@, id, i + 1);
        }
        let ghost a1 = builder.spec_arena();
        let d = derivative(builder, loc, char_class, node);
        let ghost a2 = builder.spec_arena();
        proof {
            lemma_grows_trans(a0, a1, a2, d);
            assert(a2.take(a1.len() as int) == a1);
            assert((result.0 as int) < a2.len());
        }
        result = and_acc(builder, result, d);
        i = i + 1;
        proof {
            lemma_grows_trans(a0, a2, builder.spec_arena(), result);
        }
    }
    proof {
        assert(nodes@.take(nodes.len() as int) =~= nodes@);
    }
    result
}

/// Growth of arenas composes.
proof fn lemma_grows_trans<T>(a: Seq<SpecInfo<T>>, b: Seq<SpecInfo<T>>, c: Seq<SpecInfo<T>>, id: NodeId)
    requires
        a.len() <= b.len(),
        b.take(a.len() as int) == a,
        grows(b, c, id),
    ensures
        grows(a, c, id),
{
    assert(c.take(a.len() as int) =~= b.take(a.len() as int));
}

/// A fold over a prefix of the children is within bounds when the whole fold is.
proof fn lemma_or_fold_ok_prefix<S: CharSetSolver>(
    s: S,
    a: Seq<SpecInfo<S::CharSet>>,
    loc: LocationKind,
    c: S::CharSet,
    nodes: Seq<NodeId>,
    bound: NodeId,
    k: int,
)
    requires
        0 <= k <= nodes.len(),
        deriv_or_fold(s, a, loc, c, nodes, bound).2,
    ensures
        deriv_or_fold(s, a, loc, c, nodes.take(k), bound).2,
    decreases nodes.len() - k,
{
    if k < nodes.len() {
        assert(nodes.take(k + 1).drop_last() =~= nodes.take(k));
        lemma_or_fold_ok_prefix(s, a, loc, c, nodes, bound, k + 1);
    } else {
        assert(nodes.take(k) =~= nodes);
    }
}

/// A fold over a prefix of the children is within bounds when the whole fold is.
proof fn lemma_and_fold_ok_prefix<S: CharSetSolver>(
    s: S,
    a: Seq<SpecInfo<S::CharSet>>,
    loc: LocationKind,
    c: S::CharSet,
    nodes: Seq<NodeId>,
    bound: NodeId,
    k: int,
)
    requires
        0 <= k <= nodes.len(),
        deriv_and_fold(s, a, loc, c, nodes, bound).2,
    ensures
        deriv_and_fold(s, a, loc, c, nodes.take(k), bound).2,
    decreases nodes.len() - k,
{
    if k < nodes.len() {
        assert(nodes.take(k + 1).drop_last() =~= nodes.take(k));
        lemma_and_fold_ok_prefix(s, a, loc, c, nodes, bound, k + 1);
    } else {
        assert(nodes.take(k) =~= nodes);
    }
}

/// Once a prefix of the children holds a nullable one, so do the children.
proof fn lemma_any_nullable_prefix<T>(a: Seq<SpecInfo<T>>, loc: LocationKind, nodes: Seq<NodeId>, bound: NodeId, k: int)
    requires
        0 <= k <= nodes.len(),
        any_nullable(a, loc, nodes.take(k), bound),
    ensures
        any_nullable(a, loc, nodes, bound),
    decreases nodes.len() - k,
{
    if k < nodes.len() {
        assert(nodes.take(k + 1).drop_last() =~= nodes.take(k));
        lemma_any_nullable_prefix(a, loc, nodes, bound, k + 1);
    } else {
        assert(nodes.take(k) =~= nodes);
    }
}

/// Once a prefix of the children holds one that is not nullable, so do the
/// children.
proof fn lemma_all_nullable_prefix<T>(a: Seq<SpecInfo<T>>, loc: LocationKind, nodes: Seq<NodeId>, bound: NodeId, k: int)
    requires
        0 <= k <= nodes.len(),
        !all_nullable(a, loc, nodes.take(k), bound),
    ensures
        !all_nullable(a, loc, nodes, bound),
    decreases nodes.len() - k,
{
    if k < nodes.len() {
        assert(nodes.take(k + 1).drop_last() =~= nodes.take(k));
        lemma_all_nullable_prefix(a, loc, nodes, bound, k + 1);
    } else {
        assert(nodes.take(k) =~= nodes);
    }
}

/// The derivatives of the pre-allocated nodes, at every location and by
/// every character: D(ε) = ⊥, D(⊥) = ⊥, D(_*) = _* and D(.) = ε; none of
/// them adds a node or can fail.
pub proof fn lemma_derivative_of_special_nodes<S: CharSetSolver>(
    s: S,
    a: Seq<SpecInfo<S::CharSet>>,
    loc: LocationKind,
    c: S::CharSet,
)
    ensures
        deriv_spec(s, a, loc, c, epsilon_id()) == (a, nothing_id(), true),
        deriv_spec(s, a, loc, c, nothing_id()) == (a, nothing_id(), true),
        deriv_spec(s, a, loc, c, top_star_id()) == (a, top_star_id(), true),
        deriv_spec(s, a, loc, c, any_id()) == (a, epsilon_id(), true),
{
}

/// The derivative of a singleton is `ε` when the character is in its set and
/// `⊥` otherwise, and adds no node.
pub proof fn lemma_derivative_of_singleton<S: CharSetSolver>(
    s: S,
    a: Seq<SpecInfo<S::CharSet>>,
    loc: LocationKind,
    c: S::CharSet,
    id: NodeId,
)
    requires
        arena_wf(a),
        4 <= id.0 < a.len(),
        a[id.0 as int].node is Singleton,
    ensures
        deriv_spec(s, a, loc, c, id) == (a, if s.spec_contains(a[id.0 as int].node->Singleton_0, c) {
            epsilon_id()
        } else {
            nothing_id()
        }, true),
{
}

/// Anchors consume no character: the derivative of `^` and of `$` is `⊥`.
pub proof fn lemma_derivative_of_anchors<S: CharSetSolver>(
    s: S,
    a: Seq<SpecInfo<S::CharSet>>,
    loc: LocationKind,
    c: S::CharSet,
    id: NodeId,
)
    requires
        arena_wf(a),
        4 <= id.0 < a.len(),
        a[id.0 as int].node is Begin || a[id.0 as int].node is End,
    ensures
        deriv_spec(s, a, loc, c, id) == (a, nothing_id(), true),
{
}

/// The flags decide nullability where they are conclusive: a node whose
/// flags say it cannot be nullable is nullable nowhere, and one whose flags
/// say it is always nullable is nullable everywhere.
pub proof fn lemma_nullable_flags<T>(a: Seq<SpecInfo<T>>, loc: LocationKind, id: NodeId)
    ensures
        !has_bits(flags_at(a, id), CAN_BE_NULLABLE_BIT) ==> !nullable_spec(a, loc, id),
        has_bits(flags_at(a, id), CAN_BE_NULLABLE_BIT) && has_bits(flags_at(a, id), IS_ALWAYS_NULLABLE_BIT)
            ==> nullable_spec(a, loc, id),
{
}


/// In a well formed arena the flags bound nullability at every location:
/// `CAN_BE_NULLABLE` over-approximates it (a node without it is nullable
/// nowhere) and `IS_ALWAYS_NULLABLE` under-approximates it (a node with it is
/// nullable everywhere).
pub proof fn lemma_flags_sound<T>(a: Seq<SpecInfo<T>>, loc: LocationKind, id: NodeId)
    requires
        arena_wf(a),
    ensures
        !has_bits(flags_at(a, id), CAN_BE_NULLABLE_BIT) ==> !nullable_spec(a, loc, id),
        has_bits(flags_at(a, id), IS_ALWAYS_NULLABLE_BIT) ==> nullable_spec(a, loc, id),
{
    lemma_flags_consistent(a, id);
    lemma_nullable_flags(a, loc, id);
}

/// `b` holds `a` as a prefix.
pub open spec fn prefix_of<T>(a: Seq<SpecInfo<T>>, b: Seq<SpecInfo<T>>) -> bool {
    a.len() <= b.len() && b.take(a.len() as int) == a
}

/// Holding a prefix composes.
pub proof fn lemma_prefix_trans<T>(a: Seq<SpecInfo<T>>, b: Seq<SpecInfo<T>>, c: Seq<SpecInfo<T>>)
    requires
        prefix_of(a, b),
        prefix_of(b, c),
    ensures
        prefix_of(a, c),
{
    assert(c.take(a.len() as int) =~= b.take(a.len() as int));
}

/// Adding a node keeps the arena as a prefix.
pub proof fn lemma_alloc_prefix<T>(a: Seq<SpecInfo<T>>, n: SpecNode<T>)
    ensures
        prefix_of(a, alloc_spec(a, n).0),
{
    assert(alloc_spec(a, n).0.take(a.len() as int) =~= a);
}

/// A normalized loop keeps the arena as a prefix.
proof fn lemma_loop_spec_prefix<T>(a: Seq<SpecInfo<T>>, node: NodeId, low: u32, high: u32, lazy: bool)
    ensures
        prefix_of(a, loop_spec(a, node, low, high, lazy).0),
    decreases node.0,
{
    assert(a.take(a.len() as int) =~= a);
    lemma_alloc_prefix(a, SpecNode::Loop { node, low, high, lazy });
    if let Some(SpecNode::Loop { node: inner, low: il, high: ih, .. }) = node_at(a, node) {
        if inner.0 < node.0 {
            let nl = crate::builder::sat_mul(il, low);
            let nh = if ih == u32::MAX || high == u32::MAX {
                u32::MAX
            } else {
                crate::builder::sat_mul(ih, high)
            };
            lemma_loop_spec_prefix(a, inner, nl, nh, lazy);
        }
    }
}

/// A normalized union keeps the arena as a prefix.
proof fn lemma_or_spec_prefix<S: CharSetSolver>(s: S, a: Seq<SpecInfo<S::CharSet>>, n1: NodeId, n2: NodeId)
    ensures
        prefix_of(a, or_spec(s, a, n1, n2).0),
{
    assert(a.take(a.len() as int) =~= a);
    if let (Some(SpecNode::Singleton(s1)), Some(SpecNode::Singleton(s2))) = (node_at(a, n1), node_at(a, n2)) {
        lemma_alloc_prefix(a, SpecNode::Singleton(s.spec_or(s1, s2)));
    }
    lemma_loop_spec_prefix(a, n1, 0, 1, false);
    lemma_loop_spec_prefix(a, n2, 0, 1, false);
    if let (
        Some(SpecNode::Loop { node: inner1, low: l1, high: h1, .. }),
        Some(SpecNode::Loop { low: l2, high: h2, .. }),
    ) = (node_at(a, n1), node_at(a, n2)) {
        lemma_loop_spec_prefix(a, inner1, crate::builder::min_u32(l1, l2), crate::builder::max_u32(h1, h2), false);
    }
    if let Some(SpecNode::Loop { low, high, .. }) = node_at(a, n2) {
        lemma_loop_spec_prefix(a, n1, crate::builder::min_u32(low, 1), high, false);
    }
    if let Some(SpecNode::Loop { low, high, .. }) = node_at(a, n1) {
        lemma_loop_spec_prefix(a, n2, crate::builder::min_u32(low, 1), high, false);
    }
    lemma_alloc_prefix(a, SpecNode::Or { nodes: crate::builder::sorted_pair(n1, n2) });
}

/// A normalized intersection keeps the arena as a prefix.
proof fn lemma_and_spec_prefix<S: CharSetSolver>(s: S, a: Seq<SpecInfo<S::CharSet>>, n1: NodeId, n2: NodeId)
    ensures
        prefix_of(a, and_spec(s, a, n1, n2).0),
{
    assert(a.take(a.len() as int) =~= a);
    if let (Some(SpecNode::Singleton(s1)), Some(SpecNode::Singleton(s2))) = (node_at(a, n1), node_at(a, n2)) {
        lemma_alloc_prefix(a, SpecNode::Singleton(s.spec_and(s1, s2)));
    }
    lemma_alloc_prefix(a, SpecNode::And { nodes: crate::builder::sorted_pair(n1, n2) });
}

/// The derivative only adds nodes: the old arena is a prefix of the new one.
pub proof fn lemma_deriv_prefix<S: CharSetSolver>(
    s: S,
    a: Seq<SpecInfo<S::CharSet>>,
    loc: LocationKind,
    c: S::CharSet,
    id: NodeId,
)
    ensures
        prefix_of(a, deriv_spec(s, a, loc, c, id).0),
    decreases id.0, 2nat, 0nat,
{
    assert(a.take(a.len() as int) =~= a);
    if id == epsilon_id() || id == nothing_id() || id == top_star_id() || id == any_id() || (id.0 as int)
        >= a.len() {
    } else {
        match a[id.0 as int].node {
            SpecNode::Loop { node: r, low, high, lazy } => {
                if r.0 < id.0 {
                    let (a1, r_decr) = loop_spec(a, r, decr(low), decr(high), lazy);
                    lemma_loop_spec_prefix(a, r, decr(low), decr(high), lazy);
                    let (a2, dr, ok2) = deriv_spec(s, a1, loc, c, r);
                    lemma_deriv_prefix(s, a1, loc, c, r);
                    lemma_prefix_trans(a, a1, a2);
                    lemma_alloc_prefix(a2, SpecNode::Concat { head: dr, tail: r_decr });
                    assert(a2.take(a2.len() as int) =~= a2);
                    lemma_prefix_trans(a, a2, concat_spec(a2, dr, r_decr).0);
                }
            },
            SpecNode::Or { nodes } => {
                lemma_or_fold_prefix(s, a, loc, c, nodes, id);
            },
            SpecNode::And { nodes } => {
                lemma_and_fold_prefix(s, a, loc, c, nodes, id);
            },
            SpecNode::Not { inner } => {
                if inner.0 < id.0 {
                    let (a1, d, ok1) = deriv_spec(s, a, loc, c, inner);
                    lemma_deriv_prefix(s, a, loc, c, inner);
                    lemma_alloc_prefix(a1, SpecNode::Not { inner: d });
                    assert(a1.take(a1.len() as int) =~= a1);
                    lemma_prefix_trans(a, a1, not_spec(a1, d).0);
                }
            },
            SpecNode::Concat { head, tail } => {
                if head.0 < id.0 && tail.0 < id.0 {
                    let (a1, dr, ok1) = deriv_spec(s, a, loc, c, head);
                    lemma_deriv_prefix(s, a, loc, c, head);
                    let (a2, dr_s) = concat_spec(a1, dr, tail);
                    lemma_alloc_prefix(a1, SpecNode::Concat { head: dr, tail });
                    assert(a1.take(a1.len() as int) =~= a1);
                    lemma_prefix_trans(a, a1, a2);
                    let (a3, ds, ok3) = deriv_spec(s, a2, loc, c, tail);
                    lemma_deriv_prefix(s, a2, loc, c, tail);
                    lemma_prefix_trans(a, a2, a3);
                    lemma_or_spec_prefix(s, a3, dr_s, ds);
                    lemma_prefix_trans(a, a3, or_spec(s, a3, dr_s, ds).0);
                }
            },
            SpecNode::LookAround { inner, look_back, negative } => {
                let target = lookaround_target(a, inner, look_back);
                if target.0 < id.0 {
                    let (a1, d, ok1) = deriv_spec(s, a, loc, c, target);
                    lemma_deriv_prefix(s, a, loc, c, target);
                    lemma_alloc_prefix(a1, SpecNode::LookAround { inner: d, look_back, negative });
                    assert(a1.take(a1.len() as int) =~= a1);
                    lemma_prefix_trans(a, a1, lookaround_spec(a1, d, look_back, negative).0);
                }
            },
            _ => {},
        }
    }
}

proof fn lemma_or_fold_prefix<S: CharSetSolver>(
    s: S,
    a: Seq<SpecInfo<S::CharSet>>,
    loc: LocationKind,
    c: S::CharSet,
    nodes: Seq<NodeId>,
    bound: NodeId,
)
    ensures
        prefix_of(a, deriv_or_fold(s, a, loc, c, nodes, bound).0),
    decreases bound.0, 1nat, nodes.len(),
{
    assert(a.take(a.len() as int) =~= a);
    if nodes.len() > 0 {
        let (a1, acc, ok1) = deriv_or_fold(s, a, loc, c, nodes.drop_last(), bound);
        lemma_or_fold_prefix(s, a, loc, c, nodes.drop_last(), bound);
        let last = nodes.last();
        if last.0 < bound.0 {
            let (a2, d, ok2) = deriv_spec(s, a1, loc, c, last);
            lemma_deriv_prefix(s, a1, loc, c, last);
            lemma_prefix_trans(a, a1, a2);
            lemma_or_spec_prefix(s, a2, acc, d);
            assert(a2.take(a2.len() as int) =~= a2);
            lemma_prefix_trans(a, a2, or_acc_spec(s, a2, acc, d).0);
        }
    }
}

proof fn lemma_and_fold_prefix<S: CharSetSolver>(
    s: S,
    a: Seq<SpecInfo<S::CharSet>>,
    loc: LocationKind,
    c: S::CharSet,
    nodes: Seq<NodeId>,
    bound: NodeId,
)
    ensures
        prefix_of(a, deriv_and_fold(s, a, loc, c, nodes, bound).0),
    decreases bound.0, 1nat, nodes.len(),
{
    assert(a.take(a.len() as int) =~= a);
    if nodes.len() > 0 {
        let (a1, acc, ok1) = deriv_and_fold(s, a, loc, c, nodes.drop_last(), bound);
        lemma_and_fold_prefix(s, a, loc, c, nodes.drop_last(), bound);
        let last = nodes.last();
        if last.0 < bound.0 {
            let (a2, d, ok2) = deriv_spec(s, a1, loc, c, last);
            lemma_deriv_prefix(s, a1, loc, c, last);
            lemma_prefix_trans(a, a1, a2);
            lemma_and_spec_prefix(s, a2, acc, d);
            assert(a2.take(a2.len() as int) =~= a2);
            lemma_prefix_trans(a, a2, and_acc_spec(s, a2, acc, d).0);
        }
    }
}

} // verus!
