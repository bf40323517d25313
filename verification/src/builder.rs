//! Regex pattern builder with subsumption-based normalization.
//!
//! The builder applies simplification rules while it constructs patterns:
//! identity (A | ⊥ = A, A & ⊤ = A), idempotency (A | A = A, A & A = A),
//! absorption (A | ⊤ = ⊤, A & ⊥ = ⊥), complements (A | ~A = ⊤, A & ~A = ⊥)
//! and subsumption of star loops (a* | .* = .*, .* & .*s = .*s).
//!
//! Each operation is described by a spec function from the solver, the arena
//! and the arguments to the new arena and the resulting id.
use vstd::prelude::*;
use crate::flags::{has_bits, NodeFlags, CAN_BE_NULLABLE_BIT};
use crate::node::{
    any_id, arena_wf, children_below, epsilon_id, flags_at, min_length_fits, mk_info, nothing_id,
    top_star_id, NodeId, NodeInfo, RegexNode, RegexNodeArena, SpecInfo, SpecNode,
};
use crate::solver::CharSetSolver;

verus! {

/// The node stored at `id`, if `id` is in the arena.
pub open spec fn node_at<T>(a: Seq<SpecInfo<T>>, id: NodeId) -> Option<SpecNode<T>> {
    if (id.0 as int) < a.len() {
        Some(a[id.0 as int].node)
    } else {
        None
    }
}

/// Adding node `n` to arena `a`: the new arena and the new node's id.
pub open spec fn alloc_spec<T>(a: Seq<SpecInfo<T>>, n: SpecNode<T>) -> (Seq<SpecInfo<T>>, NodeId) {
    (a.push(mk_info(a, n)), NodeId(a.len() as u32))
}

/// `x * y`, or `u32::MAX` where the product does not fit.
pub open spec fn sat_mul(x: u32, y: u32) -> u32 {
    if x * y > u32::MAX {
        u32::MAX
    } else {
        (x * y) as u32
    }
}

/// The smaller of two bounds.
pub open spec fn min_u32(x: u32, y: u32) -> u32 {
    if x <= y {
        x
    } else {
        y
    }
}

/// The larger of two bounds.
pub open spec fn max_u32(x: u32, y: u32) -> u32 {
    if x >= y {
        x
    } else {
        y
    }
}

/// A singleton over `cs`: `NOTHING` when the set is empty.
pub open spec fn singleton_spec<S: CharSetSolver>(
    s: S,
    a: Seq<SpecInfo<S::CharSet>>,
    cs: S::CharSet,
) -> (Seq<SpecInfo<S::CharSet>>, NodeId) {
    if s.spec_is_empty(cs) {
        (a, nothing_id())
    } else {
        alloc_spec(a, SpecNode::Singleton(cs))
    }
}

/// A normalized concatenation.
pub open spec fn concat_spec<T>(a: Seq<SpecInfo<T>>, head: NodeId, tail: NodeId) -> (
    Seq<SpecInfo<T>>,
    NodeId,
) {
    if head == epsilon_id() {
        (a, tail)
    } else if tail == epsilon_id() {
        (a, head)
    } else if head == nothing_id() || tail == nothing_id() {
        (a, nothing_id())
    } else {
        alloc_spec(a, SpecNode::Concat { head, tail })
    }
}

/// Whether the concatenation of `head` and `tail` can be built: its minimum
/// length fits in a `u32` where a node is allocated.
pub open spec fn concat_fits<T>(a: Seq<SpecInfo<T>>, head: NodeId, tail: NodeId) -> bool {
    head == epsilon_id() || tail == epsilon_id() || head == nothing_id() || tail == nothing_id()
        || min_length_fits(a, SpecNode::Concat { head, tail })
}

/// A normalized loop.
pub open spec fn loop_spec<T>(a: Seq<SpecInfo<T>>, node: NodeId, low: u32, high: u32, lazy: bool) -> (
    Seq<SpecInfo<T>>,
    NodeId,
)
    decreases node.0,
{
    if low > high {
        (a, nothing_id())
    } else if low == 1 && high == 1 {
        (a, node)
    } else if high == 0 {
        (a, epsilon_id())
    } else if node == epsilon_id() {
        (a, epsilon_id())
    } else if node == nothing_id() {
        (a, if low == 0 {
            epsilon_id()
        } else {
            nothing_id()
        })
    } else if let Some(SpecNode::Loop { node: inner, low: inner_low, high: inner_high, .. }) =
        node_at(a, node) {
        let new_low = sat_mul(inner_low, low);
        let new_high = if inner_high == u32::MAX || high == u32::MAX {
            u32::MAX
        } else {
            sat_mul(inner_high, high)
        };
        if inner.0 < node.0 {
            loop_spec(a, inner, new_low, new_high, lazy)
        } else {
            (a, nothing_id())
        }
    } else {
        alloc_spec(a, SpecNode::Loop { node, low, high, lazy })
    }
}

/// The predicate of a star loop over a singleton (`TOP_STAR` counts, with the
/// full set), if `id` is one.
pub open spec fn star_pred<S: CharSetSolver>(s: S, a: Seq<SpecInfo<S::CharSet>>, id: NodeId) -> Option<
    S::CharSet,
> {
    if id == top_star_id() {
        Some(s.spec_full())
    } else if let Some(SpecNode::Loop { node, low, high, .. }) = node_at(a, id) {
        if low == 0 && high == u32::MAX {
            if let Some(SpecNode::Singleton(cs)) = node_at(a, node) {
                Some(cs)
            } else {
                None
            }
        } else {
            None
        }
    } else {
        None
    }
}

/// Whether `id` is a negation of `other` in `a`.
pub open spec fn is_not_of<T>(a: Seq<SpecInfo<T>>, id: NodeId, other: NodeId) -> bool {
    node_at(a, id) == Some(SpecNode::<T>::Not { inner: other })
}

/// The two children of a binary `Or`/`And` node, in increasing order.
pub open spec fn sorted_pair(n1: NodeId, n2: NodeId) -> Seq<NodeId> {
    if n1.0 < n2.0 {
        seq![n1, n2]
    } else {
        seq![n2, n1]
    }
}

/// A normalized alternation of two patterns.
pub open spec fn or_spec<S: CharSetSolver>(
    s: S,
    a: Seq<SpecInfo<S::CharSet>>,
    n1: NodeId,
    n2: NodeId,
) -> (Seq<SpecInfo<S::CharSet>>, NodeId) {
    if n1 == n2 {
        (a, n1)
    } else if n1 == nothing_id() {
        (a, n2)
    } else if n2 == nothing_id() {
        (a, n1)
    } else if n1 == top_star_id() || n2 == top_star_id() {
        (a, top_star_id())
    } else if is_not_of(a, n1, n2) || is_not_of(a, n2, n1) {
        (a, top_star_id())
    } else if let (Some(SpecNode::Singleton(s1)), Some(SpecNode::Singleton(s2))) = (
        node_at(a, n1),
        node_at(a, n2),
    ) {
        singleton_spec(s, a, s.spec_or(s1, s2))
    } else if n1 == epsilon_id() {
        if has_bits(flags_at(a, n2), CAN_BE_NULLABLE_BIT) {
            (a, n2)
        } else {
            loop_spec(a, n2, 0, 1, false)
        }
    } else if n2 == epsilon_id() {
        if has_bits(flags_at(a, n1), CAN_BE_NULLABLE_BIT) {
            (a, n1)
        } else {
            loop_spec(a, n1, 0, 1, false)
        }
    } else if star_pred(s, a, n1) is Some && star_pred(s, a, n2) is Some && s.spec_contains(
        star_pred(s, a, n1)->0,
        star_pred(s, a, n2)->0,
    ) {
        (a, n1)
    } else if star_pred(s, a, n1) is Some && star_pred(s, a, n2) is Some && s.spec_contains(
        star_pred(s, a, n2)->0,
        star_pred(s, a, n1)->0,
    ) {
        (a, n2)
    } else if let (
        Some(SpecNode::Loop { node: inner1, low: low1, high: high1, .. }),
        Some(SpecNode::Loop { node: inner2, low: low2, high: high2, .. }),
    ) = (node_at(a, n1), node_at(a, n2)) {
        if inner1 == inner2 {
            loop_spec(a, inner1, min_u32(low1, low2), max_u32(high1, high2), false)
        } else {
            or_spec_tail(a, n1, n2)
        }
    } else {
        or_spec_tail(a, n1, n2)
    }
}

/// The last rules of `or_spec`: a loop over the other argument widens to take
/// it in, else a new `Or` node is made.
pub open spec fn or_spec_tail<T>(a: Seq<SpecInfo<T>>, n1: NodeId, n2: NodeId) -> (
    Seq<SpecInfo<T>>,
    NodeId,
) {
    if let Some(SpecNode::Loop { node: inner, low, high, .. }) = node_at(a, n2) {
        if inner == n1 {
            loop_spec(a, n1, min_u32(low, 1), high, false)
        } else {
            or_spec_tail2(a, n1, n2)
        }
    } else {
        or_spec_tail2(a, n1, n2)
    }
}

/// The last rules of `or_spec`, second part.
pub open spec fn or_spec_tail2<T>(a: Seq<SpecInfo<T>>, n1: NodeId, n2: NodeId) -> (
    Seq<SpecInfo<T>>,
    NodeId,
) {
    if let Some(SpecNode::Loop { node: inner, low, high, .. }) = node_at(a, n1) {
        if inner == n2 {
            loop_spec(a, n2, min_u32(low, 1), high, false)
        } else {
            alloc_spec(a, SpecNode::Or { nodes: sorted_pair(n1, n2) })
        }
    } else {
        alloc_spec(a, SpecNode::Or { nodes: sorted_pair(n1, n2) })
    }
}

/// A normalized conjunction of two patterns.
pub open spec fn and_spec<S: CharSetSolver>(
    s: S,
    a: Seq<SpecInfo<S::CharSet>>,
    n1: NodeId,
    n2: NodeId,
) -> (Seq<SpecInfo<S::CharSet>>, NodeId) {
    if n1 == n2 {
        (a, n1)
    } else if n1 == top_star_id() {
        (a, n2)
    } else if n2 == top_star_id() {
        (a, n1)
    } else if n1 == nothing_id() || n2 == nothing_id() {
        (a, nothing_id())
    } else if is_not_of(a, n1, n2) || is_not_of(a, n2, n1) {
        (a, nothing_id())
    } else if let (Some(SpecNode::Singleton(s1)), Some(SpecNode::Singleton(s2))) = (
        node_at(a, n1),
        node_at(a, n2),
    ) {
        singleton_spec(s, a, s.spec_and(s1, s2))
    } else if star_pred(s, a, n1) is Some && star_pred(s, a, n2) is Some && s.spec_contains(
        star_pred(s, a, n1)->0,
        star_pred(s, a, n2)->0,
    ) {
        (a, n2)
    } else if star_pred(s, a, n1) is Some && star_pred(s, a, n2) is Some && s.spec_contains(
        star_pred(s, a, n2)->0,
        star_pred(s, a, n1)->0,
    ) {
        (a, n1)
    } else {
        alloc_spec(a, SpecNode::And { nodes: sorted_pair(n1, n2) })
    }
}

/// A normalized negation.
pub open spec fn not_spec<T>(a: Seq<SpecInfo<T>>, inner: NodeId) -> (Seq<SpecInfo<T>>, NodeId) {
    if let Some(SpecNode::Not { inner: nested }) = node_at(a, inner) {
        (a, nested)
    } else if inner == nothing_id() {
        (a, top_star_id())
    } else if inner == top_star_id() {
        (a, nothing_id())
    } else {
        alloc_spec(a, SpecNode::Not { inner })
    }
}

/// A lookaround assertion; an empty one is `EPSILON` or, negated, `NOTHING`.
pub open spec fn lookaround_spec<T>(a: Seq<SpecInfo<T>>, inner: NodeId, look_back: bool, negative: bool) -> (
    Seq<SpecInfo<T>>,
    NodeId,
) {
    if inner == epsilon_id() {
        (a, if negative {
            nothing_id()
        } else {
            epsilon_id()
        })
    } else {
        alloc_spec(a, SpecNode::LookAround { inner, look_back, negative })
    }
}

/// `b` extends `a`: it holds `a` and at most one more node, and `id` is in `b`.
pub open spec fn extends_by_one<T>(a: Seq<SpecInfo<T>>, b: Seq<SpecInfo<T>>, id: NodeId) -> bool {
    &&& a.len() <= b.len() <= a.len() + 1
    &&& b.take(a.len() as int) == a
    &&& (id.0 as int) < b.len()
    &&& arena_wf(b)
}

/// Whether the union of `n1` and `n2` needs no new node: they are equal, one
/// is `⊥` or `_*`, or one is the negation of the other.
pub open spec fn or_shortcut<T>(a: Seq<SpecInfo<T>>, n1: NodeId, n2: NodeId) -> bool {
    n1 == n2 || n1 == nothing_id() || n2 == nothing_id() || n1 == top_star_id() || n2 == top_star_id()
        || is_not_of(a, n1, n2) || is_not_of(a, n2, n1)
}

/// Whether the intersection of `n1` and `n2` needs no new node: they are
/// equal, one is `_*` or `⊥`, or one is the negation of the other.
pub open spec fn and_shortcut<T>(a: Seq<SpecInfo<T>>, n1: NodeId, n2: NodeId) -> bool {
    n1 == n2 || n1 == top_star_id() || n2 == top_star_id() || n1 == nothing_id() || n2 == nothing_id()
        || is_not_of(a, n1, n2) || is_not_of(a, n2, n1)
}

/// Whether the negation of `inner` needs no new node: it is a negation
/// itself, `⊥` or `_*`.
pub open spec fn not_shortcut<T>(a: Seq<SpecInfo<T>>, inner: NodeId) -> bool {
    node_at(a, inner) matches Some(SpecNode::Not { .. }) || inner == nothing_id() || inner == top_star_id()
}

/// Builder for constructing normalized regex patterns.
pub struct RegexBuilder<S: CharSetSolver> {
    pub(crate) arena: RegexNodeArena<S::CharSet>,
    pub(crate) solver: S,
}

/// Adding a node whose children are in a well formed arena keeps it well formed.
pub proof fn lemma_alloc_spec_wf<T>(a: Seq<SpecInfo<T>>, n: SpecNode<T>)
    requires
        arena_wf(a),
        a.len() < u32::MAX,
        children_below(n, a.len() as int),
    ensures
        extends_by_one(a, alloc_spec(a, n).0, alloc_spec(a, n).1),
        alloc_spec(a, n).1.0 == a.len(),
{
    let b = alloc_spec(a, n).0;
    assert(b.take(a.len() as int) =~= a);
    assert forall|i: int| 4 <= i < b.len() implies children_below(#[trigger] b[i].node, i)
        && b[i] == mk_info(b.take(i), b[i].node) by {
        if i < a.len() {
            assert(b.take(i) =~= a.take(i));
        }
    }
}

/// The result of a normalized loop extends the arena by at most one node.
pub proof fn lemma_loop_spec_props<T>(a: Seq<SpecInfo<T>>, node: NodeId, low: u32, high: u32, lazy: bool)
    requires
        arena_wf(a),
        a.len() < u32::MAX,
        (node.0 as int) < a.len(),
    ensures
        extends_by_one(a, loop_spec(a, node, low, high, lazy).0, loop_spec(a, node, low, high, lazy).1),
    decreases node.0,
{
    assert(a.take(a.len() as int) =~= a);
    if low > high || (low == 1 && high == 1) || high == 0 || node == epsilon_id() || node
        == nothing_id() {
    } else if let Some(SpecNode::Loop { node: inner, low: inner_low, high: inner_high, .. }) =
        node_at(a, node) {
        if inner.0 < node.0 {
            let new_low = sat_mul(inner_low, low);
            let new_high = if inner_high == u32::MAX || high == u32::MAX {
                u32::MAX
            } else {
                sat_mul(inner_high, high)
            };
            lemma_loop_spec_props(a, inner, new_low, new_high, lazy);
        }
    } else {
        lemma_alloc_spec_wf(a, SpecNode::Loop { node, low, high, lazy });
    }
}

fn sat_mul_u32(x: u32, y: u32) -> (r: u32)
    ensures
        r == sat_mul(x, y),
{
    match x.checked_mul(y) {
        Some(p) => p,
        None => u32::MAX,
    }
}

impl<S: CharSetSolver> RegexBuilder<S> {
    /// The arena of the builder.
    pub closed spec fn spec_arena(&self) -> Seq<SpecInfo<S::CharSet>> {
        self.arena@
    }

    /// The solver of the builder.
    pub closed spec fn spec_solver(&self) -> S {
        self.solver
    }

    /// Whether the builder's arena is well formed.
    pub open spec fn wf(&self) -> bool {
        arena_wf(self.spec_arena())
    }

    /// Create a new builder with the given solver.
    pub fn new(solver: S) -> (r: Self)
        ensures
            r.wf(),
            r.spec_arena().len() == 4,
            r.spec_solver() == solver,
    {
        Self { arena: RegexNodeArena::new(), solver }
    }

    /// Create a builder from an existing arena.
    pub fn with_arena(arena: RegexNodeArena<S::CharSet>, solver: S) -> (r: Self)
        ensures
            r.spec_arena() == arena@,
            r.spec_solver() == solver,
    {
        Self { arena, solver }
    }

    /// Get a reference to the arena.
    pub fn arena(&self) -> (r: &RegexNodeArena<S::CharSet>)
        ensures
            r@ == self.spec_arena(),
    {
        &self.arena
    }

    /// Consume the builder and return the arena.
    pub fn into_arena(self) -> (r: RegexNodeArena<S::CharSet>)
        ensures
            r@ == self.spec_arena(),
    {
        self.arena
    }

    /// Get a reference to the solver.
    pub fn solver(&self) -> (r: &S)
        ensures
            *r == self.spec_solver(),
    {
        &self.solver
    }

    /// Get the info for a node.
    pub fn get_info(&self, id: NodeId) -> (r: Option<&NodeInfo<S::CharSet>>)
        ensures
            r is Some <==> (id.0 as int) < self.spec_arena().len(),
            r matches Some(info) ==> info@ == self.spec_arena()[id.0 as int],
    {
        self.arena.get(id)
    }

    /// Get the flags for a node.
    pub fn flags(&self, id: NodeId) -> (r: NodeFlags)
        ensures
            r.bits == flags_at(self.spec_arena(), id),
    {
        self.arena.flags(id)
    }

    fn alloc_node(&mut self, node: RegexNode<S::CharSet>) -> (r: NodeId)
        requires
            old(self).wf(),
            old(self).spec_arena().len() < u32::MAX,
            children_below(node@, old(self).spec_arena().len() as int),
            min_length_fits(old(self).spec_arena(), node@),
        ensures
            final(self).wf(),
            (final(self).spec_arena(), r) == alloc_spec(old(self).spec_arena(), node@),
            final(self).spec_solver() == old(self).spec_solver(),
            extends_by_one(old(self).spec_arena(), final(self).spec_arena(), r),
    {
        proof {
            lemma_alloc_spec_wf(self.spec_arena(), node@);
        }
        self.arena.alloc_node(node)
    }

    /// Create a singleton node matching the given character set.
    pub fn singleton(&mut self, charset: S::CharSet) -> (r: NodeId)
        requires
            old(self).wf(),
            old(self).spec_arena().len() < u32::MAX,
        ensures
            (final(self).spec_arena(), r) == singleton_spec(
                old(self).spec_solver(),
                old(self).spec_arena(),
                charset,
            ),
            final(self).spec_solver() == old(self).spec_solver(),
            extends_by_one(old(self).spec_arena(), final(self).spec_arena(), r),
    {
        if self.solver.is_empty(&charset) {
            proof {
                assert(self.spec_arena().take(self.spec_arena().len() as int) =~= self.spec_arena());
            }
            return NodeId::NOTHING();
        }
        // The pre-allocated ANY node does not hold a full charset, so a new
        // node is made even for the full set.
        self.alloc_node(RegexNode::Singleton(charset))
    }

    /// Create a concatenation of two patterns.
    pub fn concat(&mut self, head: NodeId, tail: NodeId) -> (r: NodeId)
        requires
            old(self).wf(),
            old(self).spec_arena().len() < u32::MAX,
            (head.0 as int) < old(self).spec_arena().len(),
            (tail.0 as int) < old(self).spec_arena().len(),
            concat_fits(old(self).spec_arena(), head, tail),
        ensures
            (final(self).spec_arena(), r) == concat_spec(old(self).spec_arena(), head, tail),
            final(self).spec_solver() == old(self).spec_solver(),
            extends_by_one(old(self).spec_arena(), final(self).spec_arena(), r),
    {
        self.mk_concat(head, tail)
    }

    /// Concatenate where the arena has room and the minimum length fits in a
    /// `u32`; `None`, with the builder unchanged, where either fails.
    pub fn try_concat(&mut self, head: NodeId, tail: NodeId) -> (r: Option<NodeId>)
        requires
            old(self).wf(),
            (head.0 as int) < old(self).spec_arena().len(),
            (tail.0 as int) < old(self).spec_arena().len(),
        ensures
            r is Some <==> old(self).spec_arena().len() < u32::MAX && concat_fits(old(self).spec_arena(), head, tail),
            r matches Some(id) ==> (final(self).spec_arena(), id) == concat_spec(old(self).spec_arena(), head, tail)
                && extends_by_one(old(self).spec_arena(), final(self).spec_arena(), id),
            r is None ==> final(self).spec_arena() == old(self).spec_arena(),
            final(self).spec_solver() == old(self).spec_solver(),
            final(self).wf(),
    {
        if self.get_info(NodeId(u32::MAX - 1)).is_some() {
            return None;
        }
        let trivial = head == NodeId::EPSILON() || tail == NodeId::EPSILON() || head == NodeId::NOTHING() || tail
            == NodeId::NOTHING();
        if !trivial {
            let h = match self.get_info(head) {
                Some(info) => info.min_length,
                None => None,
            };
            let t = match self.get_info(tail) {
                Some(info) => info.min_length,
                None => None,
            };
            if let (Some(h), Some(t)) = (h, t) {
                if h as u64 + t as u64 > u32::MAX as u64 {
                    return None;
                }
            }
        }
        Some(self.mk_concat(head, tail))
    }

    /// Create a normalized concatenation.
    fn mk_concat(&mut self, head: NodeId, tail: NodeId) -> (r: NodeId)
        requires
            old(self).wf(),
            old(self).spec_arena().len() < u32::MAX,
            (head.0 as int) < old(self).spec_arena().len(),
            (tail.0 as int) < old(self).spec_arena().len(),
            concat_fits(old(self).spec_arena(), head, tail),
        ensures
            (final(self).spec_arena(), r) == concat_spec(old(self).spec_arena(), head, tail),
            final(self).spec_solver() == old(self).spec_solver(),
            extends_by_one(old(self).spec_arena(), final(self).spec_arena(), r),
    {
        proof {
            assert(self.spec_arena().take(self.spec_arena().len() as int) =~= self.spec_arena());
        }
        // Identity rules
        if head == NodeId::EPSILON() {
            return tail;
        }
        if tail == NodeId::EPSILON() {
            return head;
        }
        // Absorption
        if head == NodeId::NOTHING() || tail == NodeId::NOTHING() {
            return NodeId::NOTHING();
        }
        self.alloc_node(RegexNode::Concat { head, tail })
    }

    /// Create an alternation (union) of two patterns.
    pub fn or(&mut self, node1: NodeId, node2: NodeId) -> (r: NodeId)
        requires
            old(self).wf(),
            old(self).spec_arena().len() < u32::MAX || or_shortcut(old(self).spec_arena(), node1, node2),
            (node1.0 as int) < old(self).spec_arena().len(),
            (node2.0 as int) < old(self).spec_arena().len(),
        ensures
            (final(self).spec_arena(), r) == or_spec(
                old(self).spec_solver(),
                old(self).spec_arena(),
                node1,
                node2,
            ),
            final(self).spec_solver() == old(self).spec_solver(),
            extends_by_one(old(self).spec_arena(), final(self).spec_arena(), r),
    {
        self.mk_or2(node1, node2)
    }

    /// Create a normalized alternation of two patterns.
    #[verifier::rlimit(60)]
    fn mk_or2(&mut self, node1: NodeId, node2: NodeId) -> (r: NodeId)
        requires
            old(self).wf(),
            old(self).spec_arena().len() < u32::MAX || or_shortcut(old(self).spec_arena(), node1, node2),
            (node1.0 as int) < old(self).spec_arena().len(),
            (node2.0 as int) < old(self).spec_arena().len(),
        ensures
            (final(self).spec_arena(), r) == or_spec(
                old(self).spec_solver(),
                old(self).spec_arena(),
                node1,
                node2,
            ),
            final(self).spec_solver() == old(self).spec_solver(),
            extends_by_one(old(self).spec_arena(), final(self).spec_arena(), r),
    {
        let ghost a = self.spec_arena();
        let ghost s = self.spec_solver();
        proof {
            assert(a.take(a.len() as int) =~= a);
        }
        // Idempotency
        if node1 == node2 {
            return node1;
        }
        // Identity rules
        if node1 == NodeId::NOTHING() {
            return node2;
        }
        if node2 == NodeId::NOTHING() {
            return node1;
        }
        // Absorption
        if node1 == NodeId::TOP_STAR() || node2 == NodeId::TOP_STAR() {
            return NodeId::TOP_STAR();
        }
        // Complementary patterns: A | ~A = ⊤
        if let Some(RegexNode::Not { inner }) = self.arena.node(node1) {
            if *inner == node2 {
                return NodeId::TOP_STAR();
            }
        }
        if let Some(RegexNode::Not { inner }) = self.arena.node(node2) {
            if *inner == node1 {
                return NodeId::TOP_STAR();
            }
        }
        assert(!is_not_of(a, node1, node2) && !is_not_of(a, node2, node1));
        // Merge singletons: [a] | [b] = [ab]
        let merged = match (self.arena.node(node1), self.arena.node(node2)) {
            (Some(RegexNode::Singleton(s1)), Some(RegexNode::Singleton(s2))) => Some(
                self.solver.or(s1, s2),
            ),
            _ => None,
        };
        if let Some(m) = merged {
            return self.singleton(m);
        }
        // Epsilon creates optional: ε | A = A?, or A when A can be nullable
        if node1 == NodeId::EPSILON() {
            let flags = self.flags(node2);
            if flags.contains(NodeFlags::CAN_BE_NULLABLE()) {
                return node2;
            }
            proof {
                lemma_loop_spec_props(a, node2, 0, 1, false);
            }
            return self.mk_loop(node2, 0, 1, false);
        }
        if node2 == NodeId::EPSILON() {
            let flags = self.flags(node1);
            if flags.contains(NodeFlags::CAN_BE_NULLABLE()) {
                return node1;
            }
            proof {
                lemma_loop_spec_props(a, node1, 0, 1, false);
            }
            return self.mk_loop(node1, 0, 1, false);
        }
        // Subsumption for star loops
        let p1 = self.get_star_pred(node1);
        let p2 = self.get_star_pred(node2);
        if let (Some(pred1), Some(pred2)) = (p1, p2) {
            if self.solver.contains(&pred1, &pred2) {
                return node1;
            }
            if self.solver.contains(&pred2, &pred1) {
                return node2;
            }
        }
        // Loop merging: a{m,n} | a{p,q} = a{min(m,p), max(n,q)}
        let loops = match (self.arena.node(node1), self.arena.node(node2)) {
            (
                Some(RegexNode::Loop { node: inner1, low: low1, high: high1, .. }),
                Some(RegexNode::Loop { node: inner2, low: low2, high: high2, .. }),
            ) => Some((*inner1, *low1, *high1, *inner2, *low2, *high2)),
            _ => None,
        };
        if let Some((inner1, low1, high1, inner2, low2, high2)) = loops {
            if inner1 == inner2 {
                let new_low = if low1 <= low2 {
                    low1
                } else {
                    low2
                };
                let new_high = if high1 >= high2 {
                    high1
                } else {
                    high2
                };
                proof {
                    lemma_loop_spec_props(a, inner1, new_low, new_high, false);
                }
                return self.mk_loop(inner1, new_low, new_high, false);
            }
        }
        assert(or_spec(s, a, node1, node2) == or_spec_tail(a, node1, node2));
        // A | A{n,m} = A{min(n,1),m}
        let loop2 = match self.arena.node(node2) {
            Some(RegexNode::Loop { node: inner, low, high, .. }) => Some((*inner, *low, *high)),
            _ => None,
        };
        if let Some((inner, low, high)) = loop2 {
            if inner == node1 {
                let new_low = if low <= 1 {
                    low
                } else {
                    1
                };
                proof {
                    lemma_loop_spec_props(a, node1, new_low, high, false);
                }
                return self.mk_loop(node1, new_low, high, false);
            }
        }
        assert(or_spec(s, a, node1, node2) == or_spec_tail2(a, node1, node2));
        let loop1 = match self.arena.node(node1) {
            Some(RegexNode::Loop { node: inner, low, high, .. }) => Some((*inner, *low, *high)),
            _ => None,
        };
        if let Some((inner, low, high)) = loop1 {
            if inner == node2 {
                let new_low = if low <= 1 {
                    low
                } else {
                    1
                };
                proof {
                    lemma_loop_spec_props(a, node2, new_low, high, false);
                }
                return self.mk_loop(node2, new_low, high, false);
            }
        }
        // Create Or node with sorted children
        let nodes = if node1.0 < node2.0 {
            vec![node1, node2]
        } else {
            vec![node2, node1]
        };
        assert(nodes@ == sorted_pair(node1, node2));
        self.alloc_node(RegexNode::Or { nodes })
    }

    /// Create a conjunction (intersection) of two patterns.
    pub fn and(&mut self, node1: NodeId, node2: NodeId) -> (r: NodeId)
        requires
            old(self).wf(),
            old(self).spec_arena().len() < u32::MAX || and_shortcut(old(self).spec_arena(), node1, node2),
            (node1.0 as int) < old(self).spec_arena().len(),
            (node2.0 as int) < old(self).spec_arena().len(),
        ensures
            (final(self).spec_arena(), r) == and_spec(
                old(self).spec_solver(),
                old(self).spec_arena(),
                node1,
                node2,
            ),
            final(self).spec_solver() == old(self).spec_solver(),
            extends_by_one(old(self).spec_arena(), final(self).spec_arena(), r),
    {
        self.mk_and2(node1, node2)
    }

    /// Create a normalized conjunction of two patterns.
    fn mk_and2(&mut self, node1: NodeId, node2: NodeId) -> (r: NodeId)
        requires
            old(self).wf(),
            old(self).spec_arena().len() < u32::MAX || and_shortcut(old(self).spec_arena(), node1, node2),
            (node1.0 as int) < old(self).spec_arena().len(),
            (node2.0 as int) < old(self).spec_arena().len(),
        ensures
            (final(self).spec_arena(), r) == and_spec(
                old(self).spec_solver(),
                old(self).spec_arena(),
                node1,
                node2,
            ),
            final(self).spec_solver() == old(self).spec_solver(),
            extends_by_one(old(self).spec_arena(), final(self).spec_arena(), r),
    {
        let ghost a = self.spec_arena();
        proof {
            assert(a.take(a.len() as int) =~= a);
        }
        // Idempotency
        if node1 == node2 {
            return node1;
        }
        // Identity rules
        if node1 == NodeId::TOP_STAR() {
            return node2;
        }
        if node2 == NodeId::TOP_STAR() {
            return node1;
        }
        // Absorption
        if node1 == NodeId::NOTHING() || node2 == NodeId::NOTHING() {
            return NodeId::NOTHING();
        }
        // Complementary patterns: A & ~A = ⊥
        if let Some(RegexNode::Not { inner }) = self.arena.node(node1) {
            if *inner == node2 {
                return NodeId::NOTHING();
            }
        }
        if let Some(RegexNode::Not { inner }) = self.arena.node(node2) {
            if *inner == node1 {
                return NodeId::NOTHING();
            }
        }
        assert(!is_not_of(a, node1, node2) && !is_not_of(a, node2, node1));
        // Merge singletons: [a] & [b] = [a∩b]
        let merged = match (self.arena.node(node1), self.arena.node(node2)) {
            (Some(RegexNode::Singleton(s1)), Some(RegexNode::Singleton(s2))) => Some(
                self.solver.and(s1, s2),
            ),
            _ => None,
        };
        if let Some(m) = merged {
            return self.singleton(m);
        }
        // Subsumption for star loops: .* & .*s = .*s
        let p1 = self.get_star_pred(node1);
        let p2 = self.get_star_pred(node2);
        if let (Some(pred1), Some(pred2)) = (p1, p2) {
            if self.solver.contains(&pred1, &pred2) {
                return node2;
            }
            if self.solver.contains(&pred2, &pred1) {
                return node1;
            }
        }
        // Create And node with sorted children
        let nodes = if node1.0 < node2.0 {
            vec![node1, node2]
        } else {
            vec![node2, node1]
        };
        assert(nodes@ == sorted_pair(node1, node2));
        self.alloc_node(RegexNode::And { nodes })
    }

    /// Create a loop (repetition) pattern.
    pub fn loop_(&mut self, node: NodeId, low: u32, high: u32, lazy: bool) -> (r: NodeId)
        requires
            old(self).wf(),
            old(self).spec_arena().len() < u32::MAX,
            (node.0 as int) < old(self).spec_arena().len(),
        ensures
            (final(self).spec_arena(), r) == loop_spec(old(self).spec_arena(), node, low, high, lazy),
            final(self).spec_solver() == old(self).spec_solver(),
            extends_by_one(old(self).spec_arena(), final(self).spec_arena(), r),
    {
        proof {
            lemma_loop_spec_props(self.spec_arena(), node, low, high, lazy);
        }
        self.mk_loop(node, low, high, lazy)
    }

    /// Create a normalized loop pattern.
    fn mk_loop(&mut self, node: NodeId, low: u32, high: u32, lazy: bool) -> (r: NodeId)
        requires
            old(self).wf(),
            old(self).spec_arena().len() < u32::MAX,
            (node.0 as int) < old(self).spec_arena().len(),
        ensures
            (final(self).spec_arena(), r) == loop_spec(old(self).spec_arena(), node, low, high, lazy),
            final(self).spec_solver() == old(self).spec_solver(),
        decreases node.0,
    {
        // Empty range
        if low > high {
            return NodeId::NOTHING();
        }
        // Exact match {1,1}
        if low == 1 && high == 1 {
            return node;
        }
        // Optional empty {0,0}
        if high == 0 {
            return NodeId::EPSILON();
        }
        // Handle special nodes
        if node == NodeId::EPSILON() {
            return NodeId::EPSILON();
        }
        if node == NodeId::NOTHING() {
            return if low == 0 {
                NodeId::EPSILON()
            } else {
                NodeId::NOTHING()
            };
        }
        // Nested loop simplification: (a{m,n}){p,q} = a{m*p, n*q}
        let nested = match self.arena.node(node) {
            Some(RegexNode::Loop { node: inner, low: inner_low, high: inner_high, .. }) => Some(
                (*inner, *inner_low, *inner_high),
            ),
            _ => None,
        };
        if let Some((inner, inner_low, inner_high)) = nested {
            let new_low = sat_mul_u32(inner_low, low);
            let new_high = if inner_high == u32::MAX || high == u32::MAX {
                u32::MAX
            } else {
                sat_mul_u32(inner_high, high)
            };
            proof {
                let a = self.spec_arena();
                if node.0 >= 4 {
                    assert(children_below(a[node.0 as int].node, node.0 as int));
                } else {
                    assert(node == top_star_id());
                }
            }
            return self.mk_loop(inner, new_low, new_high, lazy);
        }
        self.alloc_node(RegexNode::Loop { node, low, high, lazy })
    }

    /// Create a negation pattern.
    pub fn not(&mut self, inner: NodeId) -> (r: NodeId)
        requires
            old(self).wf(),
            old(self).spec_arena().len() < u32::MAX || not_shortcut(old(self).spec_arena(), inner),
            (inner.0 as int) < old(self).spec_arena().len(),
        ensures
            (final(self).spec_arena(), r) == not_spec(old(self).spec_arena(), inner),
            final(self).spec_solver() == old(self).spec_solver(),
            extends_by_one(old(self).spec_arena(), final(self).spec_arena(), r),
    {
        self.mk_not(inner)
    }

    /// Create a normalized negation pattern.
    fn mk_not(&mut self, inner: NodeId) -> (r: NodeId)
        requires
            old(self).wf(),
            old(self).spec_arena().len() < u32::MAX || not_shortcut(old(self).spec_arena(), inner),
            (inner.0 as int) < old(self).spec_arena().len(),
        ensures
            (final(self).spec_arena(), r) == not_spec(old(self).spec_arena(), inner),
            final(self).spec_solver() == old(self).spec_solver(),
            extends_by_one(old(self).spec_arena(), final(self).spec_arena(), r),
    {
        let ghost a = self.spec_arena();
        proof {
            assert(a.take(a.len() as int) =~= a);
        }
        // Double negation: ~~A = A
        if let Some(RegexNode::Not { inner: nested }) = self.arena.node(inner) {
            proof {
                if inner.0 >= 4 {
                    assert(children_below(a[inner.0 as int].node, inner.0 as int));
                }
            }
            return *nested;
        }
        // ~⊥ = ⊤*
        if inner == NodeId::NOTHING() {
            return NodeId::TOP_STAR();
        }
        // ~⊤* = ⊥
        if inner == NodeId::TOP_STAR() {
            return NodeId::NOTHING();
        }
        self.alloc_node(RegexNode::Not { inner })
    }

    /// Create a lookaround assertion.
    pub fn lookaround(&mut self, inner: NodeId, look_back: bool, negative: bool) -> (r: NodeId)
        requires
            old(self).wf(),
            old(self).spec_arena().len() < u32::MAX,
            (inner.0 as int) < old(self).spec_arena().len(),
        ensures
            (final(self).spec_arena(), r) == lookaround_spec(
                old(self).spec_arena(),
                inner,
                look_back,
                negative,
            ),
            final(self).spec_solver() == old(self).spec_solver(),
            extends_by_one(old(self).spec_arena(), final(self).spec_arena(), r),
    {
        proof {
            assert(self.spec_arena().take(self.spec_arena().len() as int) =~= self.spec_arena());
        }
        // Empty lookaround
        if inner == NodeId::EPSILON() {
            return if negative {
                NodeId::NOTHING()
            } else {
                NodeId::EPSILON()
            };
        }
        self.alloc_node(RegexNode::LookAround { inner, look_back, negative })
    }

    /// Create a begin anchor.
    pub fn begin(&mut self) -> (r: NodeId)
        requires
            old(self).wf(),
            old(self).spec_arena().len() < u32::MAX,
        ensures
            (final(self).spec_arena(), r) == alloc_spec(old(self).spec_arena(), SpecNode::Begin),
            final(self).spec_solver() == old(self).spec_solver(),
            extends_by_one(old(self).spec_arena(), final(self).spec_arena(), r),
    {
        self.alloc_node(RegexNode::Begin)
    }

    /// Create an end anchor.
    pub fn end(&mut self) -> (r: NodeId)
        requires
            old(self).wf(),
            old(self).spec_arena().len() < u32::MAX,
        ensures
            (final(self).spec_arena(), r) == alloc_spec(old(self).spec_arena(), SpecNode::End),
            final(self).spec_solver() == old(self).spec_solver(),
            extends_by_one(old(self).spec_arena(), final(self).spec_arena(), r),
    {
        self.alloc_node(RegexNode::End)
    }

    /// Get the predicate of a star loop (.*-like pattern), if this is one.
    fn get_star_pred(&self, id: NodeId) -> (r: Option<S::CharSet>)
        requires
            self.wf(),
        ensures
            r == star_pred(self.spec_solver(), self.spec_arena(), id),
    {
        // Handle TOP_STAR specially
        if id == NodeId::TOP_STAR() {
            return Some(self.solver.full());
        }
        match self.arena.node(id) {
            Some(RegexNode::Loop { node, low, high, .. }) => {
                if *low == 0 && *high == u32::MAX {
                    match self.arena.node(*node) {
                        Some(RegexNode::Singleton(charset)) => Some(*charset),
                        _ => None,
                    }
                } else {
                    None
                }
            },
            _ => None,
        }
    }
}

/// Idempotency: `A | A = A` and `A & A = A`, leaving the arena unchanged.
pub proof fn lemma_idempotency<S: CharSetSolver>(s: S, a: Seq<SpecInfo<S::CharSet>>, n: NodeId)
    ensures
        or_spec(s, a, n, n) == (a, n),
        and_spec(s, a, n, n) == (a, n),
{
}

/// Identity: `A | ⊥ = A` and `⊥ | A = A`, leaving the arena unchanged.
pub proof fn lemma_or_identity<S: CharSetSolver>(s: S, a: Seq<SpecInfo<S::CharSet>>, n: NodeId)
    ensures
        or_spec(s, a, n, nothing_id()) == (a, n),
        or_spec(s, a, nothing_id(), n) == (a, n),
{
}

/// Absorption: `A | ⊤ = ⊤` and `⊤ | A = ⊤`, leaving the arena unchanged.
pub proof fn lemma_or_absorption<S: CharSetSolver>(s: S, a: Seq<SpecInfo<S::CharSet>>, n: NodeId)
    ensures
        or_spec(s, a, n, top_star_id()) == (a, top_star_id()),
        or_spec(s, a, top_star_id(), n) == (a, top_star_id()),
{
}

/// Identity: `A & ⊤ = A` and `⊤ & A = A`, leaving the arena unchanged.
pub proof fn lemma_and_identity<S: CharSetSolver>(s: S, a: Seq<SpecInfo<S::CharSet>>, n: NodeId)
    ensures
        and_spec(s, a, n, top_star_id()) == (a, n),
        and_spec(s, a, top_star_id(), n) == (a, n),
{
}

/// Absorption: `A & ⊥ = ⊥` and `⊥ & A = ⊥`, leaving the arena unchanged.
pub proof fn lemma_and_absorption<S: CharSetSolver>(s: S, a: Seq<SpecInfo<S::CharSet>>, n: NodeId)
    ensures
        and_spec(s, a, n, nothing_id()) == (a, nothing_id()),
        and_spec(s, a, nothing_id(), n) == (a, nothing_id()),
{
}

/// Complement: `A | ~A = ⊤` (either order) when `b` is the negation node of
/// `A` and `A` is not `⊥`.
pub proof fn lemma_or_complement<S: CharSetSolver>(
    s: S,
    a: Seq<SpecInfo<S::CharSet>>,
    n: NodeId,
    b: NodeId,
)
    requires
        arena_wf(a),
        is_not_of(a, b, n),
        n != nothing_id(),
    ensures
        or_spec(s, a, n, b) == (a, top_star_id()),
        or_spec(s, a, b, n) == (a, top_star_id()),
{
    if b.0 >= 4 {
        assert(children_below(a[b.0 as int].node, b.0 as int));
    }
}

/// Complement: `A & ~A = ⊥` (either order) when `b` is the negation node of
/// `A` and `A` is not `⊤`.
pub proof fn lemma_and_complement<S: CharSetSolver>(
    s: S,
    a: Seq<SpecInfo<S::CharSet>>,
    n: NodeId,
    b: NodeId,
)
    requires
        arena_wf(a),
        is_not_of(a, b, n),
        n != top_star_id(),
    ensures
        and_spec(s, a, n, b) == (a, nothing_id()),
        and_spec(s, a, b, n) == (a, nothing_id()),
{
    if b.0 >= 4 {
        assert(children_below(a[b.0 as int].node, b.0 as int));
    }
}

/// Double negation: negating twice gives back a node that is not itself a
/// negation (or `⊥`), and the second negation adds nothing to the arena.
/// The first negation needs room for one node unless it is a shortcut.
pub proof fn lemma_double_negation<T>(a: Seq<SpecInfo<T>>, n: NodeId)
    requires
        arena_wf(a),
        a.len() < u32::MAX || not_shortcut(a, n),
        (n.0 as int) < a.len(),
        !(a[n.0 as int].node is Not) || n == nothing_id(),
    ensures
        not_spec(not_spec(a, n).0, not_spec(a, n).1) == (not_spec(a, n).0, n),
{
    let (a1, m) = not_spec(a, n);
    if n == nothing_id() {
        assert(m == top_star_id());
        assert(a1 == a);
    } else if n == top_star_id() {
        assert(m == nothing_id());
    } else {
        lemma_alloc_spec_wf(a, SpecNode::Not { inner: n });
        assert(a1[m.0 as int].node == SpecNode::<T>::Not { inner: n });
    }
}

/// Identity and absorption of concatenation: `A·ε = ε·A = A` leaving the arena
/// unchanged, and `A·⊥ = ⊥·A = ⊥`.
pub proof fn lemma_concat_identity<T>(a: Seq<SpecInfo<T>>, n: NodeId)
    ensures
        concat_spec(a, n, epsilon_id()) == (a, n),
        concat_spec(a, epsilon_id(), n) == (a, n),
        concat_spec(a, n, nothing_id()).1 == nothing_id(),
        concat_spec(a, nothing_id(), n).1 == nothing_id(),
{
}

/// Loop normalization: `A{1,1} = A`, `A{0,0} = ε`, `ε{m,n} = ε` for `m <= n`,
/// and an empty range gives `⊥`; none of these adds to the arena.
pub proof fn lemma_loop_normalization<T>(a: Seq<SpecInfo<T>>, n: NodeId, low: u32, high: u32, lazy: bool)
    ensures
        loop_spec(a, n, 1, 1, lazy) == (a, n),
        loop_spec(a, n, 0, 0, lazy) == (a, epsilon_id()),
        low <= high ==> loop_spec(a, epsilon_id(), low, high, lazy) == (a, epsilon_id()),
        low > high ==> loop_spec(a, n, low, high, lazy) == (a, nothing_id()),
{
}

/// Subsumption of star loops: when the predicate of `n1` contains that of
/// `n2`, `n1 | n2 = n1` and `n1 & n2 = n2` (`a* | .* = .*`, `.* & .*s = .*s`).
pub proof fn lemma_star_subsumption<S: CharSetSolver>(
    s: S,
    a: Seq<SpecInfo<S::CharSet>>,
    n1: NodeId,
    n2: NodeId,
)
    requires
        arena_wf(a),
        star_pred(s, a, n1) is Some,
        star_pred(s, a, n2) is Some,
        s.spec_contains(star_pred(s, a, n1)->0, star_pred(s, a, n2)->0),
        n2 != top_star_id(),
    ensures
        or_spec(s, a, n1, n2) == (a, n1),
        and_spec(s, a, n1, n2) == (a, n2),
{
}

} // verus!
