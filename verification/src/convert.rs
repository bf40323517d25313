//! Convert CST to IR.
//!
//! `conv` states, for the events of a syntax node, which nodes the converter
//! adds to an arena and which node it gives back. Character sets are not
//! extracted from the syntax yet: every singleton holds `T::default()`, so the
//! contracts speak of arenas with the sets of their singletons erased.
use vstd::prelude::*;
use crate::builder::alloc_spec;
use crate::derivative::{lemma_alloc_prefix, lemma_prefix_trans, prefix_of};
use crate::node::{
    singletons_default, all_have_max, and_flags, arena_wf, epsilon_id, flags_at, max_at, min_at, min_length_fits, mk_info,
    nothing_id, or_flags, seq_max_of_maxs, seq_max_of_mins, seq_min_of_maxs, seq_min_of_mins, NodeId,
    RegexNode, RegexNodeArena, SpecInfo, SpecNode,
};
use crate::derivative::{nullable_spec, LocationKind};
use crate::flags::{lemma_flag_constants, NodeFlags};
use crate::syntax::{children_spec, lemma_children_from_shorter, node_kind, SpecEvent, SyntaxKind, SyntaxNode};

verus! {

// ---------------------------------------------------------------------------
// Arenas with the sets of their singletons erased
// ---------------------------------------------------------------------------

/// `n` with the set of a singleton erased.
pub open spec fn erase_node<T>(n: SpecNode<T>) -> SpecNode<()> {
    match n {
        SpecNode::Concat { head, tail } => SpecNode::Concat { head, tail },
        SpecNode::Or { nodes } => SpecNode::Or { nodes },
        SpecNode::And { nodes } => SpecNode::And { nodes },
        SpecNode::Singleton(_) => SpecNode::Singleton(()),
        SpecNode::Loop { node, low, high, lazy } => SpecNode::Loop { node, low, high, lazy },
        SpecNode::Not { inner } => SpecNode::Not { inner },
        SpecNode::LookAround { inner, look_back, negative } => SpecNode::LookAround {
            inner,
            look_back,
            negative,
        },
        SpecNode::Begin => SpecNode::Begin,
        SpecNode::End => SpecNode::End,
    }
}

/// `i` with the set of a singleton erased.
pub open spec fn erase_info<T>(i: SpecInfo<T>) -> SpecInfo<()> {
    SpecInfo {
        node: erase_node(i.node),
        flags: i.flags,
        min_length: i.min_length,
        max_length: i.max_length,
    }
}

/// The arena `a` with the sets of its singletons erased.
pub open spec fn erase_arena<T>(a: Seq<SpecInfo<T>>) -> Seq<SpecInfo<()>> {
    a.map_values(|i: SpecInfo<T>| erase_info(i))
}

/// The folds over children agree on an arena and on its erasure.
proof fn lemma_folds_erase<T>(a: Seq<SpecInfo<T>>, nodes: Seq<NodeId>)
    ensures
        or_flags(erase_arena(a), nodes) == or_flags(a, nodes),
        and_flags(erase_arena(a), nodes) == and_flags(a, nodes),
        seq_min_of_mins(erase_arena(a), nodes) == seq_min_of_mins(a, nodes),
        seq_max_of_mins(erase_arena(a), nodes) == seq_max_of_mins(a, nodes),
        seq_min_of_maxs(erase_arena(a), nodes) == seq_min_of_maxs(a, nodes),
        seq_max_of_maxs(erase_arena(a), nodes) == seq_max_of_maxs(a, nodes),
        all_have_max(erase_arena(a), nodes) == all_have_max(a, nodes),
    decreases nodes.len(),
{
    let e = erase_arena(a);
    assert forall|id: NodeId| #[trigger] flags_at(e, id) == flags_at(a, id) && min_at(e, id) == min_at(a, id)
        && max_at(e, id) == max_at(a, id) by {}
    if nodes.len() > 0 {
        lemma_folds_erase(a, nodes.drop_last());
        assert(flags_at(e, nodes.last()) == flags_at(a, nodes.last()));
        assert(min_at(e, nodes.last()) == min_at(a, nodes.last()));
        assert(max_at(e, nodes.last()) == max_at(a, nodes.last()));
    }
    if all_have_max(e, nodes) {
        assert forall|i: int| 0 <= i < nodes.len() implies (#[trigger] max_at(a, nodes[i])) is Some by {
            assert(max_at(e, nodes[i]) == max_at(a, nodes[i]));
        }
    }
    if all_have_max(a, nodes) {
        assert forall|i: int| 0 <= i < nodes.len() implies (#[trigger] max_at(e, nodes[i])) is Some by {
            assert(max_at(e, nodes[i]) == max_at(a, nodes[i]));
        }
    }
}

/// Adding a node and erasing commute.
proof fn lemma_erase_alloc<T>(a: Seq<SpecInfo<T>>, n: SpecNode<T>)
    ensures
        erase_arena(a.push(mk_info(a, n))) == erase_arena(a).push(mk_info(erase_arena(a), erase_node(n))),
        min_length_fits(erase_arena(a), erase_node(n)) == min_length_fits(a, n),
{
    let e = erase_arena(a);
    assert forall|id: NodeId| #[trigger] flags_at(e, id) == flags_at(a, id) && min_at(e, id) == min_at(a, id)
        && max_at(e, id) == max_at(a, id) by {}
    match n {
        SpecNode::Or { nodes } => lemma_folds_erase(a, nodes),
        SpecNode::And { nodes } => lemma_folds_erase(a, nodes),
        SpecNode::Concat { head, tail } => {
            assert(flags_at(e, head) == flags_at(a, head));
            assert(flags_at(e, tail) == flags_at(a, tail));
            assert(min_at(e, head) == min_at(a, head));
            assert(min_at(e, tail) == min_at(a, tail));
            assert(max_at(e, head) == max_at(a, head));
            assert(max_at(e, tail) == max_at(a, tail));
        },
        SpecNode::Loop { node, .. } => {
            assert(flags_at(e, node) == flags_at(a, node));
        },
        SpecNode::Not { inner } => {
            assert(flags_at(e, inner) == flags_at(a, inner));
        },
        SpecNode::LookAround { inner, .. } => {
            assert(flags_at(e, inner) == flags_at(a, inner));
        },
        _ => {},
    }
    assert(erase_arena(a.push(mk_info(a, n))) =~= e.push(mk_info(e, erase_node(n))));
}

// ---------------------------------------------------------------------------
// What the converter builds
// ---------------------------------------------------------------------------

/// Whether node `n` can be added to `a`: there is room for its id, and the
/// minimum length of a concatenation fits in a `u32`.
pub open spec fn alloc_ok(a: Seq<SpecInfo<()>>, n: SpecNode<()>) -> bool {
    a.len() < u32::MAX && min_length_fits(a, n)
}

/// Adding `n` to `a` after a step that gave `ok`.
pub open spec fn alloc_after(a: Seq<SpecInfo<()>>, n: SpecNode<()>, ok: bool) -> (Seq<SpecInfo<()>>, NodeId, bool) {
    let (a1, id) = alloc_spec(a, n);
    (a1, id, ok && alloc_ok(a, n))
}

/// Whether `k` is a kind that converts to a singleton.
pub open spec fn is_leaf_kind(k: SyntaxKind) -> bool {
    k == SyntaxKind::One || k == SyntaxKind::Multi || k == SyntaxKind::Notone || k == SyntaxKind::ClassSet
        || k == SyntaxKind::CharClass || k == SyntaxKind::CharClassNegated
}

/// Whether `k` is a loop kind that converts to `*` over its first child.
pub open spec fn is_star_kind(k: SyntaxKind) -> bool {
    k == SyntaxKind::Oneloop || k == SyntaxKind::Notoneloop || k == SyntaxKind::Setloop || k
        == SyntaxKind::Onelazy || k == SyntaxKind::Notonelazy || k == SyntaxKind::Setlazy
}

/// Whether `k` is a lookaround kind.
pub open spec fn is_lookaround_kind(k: SyntaxKind) -> bool {
    k == SyntaxKind::PositiveLookahead || k == SyntaxKind::PositiveLookbehind || k
        == SyntaxKind::NegativeLookahead || k == SyntaxKind::NegativeLookbehind
}

/// Whether `k` is a group kind that converts to its first child.
pub open spec fn is_group_kind(k: SyntaxKind) -> bool {
    k == SyntaxKind::Root || k == SyntaxKind::Capture || k == SyntaxKind::Group || k == SyntaxKind::Atomic
}

/// The conversion of the syntax node with events `ev` into arena `a` (with
/// the sets of its singletons erased): the new arena, the node the syntax
/// node converts to, and whether every node added fit (see `alloc_ok`).
pub open spec fn conv(a: Seq<SpecInfo<()>>, ev: Seq<SpecEvent>) -> (Seq<SpecInfo<()>>, NodeId, bool)
    decreases ev.len(), 1nat, 0nat,
{
    let ch = children_spec(ev);
    let k = node_kind(ev);
    proof {
        lemma_children_from_shorter(ev, 1, 0, 0);
    }
    if is_group_kind(k) {
        if ch.len() > 0 {
            conv(a, ch[0])
        } else {
            (a, epsilon_id(), true)
        }
    } else if k == SyntaxKind::Alternate || k == SyntaxKind::Conjunction {
        if ch.len() == 1 {
            conv(a, ch[0])
        } else {
            let (a1, ids, ok1) = conv_list(a, ch, ev.len());
            alloc_after(a1, if k == SyntaxKind::Alternate {
                SpecNode::Or { nodes: ids }
            } else {
                SpecNode::And { nodes: ids }
            }, ok1)
        }
    } else if is_leaf_kind(k) {
        alloc_after(a, SpecNode::Singleton(()), true)
    } else if is_star_kind(k) {
        let (a1, inner, ok1) = if ch.len() > 0 {
            conv(a, ch[0])
        } else {
            alloc_after(a, SpecNode::Singleton(()), true)
        };
        alloc_after(
            a1,
            SpecNode::Loop {
                node: inner,
                low: 0,
                high: u32::MAX,
                lazy: k == SyntaxKind::Onelazy || k == SyntaxKind::Notonelazy || k == SyntaxKind::Setlazy,
            },
            ok1,
        )
    } else if k == SyntaxKind::Loop || is_lookaround_kind(k) || k == SyntaxKind::Negation {
        let (a1, inner, ok1) = if ch.len() > 0 {
            conv(a, ch[0])
        } else {
            (a, epsilon_id(), true)
        };
        alloc_after(a1, if k == SyntaxKind::Loop {
            SpecNode::Loop { node: inner, low: 0, high: u32::MAX, lazy: false }
        } else if k == SyntaxKind::Negation {
            SpecNode::Not { inner }
        } else {
            SpecNode::LookAround {
                inner,
                look_back: k == SyntaxKind::PositiveLookbehind || k == SyntaxKind::NegativeLookbehind,
                negative: k == SyntaxKind::NegativeLookahead || k == SyntaxKind::NegativeLookbehind,
            }
        }, ok1)
    } else if k == SyntaxKind::Beginning || k == SyntaxKind::Bol {
        alloc_after(a, SpecNode::Begin, true)
    } else if k == SyntaxKind::End || k == SyntaxKind::EndZ || k == SyntaxKind::Eol {
        alloc_after(a, SpecNode::End, true)
    } else if k == SyntaxKind::Empty {
        (a, epsilon_id(), true)
    } else if k == SyntaxKind::Nothing {
        (a, nothing_id(), true)
    } else {
        // A concatenation, and any other node: its children in sequence
        if ch.len() == 0 {
            (a, epsilon_id(), true)
        } else if ch.len() == 1 {
            conv(a, ch[0])
        } else {
            let (a1, last, ok1) = conv(a, ch.last());
            conv_right(a1, ch.drop_last(), last, ok1, ev.len())
        }
    }
}

/// The conversions of `chs`, children of a node with `bound` events, in
/// order: the arena and the nodes.
pub open spec fn conv_list(a: Seq<SpecInfo<()>>, chs: Seq<Seq<SpecEvent>>, bound: nat) -> (
    Seq<SpecInfo<()>>,
    Seq<NodeId>,
    bool,
)
    decreases bound, 0nat, chs.len(),
{
    if chs.len() == 0 {
        (a, Seq::empty(), true)
    } else {
        let (a1, ids, ok1) = conv_list(a, chs.drop_last(), bound);
        if chs.last().len() < bound {
            let (a2, id, ok2) = conv(a1, chs.last());
            (a2, ids.push(id), ok1 && ok2)
        } else {
            (a1, ids, false)
        }
    }
}

/// A right-associated concatenation of the conversions of `chs` in front of
/// `tail`, built from the last of `chs` to the first.
pub open spec fn conv_right(
    a: Seq<SpecInfo<()>>,
    chs: Seq<Seq<SpecEvent>>,
    tail: NodeId,
    ok: bool,
    bound: nat,
) -> (Seq<SpecInfo<()>>, NodeId, bool)
    decreases bound, 0nat, chs.len(),
{
    if chs.len() == 0 {
        (a, tail, ok)
    } else if chs.last().len() < bound {
        let (a1, head, ok1) = conv(a, chs.last());
        let (a2, c, ok2) = alloc_after(a1, SpecNode::Concat { head, tail }, ok && ok1);
        conv_right(a2, chs.drop_last(), c, ok2, bound)
    } else {
        (a, tail, false)
    }
}

// ---------------------------------------------------------------------------
// The converter
// ---------------------------------------------------------------------------

/// Converter from CST to IR.
pub struct CstToIr<T> {
    arena: RegexNodeArena<T>,
}

impl<T: Clone + Default> Default for CstToIr<T> {
    /// A converter with an arena that holds the pre-allocated nodes only.
    fn default() -> (r: Self)
        ensures
            r.wf(),
            r.spec_arena().len() == 4,
            singletons_default(r.spec_arena()),
    {
        Self::new()
    }
}

impl<T: Clone + Default> CstToIr<T> {
    /// The arena built so far.
    pub closed spec fn spec_arena(&self) -> Seq<SpecInfo<T>> {
        self.arena@
    }

    /// Whether the arena built so far is well formed.
    pub open spec fn wf(&self) -> bool {
        arena_wf(self.spec_arena())
    }

    /// Create a new converter.
    pub fn new() -> (r: Self)
        ensures
            r.wf(),
            r.spec_arena().len() == 4,
            singletons_default(r.spec_arena()),
    {
        Self { arena: RegexNodeArena::new() }
    }

    /// Convert a CST root node to IR, returning the arena and root node ID.
    pub fn convert(self, root: &SyntaxNode) -> (r: (RegexNodeArena<T>, NodeId))
        requires
            self.wf(),
            singletons_default(self.spec_arena()),
            conv(erase_arena(self.spec_arena()), root@).2,
        ensures
            arena_wf(r.0@),
            singletons_default(r.0@),
            (erase_arena(r.0@), r.1) == conv_parts(conv(erase_arena(self.spec_arena()), root@)),
    {
        let mut this = self;
        let root_id = this.convert_node(root);
        (this.arena, root_id)
    }

    /// Get a reference to the arena.
    pub fn arena(&self) -> (r: &RegexNodeArena<T>)
        ensures
            r@ == self.spec_arena(),
    {
        &self.arena
    }

    /// Adds `node`, keeping the erased arena in step with `alloc_after`.
    fn add_node(&mut self, node: RegexNode<T>) -> (r: NodeId)
        requires
            old(self).wf(),
            singletons_default(old(self).spec_arena()),
            node@ is Singleton ==> call_ensures(T::default, (), node@->Singleton_0),
            children_below_arena(node@, old(self).spec_arena()),
            alloc_ok(erase_arena(old(self).spec_arena()), erase_node(node@)),
        ensures
            final(self).wf(),
            singletons_default(final(self).spec_arena()),
            (erase_arena(final(self).spec_arena()), r) == alloc_spec(
                erase_arena(old(self).spec_arena()),
                erase_node(node@),
            ),
            final(self).spec_arena().len() == old(self).spec_arena().len() + 1,
            final(self).spec_arena().take(old(self).spec_arena().len() as int) == old(self).spec_arena(),
    {
        let ghost a = self.arena@;
        proof {
            lemma_erase_alloc(a, node@);
        }
        let r = self.arena.alloc_node(node);
        assert(self.arena@.take(a.len() as int) =~= a);
        assert forall|i: int| 0 <= i < self.arena@.len() && (#[trigger] self.arena@[i]).node is Singleton implies call_ensures(
            T::default,
            (),
            self.arena@[i].node->Singleton_0,
        ) by {
            if i < a.len() {
                assert(self.arena@[i] == a[i]);
            }
        }
        r
    }

    /// Adds a singleton holding `T::default()`: character sets are not
    /// extracted from the syntax yet.
    fn add_placeholder(&mut self) -> (r: NodeId)
        requires
            old(self).wf(),
            singletons_default(old(self).spec_arena()),
            alloc_ok(erase_arena(old(self).spec_arena()), SpecNode::Singleton(())),
        ensures
            final(self).wf(),
            singletons_default(final(self).spec_arena()),
            (erase_arena(final(self).spec_arena()), r) == alloc_spec(
                erase_arena(old(self).spec_arena()),
                SpecNode::Singleton(()),
            ),
            final(self).spec_arena().len() == old(self).spec_arena().len() + 1,
            final(self).spec_arena().take(old(self).spec_arena().len() as int) == old(self).spec_arena(),
    {
        let d = T::default();
        self.add_node(RegexNode::Singleton(d))
    }

    /// Converts the first child of `node`, or gives `EPSILON` where it has none.
    fn convert_first_or_epsilon(&mut self, node: &SyntaxNode, children: &Vec<SyntaxNode>) -> (r: NodeId)
        requires
            old(self).wf(),
            singletons_default(old(self).spec_arena()),
            children@.len() == children_spec(node@).len(),
            forall|j: int| 0 <= j < children@.len() ==> (#[trigger] children@[j])@ == children_spec(node@)[j],
            children@.len() > 0 ==> conv(erase_arena(old(self).spec_arena()), children_spec(node@)[0]).2,
        ensures
            final(self).wf(),
            singletons_default(final(self).spec_arena()),
            (erase_arena(final(self).spec_arena()), r) == conv_parts(
                if children@.len() > 0 {
                    conv(erase_arena(old(self).spec_arena()), children_spec(node@)[0])
                } else {
                    (erase_arena(old(self).spec_arena()), epsilon_id(), true)
                },
            ),
            grows_from(old(self).spec_arena(), final(self).spec_arena(), r),
        decreases node@.len(), 0nat, 0nat,
    {
        proof {
            lemma_children_from_shorter(node@, 1, 0, 0);
            let a = self.arena@;
            assert(a.take(a.len() as int) =~= a);
        }
        if children.len() > 0 {
            self.convert_node(&children[0])
        } else {
            NodeId::EPSILON()
        }
    }

    fn convert_node(&mut self, node: &SyntaxNode) -> (r: NodeId)
        requires
            old(self).wf(),
            singletons_default(old(self).spec_arena()),
            conv(erase_arena(old(self).spec_arena()), node@).2,
        ensures
            final(self).wf(),
            singletons_default(final(self).spec_arena()),
            (erase_arena(final(self).spec_arena()), r) == conv_parts(conv(erase_arena(old(self).spec_arena()), node@)),
            grows_from(old(self).spec_arena(), final(self).spec_arena(), r),
        decreases node@.len(), 1nat, 0nat,
    {
        let ghost a0 = self.arena@;
        let ghost e0 = erase_arena(a0);
        let ghost ev = node@;
        let kind = node.kind();
        let children = node.children();
        proof {
            lemma_children_from_shorter(ev, 1, 0, 0);
            assert(a0.take(a0.len() as int) =~= a0);
        }
        match kind {
            SyntaxKind::Root | SyntaxKind::Capture | SyntaxKind::Group | SyntaxKind::Atomic => {
                // Groups contain an Alternate
                self.convert_first_or_epsilon(node, &children)
            },
            SyntaxKind::Alternate | SyntaxKind::Conjunction => {
                if children.len() == 1 {
                    self.convert_node(&children[0])
                } else {
                    let nodes = self.convert_list(&children, Ghost(ev));
                    let ghost a1 = self.arena@;
                    let r = if kind == SyntaxKind::Alternate {
                        self.add_node(RegexNode::Or { nodes })
                    } else {
                        self.add_node(RegexNode::And { nodes })
                    };
                    proof {
                        lemma_grows_from_trans(a0, a1, self.arena@, r);
                    }
                    r
                }
            },
            SyntaxKind::One | SyntaxKind::Multi | SyntaxKind::Notone | SyntaxKind::ClassSet
            | SyntaxKind::CharClass | SyntaxKind::CharClassNegated => {
                // Character sets are not extracted yet: a placeholder singleton
                self.add_placeholder()
            },
            SyntaxKind::Oneloop | SyntaxKind::Notoneloop | SyntaxKind::Setloop | SyntaxKind::Onelazy
            | SyntaxKind::Notonelazy | SyntaxKind::Setlazy => {
                let lazy = kind == SyntaxKind::Onelazy || kind == SyntaxKind::Notonelazy || kind
                    == SyntaxKind::Setlazy;
                let inner = if children.len() > 0 {
                    self.convert_node(&children[0])
                } else {
                    self.add_placeholder()
                };
                let ghost a1 = self.arena@;
                let r = self.add_node(RegexNode::Loop { node: inner, low: 0, high: u32::MAX, lazy });
                proof {
                    lemma_grows_from_trans(a0, a1, self.arena@, r);
                }
                r
            },
            SyntaxKind::Loop | SyntaxKind::PositiveLookahead | SyntaxKind::PositiveLookbehind
            | SyntaxKind::NegativeLookahead | SyntaxKind::NegativeLookbehind | SyntaxKind::Negation => {
                let inner = self.convert_first_or_epsilon(node, &children);
                let ghost a1 = self.arena@;
                let n = match kind {
                    SyntaxKind::Loop => RegexNode::Loop { node: inner, low: 0, high: u32::MAX, lazy: false },
                    SyntaxKind::Negation => RegexNode::Not { inner },
                    SyntaxKind::PositiveLookahead => RegexNode::LookAround { inner, look_back: false, negative: false },
                    SyntaxKind::PositiveLookbehind => RegexNode::LookAround { inner, look_back: true, negative: false },
                    SyntaxKind::NegativeLookahead => RegexNode::LookAround { inner, look_back: false, negative: true },
                    _ => RegexNode::LookAround { inner, look_back: true, negative: true },
                };
                let r = self.add_node(n);
                proof {
                    lemma_grows_from_trans(a0, a1, self.arena@, r);
                }
                r
            },
            SyntaxKind::Beginning | SyntaxKind::Bol => self.add_node(RegexNode::Begin),
            SyntaxKind::End | SyntaxKind::EndZ | SyntaxKind::Eol => self.add_node(RegexNode::End),
            SyntaxKind::Empty => NodeId::EPSILON(),
            SyntaxKind::Nothing => NodeId::NOTHING(),
            _ => {
                // Concatenation, and by default: the children in sequence
                if children.len() == 0 {
                    NodeId::EPSILON()
                } else if children.len() == 1 {
                    self.convert_node(&children[0])
                } else {
                    self.convert_sequence(&children, Ghost(ev))
                }
            },
        }
    }

    /// Converts the children of a node in order.
    fn convert_list(&mut self, children: &Vec<SyntaxNode>, ev: Ghost<Seq<SpecEvent>>) -> (r: Vec<NodeId>)
        requires
            old(self).wf(),
            singletons_default(old(self).spec_arena()),
            children@.len() == children_spec(ev@).len(),
            forall|j: int| 0 <= j < children@.len() ==> (#[trigger] children@[j])@ == children_spec(ev@)[j],
            forall|j: int| 0 <= j < children@.len() ==> (#[trigger] children_spec(ev@)[j]).len() < ev@.len(),
            conv_list(erase_arena(old(self).spec_arena()), children_spec(ev@), ev@.len()).2,
        ensures
            final(self).wf(),
            singletons_default(final(self).spec_arena()),
            (erase_arena(final(self).spec_arena()), r@) == conv_list_parts(
                conv_list(erase_arena(old(self).spec_arena()), children_spec(ev@), ev@.len()),
            ),
            final(self).spec_arena().len() >= old(self).spec_arena().len(),
            final(self).spec_arena().take(old(self).spec_arena().len() as int) == old(self).spec_arena(),
            forall|j: int| 0 <= j < r@.len() ==> ((#[trigger] r@[j]).0 as int) < final(self).spec_arena().len(),
        decreases ev@.len(), 0nat, children@.len() + 1,
    {
        let ghost a0 = self.arena@;
        let ghost chs = children_spec(ev@);
        let mut nodes: Vec<NodeId> = Vec::new();
        let mut i: usize = 0;
        proof {
            assert(a0.take(a0.len() as int) =~= a0);
            assert(chs.take(0) =~= Seq::<Seq<SpecEvent>>::empty());
            lemma_conv_list_ok_prefix(erase_arena(a0), chs, ev@.len(), 0);
        }
        while i < children.len()
            invariant
                i <= children@.len(),
                children@.len() == chs.len(),
                forall|j: int| 0 <= j < children@.len() ==> (#[trigger] children@[j])@ == chs[j],
                forall|j: int| 0 <= j < children@.len() ==> (#[trigger] chs[j]).len() < ev@.len(),
                self.wf(),
                singletons_default(self.arena@),
                conv_list(erase_arena(a0), chs.take(i as int), ev@.len()).2,
                conv_list(erase_arena(a0), chs, ev@.len()).2,
                (erase_arena(self.arena@), nodes@) == conv_list_parts(conv_list(erase_arena(a0), chs.take(i as int), ev@.len())),
                self.arena@.len() >= a0.len(),
                self.arena@.take(a0.len() as int) == a0,
                forall|j: int| 0 <= j < nodes@.len() ==> ((#[trigger] nodes@[j]).0 as int) < self.arena@.len(),
            decreases children@.len() - i,
        {
            proof {
                assert(chs.take(i + 1).drop_last() =~= chs.take(i as int));
                assert(chs.take(i + 1).last() == chs[i as int]);
                lemma_conv_list_ok_prefix(erase_arena(a0), chs, ev@.len(), i + 1);
            }
            let ghost a1 = self.arena@;
            let id = self.convert_node(&children[i]);
            nodes.push(id);
            i = i + 1;
            proof {
                assert(self.arena@.take(a0.len() as int) =~= a0) by {
                    assert(self.arena@.take(a1.len() as int) == a1);
                    assert(self.arena@.take(a0.len() as int) =~= a1.take(a0.len() as int));
                }
            }
        }
        proof {
            assert(chs.take(children@.len() as int) =~= chs);
        }
        nodes
    }

    /// Converts the children of a node (at least two) into a right-associated
    /// concatenation, from the last child to the first.
    fn convert_sequence(&mut self, children: &Vec<SyntaxNode>, ev: Ghost<Seq<SpecEvent>>) -> (r: NodeId)
        requires
            old(self).wf(),
            singletons_default(old(self).spec_arena()),
            children@.len() >= 2,
            children@.len() == children_spec(ev@).len(),
            forall|j: int| 0 <= j < children@.len() ==> (#[trigger] children@[j])@ == children_spec(ev@)[j],
            forall|j: int| 0 <= j < children@.len() ==> (#[trigger] children_spec(ev@)[j]).len() < ev@.len(),
            ({
                let chs = children_spec(ev@);
                let (a1, last, ok1) = conv(erase_arena(old(self).spec_arena()), chs.last());
                conv_right(a1, chs.drop_last(), last, ok1, ev@.len()).2
            }),
        ensures
            final(self).wf(),
            singletons_default(final(self).spec_arena()),
            (erase_arena(final(self).spec_arena()), r) == ({
                let chs = children_spec(ev@);
                let (a1, last, ok1) = conv(erase_arena(old(self).spec_arena()), chs.last());
                conv_parts(conv_right(a1, chs.drop_last(), last, ok1, ev@.len()))
            }),
            grows_from(old(self).spec_arena(), final(self).spec_arena(), r),
        decreases ev@.len(), 0nat, children@.len() + 1,
    {
        let ghost a0 = self.arena@;
        let ghost chs = children_spec(ev@);
        let n = children.len();
        proof {
            lemma_conv_right_ok_first(conv(erase_arena(a0), chs.last()), chs.drop_last(), ev@.len());
        }
        // Build a right-associative concatenation
        let mut result = self.convert_node(&children[n - 1]);
        let ghost a1 = self.arena@;
        let ghost ok1 = conv(erase_arena(a0), chs.last()).2;
        let ghost target = conv_right(erase_arena(a1), chs.drop_last(), result, ok1, ev@.len());
        let mut i: usize = n - 1;
        proof {
            assert(chs.drop_last() =~= chs.take(i as int));
        }
        while i > 0
            invariant
                0 <= i < n,
                n == children@.len(),
                children@.len() == chs.len(),
                forall|j: int| 0 <= j < children@.len() ==> (#[trigger] children@[j])@ == chs[j],
                forall|j: int| 0 <= j < children@.len() ==> (#[trigger] chs[j]).len() < ev@.len(),
                self.wf(),
                singletons_default(self.arena@),
                target.2,
                conv_right(erase_arena(self.arena@), chs.take(i as int), result, true, ev@.len()) == target,
                grows_from(a0, self.arena@, result),
            decreases i,
        {
            let ghost e = erase_arena(self.arena@);
            let ghost c1 = conv(e, chs[i - 1]);
            let ghost c2 = alloc_after(c1.0, SpecNode::Concat { head: c1.1, tail: result }, c1.2);
            proof {
                assert(chs.take(i as int).last() == chs[i - 1]);
                assert(chs.take(i as int).drop_last() =~= chs.take(i - 1));
                assert(conv_right(e, chs.take(i as int), result, true, ev@.len()) == conv_right(
                    c2.0,
                    chs.take(i - 1),
                    c2.1,
                    c2.2,
                    ev@.len(),
                ));
                lemma_conv_right_ok_first(c2, chs.take(i - 1), ev@.len());
            }
            let ghost a2 = self.arena@;
            let head = self.convert_node(&children[i - 1]);
            let ghost a3 = self.arena@;
            proof {
                lemma_grows_from_trans(a0, a2, a3, head);
                assert(a3.take(a2.len() as int) == a2);
            }
            result = self.add_node(RegexNode::Concat { head, tail: result });
            proof {
                lemma_grows_from_trans(a0, a3, self.arena@, result);
            }
            i = i - 1;
        }
        proof {
            assert(chs.take(0) =~= Seq::<Seq<SpecEvent>>::empty());
        }
        result
    }
}

/// The arena and the node of a conversion, without its bounds flag.
pub open spec fn conv_parts(c: (Seq<SpecInfo<()>>, NodeId, bool)) -> (Seq<SpecInfo<()>>, NodeId) {
    (c.0, c.1)
}

/// The arena and the nodes of a list of conversions, without the bounds flag.
pub open spec fn conv_list_parts(c: (Seq<SpecInfo<()>>, Seq<NodeId>, bool)) -> (Seq<SpecInfo<()>>, Seq<NodeId>) {
    (c.0, c.1)
}

/// Whether every child of `n` is a node of `a`.
pub open spec fn children_below_arena<T>(n: SpecNode<T>, a: Seq<SpecInfo<T>>) -> bool {
    crate::node::children_below(n, a.len() as int)
}

/// `b` holds `a` as a prefix, and `id` is one of its nodes.
pub open spec fn grows_from<T>(a: Seq<SpecInfo<T>>, b: Seq<SpecInfo<T>>, id: NodeId) -> bool {
    &&& a.len() <= b.len()
    &&& b.take(a.len() as int) == a
    &&& (id.0 as int) < b.len()
}

/// Growth of arenas composes.
proof fn lemma_grows_from_trans<T>(a: Seq<SpecInfo<T>>, b: Seq<SpecInfo<T>>, c: Seq<SpecInfo<T>>, id: NodeId)
    requires
        a.len() <= b.len(),
        b.take(a.len() as int) == a,
        grows_from(b, c, id),
    ensures
        grows_from(a, c, id),
{
    assert(c.take(a.len() as int) =~= b.take(a.len() as int));
}

/// A list of conversions over a prefix is within bounds when the whole is.
proof fn lemma_conv_list_ok_prefix(a: Seq<SpecInfo<()>>, chs: Seq<Seq<SpecEvent>>, bound: nat, k: int)
    requires
        0 <= k <= chs.len(),
        conv_list(a, chs, bound).2,
    ensures
        conv_list(a, chs.take(k), bound).2,
    decreases chs.len() - k,
{
    if k < chs.len() {
        assert(chs.take(k + 1).drop_last() =~= chs.take(k));
        lemma_conv_list_ok_prefix(a, chs, bound, k + 1);
    } else {
        assert(chs.take(k) =~= chs);
    }
}

/// A concatenation within bounds starts from a conversion within bounds.
proof fn lemma_conv_right_ok_first(start: (Seq<SpecInfo<()>>, NodeId, bool), chs: Seq<Seq<SpecEvent>>, bound: nat)
    requires
        conv_right(start.0, chs, start.1, start.2, bound).2,
    ensures
        start.2,
        chs.len() > 0 ==> chs.last().len() < bound,
    decreases chs.len(),
{
    if chs.len() > 0 && chs.last().len() < bound {
        let (a1, head, ok1) = conv(start.0, chs.last());
        let (a2, c, ok2) = alloc_after(a1, SpecNode::Concat { head, tail: start.1 }, start.2 && ok1);
        lemma_conv_right_ok_first((a2, c, ok2), chs.drop_last(), bound);
    }
}

/// The four pre-allocated nodes of every arena, with the set of `ANY`
/// erased.
pub open spec fn base_arena() -> Seq<SpecInfo<()>> {
    seq![
        SpecInfo {
            node: SpecNode::Loop { node: crate::node::any_id(), low: 0, high: 0, lazy: false },
            flags: NodeFlags { bits: 3 },
            min_length: Some(0u32),
            max_length: Some(0u32),
        },
        SpecInfo {
            node: SpecNode::Not { inner: crate::node::top_star_id() },
            flags: NodeFlags { bits: 0 },
            min_length: None,
            max_length: None,
        },
        SpecInfo {
            node: SpecNode::Singleton(()),
            flags: NodeFlags { bits: 0 },
            min_length: Some(1u32),
            max_length: Some(1u32),
        },
        SpecInfo {
            node: SpecNode::Loop { node: crate::node::any_id(), low: 0, high: u32::MAX, lazy: false },
            flags: NodeFlags { bits: 3 },
            min_length: Some(0u32),
            max_length: None,
        },
    ]
}

/// A well formed arena of the pre-allocated nodes only is, erased, the base
/// arena.
pub proof fn lemma_erase_base<T>(a: Seq<SpecInfo<T>>)
    requires
        arena_wf(a),
        a.len() == 4,
    ensures
        erase_arena(a) == base_arena(),
{
    assert(erase_arena(a) =~= base_arena());
}

/// Convert a parsed regex pattern to IR.
pub fn cst_to_ir<T: Clone + Default>(cst: &SyntaxNode) -> (r: (RegexNodeArena<T>, NodeId))
    requires
        conv(base_arena(), cst@).2,
    ensures
        arena_wf(r.0@),
        singletons_default(r.0@),
        (erase_arena(r.0@), r.1) == conv_parts(conv(base_arena(), cst@)),
{
    let c = CstToIr::<T>::new();
    proof {
        lemma_erase_base(c.spec_arena());
    }
    c.convert(cst)
}

/// Adding a node after a step keeps the arena the step started from as a
/// prefix.
proof fn lemma_alloc_after_prefix(a: Seq<SpecInfo<()>>, a1: Seq<SpecInfo<()>>, n: SpecNode<()>, ok: bool)
    requires
        prefix_of(a, a1),
    ensures
        prefix_of(a, alloc_after(a1, n, ok).0),
{
    lemma_alloc_prefix(a1, n);
    lemma_prefix_trans(a, a1, alloc_after(a1, n, ok).0);
}

/// The conversion only adds nodes: the old arena is a prefix of the new one.
pub proof fn lemma_conv_prefix(a: Seq<SpecInfo<()>>, ev: Seq<SpecEvent>)
    ensures
        prefix_of(a, conv(a, ev).0),
    decreases ev.len(), 1nat, 0nat,
{
    let ch = children_spec(ev);
    let k = node_kind(ev);
    lemma_children_from_shorter(ev, 1, 0, 0);
    assert(a.take(a.len() as int) =~= a);
    if is_group_kind(k) {
        if ch.len() > 0 {
            lemma_conv_prefix(a, ch[0]);
        }
    } else if k == SyntaxKind::Alternate || k == SyntaxKind::Conjunction {
        if ch.len() == 1 {
            lemma_conv_prefix(a, ch[0]);
        } else {
            let (a1, ids, ok1) = conv_list(a, ch, ev.len());
            lemma_conv_list_prefix(a, ch, ev.len());
            lemma_alloc_after_prefix(a, a1, if k == SyntaxKind::Alternate {
                SpecNode::Or { nodes: ids }
            } else {
                SpecNode::And { nodes: ids }
            }, ok1);
        }
    } else if is_leaf_kind(k) {
        lemma_alloc_after_prefix(a, a, SpecNode::Singleton(()), true);
    } else if is_star_kind(k) {
        let (a1, inner, ok1) = if ch.len() > 0 {
            conv(a, ch[0])
        } else {
            alloc_after(a, SpecNode::Singleton(()), true)
        };
        if ch.len() > 0 {
            lemma_conv_prefix(a, ch[0]);
        } else {
            lemma_alloc_after_prefix(a, a, SpecNode::Singleton(()), true);
        }
        lemma_alloc_after_prefix(
            a,
            a1,
            SpecNode::Loop {
                node: inner,
                low: 0,
                high: u32::MAX,
                lazy: k == SyntaxKind::Onelazy || k == SyntaxKind::Notonelazy || k == SyntaxKind::Setlazy,
            },
            ok1,
        );
    } else if k == SyntaxKind::Loop || is_lookaround_kind(k) || k == SyntaxKind::Negation {
        let (a1, inner, ok1) = if ch.len() > 0 {
            conv(a, ch[0])
        } else {
            (a, epsilon_id(), true)
        };
        if ch.len() > 0 {
            lemma_conv_prefix(a, ch[0]);
        }
        lemma_alloc_after_prefix(a, a1, if k == SyntaxKind::Loop {
            SpecNode::Loop { node: inner, low: 0, high: u32::MAX, lazy: false }
        } else if k == SyntaxKind::Negation {
            SpecNode::Not { inner }
        } else {
            SpecNode::LookAround {
                inner,
                look_back: k == SyntaxKind::PositiveLookbehind || k == SyntaxKind::NegativeLookbehind,
                negative: k == SyntaxKind::NegativeLookahead || k == SyntaxKind::NegativeLookbehind,
            }
        }, ok1);
    } else if k == SyntaxKind::Beginning || k == SyntaxKind::Bol {
        lemma_alloc_after_prefix(a, a, SpecNode::Begin, true);
    } else if k == SyntaxKind::End || k == SyntaxKind::EndZ || k == SyntaxKind::Eol {
        lemma_alloc_after_prefix(a, a, SpecNode::End, true);
    } else if k == SyntaxKind::Empty || k == SyntaxKind::Nothing {
    } else if ch.len() == 1 {
        lemma_conv_prefix(a, ch[0]);
    } else if ch.len() > 1 {
        let (a1, last, ok1) = conv(a, ch.last());
        lemma_conv_prefix(a, ch.last());
        lemma_conv_right_prefix(a1, ch.drop_last(), last, ok1, ev.len());
        lemma_prefix_trans(a, a1, conv_right(a1, ch.drop_last(), last, ok1, ev.len()).0);
    }
}

proof fn lemma_conv_list_prefix(a: Seq<SpecInfo<()>>, chs: Seq<Seq<SpecEvent>>, bound: nat)
    ensures
        prefix_of(a, conv_list(a, chs, bound).0),
    decreases bound, 0nat, chs.len(),
{
    assert(a.take(a.len() as int) =~= a);
    if chs.len() > 0 {
        let (a1, ids, ok1) = conv_list(a, chs.drop_last(), bound);
        lemma_conv_list_prefix(a, chs.drop_last(), bound);
        if chs.last().len() < bound {
            lemma_conv_prefix(a1, chs.last());
            lemma_prefix_trans(a, a1, conv(a1, chs.last()).0);
        }
    }
}

proof fn lemma_conv_right_prefix(a: Seq<SpecInfo<()>>, chs: Seq<Seq<SpecEvent>>, tail: NodeId, ok: bool, bound: nat)
    ensures
        prefix_of(a, conv_right(a, chs, tail, ok, bound).0),
    decreases bound, 0nat, chs.len(),
{
    assert(a.take(a.len() as int) =~= a);
    if chs.len() > 0 && chs.last().len() < bound {
        let (a1, head, ok1) = conv(a, chs.last());
        lemma_conv_prefix(a, chs.last());
        let (a2, c, ok2) = alloc_after(a1, SpecNode::Concat { head, tail }, ok && ok1);
        lemma_alloc_prefix(a1, SpecNode::Concat { head, tail });
        lemma_prefix_trans(a, a1, a2);
        lemma_conv_right_prefix(a2, chs.drop_last(), c, ok2, bound);
        lemma_prefix_trans(a, a2, conv_right(a2, chs.drop_last(), c, ok2, bound).0);
    }
}

/// An anchor of the syntax converts to a node that matches the empty word
/// exactly at the place it names: `^` (and, in multi-line mode, the start of
/// a line) at the start of the input only, `$`, `\z` (and the end of a
/// line) at the end only.
pub proof fn lemma_conv_anchor(a: Seq<SpecInfo<()>>, ev: Seq<SpecEvent>, loc: LocationKind)
    requires
        a.len() < u32::MAX,
    ensures
        node_kind(ev) == SyntaxKind::Beginning || node_kind(ev) == SyntaxKind::Bol ==> nullable_spec(
            conv(a, ev).0,
            loc,
            conv(a, ev).1,
        ) == (loc == LocationKind::Begin),
        node_kind(ev) == SyntaxKind::End || node_kind(ev) == SyntaxKind::EndZ || node_kind(ev) == SyntaxKind::Eol
            ==> nullable_spec(conv(a, ev).0, loc, conv(a, ev).1) == (loc == LocationKind::End),
{
    lemma_flag_constants();
    let k = node_kind(ev);
    if k == SyntaxKind::Beginning || k == SyntaxKind::Bol || k == SyntaxKind::End || k == SyntaxKind::EndZ || k
        == SyntaxKind::Eol {
        let (b, id, ok) = conv(a, ev);
        assert(id.0 == a.len());
        assert(b[id.0 as int].flags.bits == 9);
    }
}

} // verus!
