//! Regex node types for the intermediate representation.
//!
//! Nodes live in an arena and refer to each other by `NodeId`. The arena keeps
//! the flags and length bounds of every node it stores, computed from the
//! node's children when the node is allocated. Every node other than the four
//! pre-allocated ones refers only to nodes allocated before it, so the arena is
//! an ordered acyclic graph.
use vstd::prelude::*;
use crate::flags::{
    has_bits, lemma_flag_constants, NodeFlags, CAN_BE_NULLABLE_BIT, CONTAINS_LOOKAROUND_BIT, DEPENDS_ON_ANCHOR_BIT,
    HAS_PREFIX_LOOKBEHIND_BIT, HAS_SUFFIX_LOOKAHEAD_BIT, IS_ALWAYS_NULLABLE_BIT,
};

verus! {

/// A unique identifier for a regex node in the arena.
#[derive(Debug, Clone, Copy, PartialEq, Eq, Structural, Hash, PartialOrd, Ord)]
pub struct NodeId(pub u32);

/// The id of the empty pattern (matches the empty string only).
pub open spec fn epsilon_id() -> NodeId {
    NodeId(0)
}

/// The id of the pattern that never matches.
pub open spec fn nothing_id() -> NodeId {
    NodeId(1)
}

/// The id of the pattern that matches any single character.
pub open spec fn any_id() -> NodeId {
    NodeId(2)
}

/// The id of the universal pattern `_*`.
pub open spec fn top_star_id() -> NodeId {
    NodeId(3)
}

impl NodeId {
    /// The empty pattern (matches empty string only).
    #[allow(non_snake_case)]
    pub fn EPSILON() -> (r: NodeId)
        ensures
            r == epsilon_id(),
    {
        NodeId(0)
    }

    /// The pattern that never matches.
    #[allow(non_snake_case)]
    pub fn NOTHING() -> (r: NodeId)
        ensures
            r == nothing_id(),
    {
        NodeId(1)
    }

    /// The pattern that matches any single character (`.`).
    #[allow(non_snake_case)]
    pub fn ANY() -> (r: NodeId)
        ensures
            r == any_id(),
    {
        NodeId(2)
    }

    /// The universal pattern `_*` (matches anything including newlines).
    #[allow(non_snake_case)]
    pub fn TOP_STAR() -> (r: NodeId)
        ensures
            r == top_star_id(),
    {
        NodeId(3)
    }
}

/// A regex node in the intermediate representation.
///
/// This is a normalized, simplified representation that's easier to work with
/// than the raw syntax tree. Nodes are stored in an arena.
#[derive(Debug, Clone, PartialEq, Eq)]
pub enum RegexNode<T> {
    /// Concatenation of two patterns: `head` followed by `tail`.
    Concat { head: NodeId, tail: NodeId },
    /// Alternation (union) of patterns: matches if any child matches.
    Or { nodes: Vec<NodeId> },
    /// Conjunction (intersection) of patterns: matches if all children match.
    And { nodes: Vec<NodeId> },
    /// A single character or character class.
    Singleton(T),
    /// Repetition of a pattern (`high == u32::MAX` means unbounded).
    Loop { node: NodeId, low: u32, high: u32, lazy: bool },
    /// Negation (complement) of a pattern.
    Not { inner: NodeId },
    /// Lookaround assertion.
    LookAround { inner: NodeId, look_back: bool, negative: bool },
    /// Beginning of input/line anchor.
    Begin,
    /// End of input/line anchor.
    End,
}

/// The mathematical model of a `RegexNode`: the child lists are sequences.
pub enum SpecNode<T> {
    Concat { head: NodeId, tail: NodeId },
    Or { nodes: Seq<NodeId> },
    And { nodes: Seq<NodeId> },
    Singleton(T),
    Loop { node: NodeId, low: u32, high: u32, lazy: bool },
    Not { inner: NodeId },
    LookAround { inner: NodeId, look_back: bool, negative: bool },
    Begin,
    End,
}

impl<T> View for RegexNode<T> {
    type V = SpecNode<T>;

    open spec fn view(&self) -> SpecNode<T> {
        match self {
            RegexNode::Concat { head, tail } => SpecNode::Concat { head: *head, tail: *tail },
            RegexNode::Or { nodes } => SpecNode::Or { nodes: nodes@ },
            RegexNode::And { nodes } => SpecNode::And { nodes: nodes@ },
            RegexNode::Singleton(c) => SpecNode::Singleton(*c),
            RegexNode::Loop { node, low, high, lazy } => SpecNode::Loop {
                node: *node,
                low: *low,
                high: *high,
                lazy: *lazy,
            },
            RegexNode::Not { inner } => SpecNode::Not { inner: *inner },
            RegexNode::LookAround { inner, look_back, negative } => SpecNode::LookAround {
                inner: *inner,
                look_back: *look_back,
                negative: *negative,
            },
            RegexNode::Begin => SpecNode::Begin,
            RegexNode::End => SpecNode::End,
        }
    }
}

/// Information about a node including computed flags and properties.
#[derive(Debug, Clone)]
pub struct NodeInfo<T> {
    /// The regex node itself.
    pub node: RegexNode<T>,
    /// Computed flags for this node.
    pub flags: NodeFlags,
    /// Minimum length this pattern can match.
    pub min_length: Option<u32>,
    /// Maximum length this pattern can match (None = unbounded).
    pub max_length: Option<u32>,
}

/// The mathematical model of a `NodeInfo`.
pub struct SpecInfo<T> {
    pub node: SpecNode<T>,
    pub flags: NodeFlags,
    pub min_length: Option<u32>,
    pub max_length: Option<u32>,
}

impl<T> View for NodeInfo<T> {
    type V = SpecInfo<T>;

    open spec fn view(&self) -> SpecInfo<T> {
        SpecInfo {
            node: self.node@,
            flags: self.flags,
            min_length: self.min_length,
            max_length: self.max_length,
        }
    }
}

// ---------------------------------------------------------------------------
// Flags and lengths of a node, as a function of the arena it is added to.
// ---------------------------------------------------------------------------

/// The two nullability bits.
pub open spec fn nullable_mask() -> u8 {
    0x03
}

/// Every flag bit.
pub open spec fn all_mask() -> u8 {
    0x3f
}

/// The flags that an `And` node takes from any child.
pub open spec fn and_or_mask() -> u8 {
    0x3c
}

/// The flags that loops and negations take from their child.
pub open spec fn inherited_mask() -> u8 {
    0x0c
}

/// Flags of the node `id` in arena `a`; an id outside the arena has no flags.
pub open spec fn flags_at<T>(a: Seq<SpecInfo<T>>, id: NodeId) -> u8 {
    if (id.0 as int) < a.len() {
        a[id.0 as int].flags.bits
    } else {
        0
    }
}

/// Minimum length of the node `id` in arena `a`.
pub open spec fn min_at<T>(a: Seq<SpecInfo<T>>, id: NodeId) -> Option<u32> {
    if (id.0 as int) < a.len() {
        a[id.0 as int].min_length
    } else {
        None
    }
}

/// Maximum length of the node `id` in arena `a`.
pub open spec fn max_at<T>(a: Seq<SpecInfo<T>>, id: NodeId) -> Option<u32> {
    if (id.0 as int) < a.len() {
        a[id.0 as int].max_length
    } else {
        None
    }
}

/// Flags of a concatenation of nodes with flags `h` and `t`.
pub open spec fn concat_flags(h: u8, t: u8) -> u8 {
    (((h | t) & CONTAINS_LOOKAROUND_BIT) | ((h & t) & nullable_mask()) | (if has_bits(
        h,
        DEPENDS_ON_ANCHOR_BIT,
    ) || (has_bits(h, CAN_BE_NULLABLE_BIT) && has_bits(t, DEPENDS_ON_ANCHOR_BIT)) {
        DEPENDS_ON_ANCHOR_BIT
    } else {
        0u8
    }) | (if has_bits(t, HAS_SUFFIX_LOOKAHEAD_BIT) {
        HAS_SUFFIX_LOOKAHEAD_BIT
    } else {
        0u8
    }) | (if has_bits(h, HAS_PREFIX_LOOKBEHIND_BIT) {
        HAS_PREFIX_LOOKBEHIND_BIT
    } else {
        0u8
    })) as u8
}

/// One step of the union of flags over the children of an `Or` node.
pub open spec fn or_step(acc: u8, f: u8) -> u8 {
    ((f & all_mask()) | acc) as u8
}

/// One step of the combination of flags over the children of an `And` node.
pub open spec fn and_step(acc: u8, f: u8) -> u8 {
    ((((acc | f) & and_or_mask()) as u8) | (((acc & f) & nullable_mask()) as u8)) as u8
}

/// Flags of an `Or` node over `nodes`, folded from the first child on.
pub open spec fn or_flags<T>(a: Seq<SpecInfo<T>>, nodes: Seq<NodeId>) -> u8
    decreases nodes.len(),
{
    if nodes.len() == 0 {
        0
    } else {
        or_step(or_flags(a, nodes.drop_last()), flags_at(a, nodes.last()))
    }
}

/// Flags of an `And` node over `nodes`, folded from the first child on.
pub open spec fn and_flags<T>(a: Seq<SpecInfo<T>>, nodes: Seq<NodeId>) -> u8
    decreases nodes.len(),
{
    if nodes.len() == 0 {
        nullable_mask()
    } else {
        and_step(and_flags(a, nodes.drop_last()), flags_at(a, nodes.last()))
    }
}

/// Flags of a loop over a node with flags `inner` and lower bound `low`.
pub open spec fn loop_flags(inner: u8, low: u32) -> u8 {
    ((if low == 0 {
        nullable_mask()
    } else {
        (inner & nullable_mask()) as u8
    }) | (inner & inherited_mask())) as u8
}

/// Flags of the negation of a node with flags `inner`.
pub open spec fn not_flags(inner: u8) -> u8 {
    ((if !has_bits(inner, CAN_BE_NULLABLE_BIT) {
        nullable_mask()
    } else if has_bits(inner, IS_ALWAYS_NULLABLE_BIT) {
        0u8
    } else {
        CAN_BE_NULLABLE_BIT
    }) | (inner & inherited_mask())) as u8
}

/// Flags of a lookaround over a node with flags `inner`.
pub open spec fn lookaround_flags(inner: u8, look_back: bool) -> u8 {
    (nullable_mask() | (inner & DEPENDS_ON_ANCHOR_BIT) | (if look_back {
        0x24u8
    } else {
        0x14u8
    })) as u8
}

/// Flags of an anchor.
pub open spec fn anchor_flags() -> u8 {
    0x09
}

/// The smaller of two optional lengths, ignoring absent ones.
pub open spec fn min_opt(x: Option<u32>, y: Option<u32>) -> Option<u32> {
    match (x, y) {
        (Some(p), Some(q)) => Some(if p <= q { p } else { q }),
        (Some(p), None) => Some(p),
        (None, _) => y,
    }
}

/// The larger of two optional lengths, ignoring absent ones.
pub open spec fn max_opt(x: Option<u32>, y: Option<u32>) -> Option<u32> {
    match (x, y) {
        (Some(p), Some(q)) => Some(if p >= q { p } else { q }),
        (Some(p), None) => Some(p),
        (None, _) => y,
    }
}

/// The least minimum length among `nodes` that have one.
pub open spec fn seq_min_of_mins<T>(a: Seq<SpecInfo<T>>, nodes: Seq<NodeId>) -> Option<u32>
    decreases nodes.len(),
{
    if nodes.len() == 0 {
        None
    } else {
        min_opt(seq_min_of_mins(a, nodes.drop_last()), min_at(a, nodes.last()))
    }
}

/// The greatest minimum length among `nodes` that have one.
pub open spec fn seq_max_of_mins<T>(a: Seq<SpecInfo<T>>, nodes: Seq<NodeId>) -> Option<u32>
    decreases nodes.len(),
{
    if nodes.len() == 0 {
        None
    } else {
        max_opt(seq_max_of_mins(a, nodes.drop_last()), min_at(a, nodes.last()))
    }
}

/// The least maximum length among `nodes` that have one.
pub open spec fn seq_min_of_maxs<T>(a: Seq<SpecInfo<T>>, nodes: Seq<NodeId>) -> Option<u32>
    decreases nodes.len(),
{
    if nodes.len() == 0 {
        None
    } else {
        min_opt(seq_min_of_maxs(a, nodes.drop_last()), max_at(a, nodes.last()))
    }
}

/// The greatest maximum length among `nodes` that have one.
pub open spec fn seq_max_of_maxs<T>(a: Seq<SpecInfo<T>>, nodes: Seq<NodeId>) -> Option<u32>
    decreases nodes.len(),
{
    if nodes.len() == 0 {
        None
    } else {
        max_opt(seq_max_of_maxs(a, nodes.drop_last()), max_at(a, nodes.last()))
    }
}

/// Whether every node of `nodes` has a maximum length.
pub open spec fn all_have_max<T>(a: Seq<SpecInfo<T>>, nodes: Seq<NodeId>) -> bool {
    forall|i: int| 0 <= i < nodes.len() ==> (#[trigger] max_at(a, nodes[i])) is Some
}

/// The flags of `n` when it is added to arena `a`.
pub open spec fn info_flags<T>(a: Seq<SpecInfo<T>>, n: SpecNode<T>) -> u8 {
    match n {
        SpecNode::Concat { head, tail } => concat_flags(flags_at(a, head), flags_at(a, tail)),
        SpecNode::Or { nodes } => or_flags(a, nodes),
        SpecNode::And { nodes } => and_flags(a, nodes),
        SpecNode::Singleton(_) => 0,
        SpecNode::Loop { node, low, .. } => loop_flags(flags_at(a, node), low),
        SpecNode::Not { inner } => not_flags(flags_at(a, inner)),
        SpecNode::LookAround { inner, look_back, .. } => lookaround_flags(
            flags_at(a, inner),
            look_back,
        ),
        SpecNode::Begin => anchor_flags(),
        SpecNode::End => anchor_flags(),
    }
}

/// The minimum length of `n` when it is added to arena `a`.
pub open spec fn info_min<T>(a: Seq<SpecInfo<T>>, n: SpecNode<T>) -> Option<u32> {
    match n {
        SpecNode::Concat { head, tail } => match (min_at(a, head), min_at(a, tail)) {
            (Some(h), Some(t)) => Some((h + t) as u32),
            _ => None,
        },
        SpecNode::Or { nodes } => seq_min_of_mins(a, nodes),
        SpecNode::And { nodes } => seq_max_of_mins(a, nodes),
        SpecNode::Singleton(_) => Some(1),
        SpecNode::Loop { node, low, .. } => if low == 0 {
            Some(0u32)
        } else {
            match min_at(a, node) {
                Some(m) => if low * m <= u32::MAX {
                    Some((low * m) as u32)
                } else {
                    None
                },
                None => None,
            }
        },
        SpecNode::Not { .. } => None,
        SpecNode::LookAround { .. } => Some(0),
        SpecNode::Begin => Some(0),
        SpecNode::End => Some(0),
    }
}

/// The maximum length of `n` when it is added to arena `a`.
pub open spec fn info_max<T>(a: Seq<SpecInfo<T>>, n: SpecNode<T>) -> Option<u32> {
    match n {
        SpecNode::Concat { head, tail } => match (max_at(a, head), max_at(a, tail)) {
            (Some(h), Some(t)) => if h + t <= u32::MAX {
                Some((h + t) as u32)
            } else {
                None
            },
            _ => None,
        },
        SpecNode::Or { nodes } => if all_have_max(a, nodes) {
            seq_max_of_maxs(a, nodes)
        } else {
            None
        },
        SpecNode::And { nodes } => if all_have_max(a, nodes) {
            seq_min_of_maxs(a, nodes)
        } else {
            None
        },
        SpecNode::Singleton(_) => Some(1),
        SpecNode::Loop { node, high, .. } => if high == u32::MAX {
            None
        } else if high == 0 {
            Some(0u32)
        } else {
            match max_at(a, node) {
                Some(m) => if high * m <= u32::MAX {
                    Some((high * m) as u32)
                } else {
                    None
                },
                None => None,
            }
        },
        SpecNode::Not { .. } => None,
        SpecNode::LookAround { .. } => Some(0),
        SpecNode::Begin => Some(0),
        SpecNode::End => Some(0),
    }
}

/// The information the arena `a` records for `n` when `n` is added to it.
pub open spec fn mk_info<T>(a: Seq<SpecInfo<T>>, n: SpecNode<T>) -> SpecInfo<T> {
    SpecInfo {
        node: n,
        flags: NodeFlags { bits: info_flags(a, n) },
        min_length: info_min(a, n),
        max_length: info_max(a, n),
    }
}

/// Whether the minimum length of a concatenation `n` fits in a `u32`.
pub open spec fn min_length_fits<T>(a: Seq<SpecInfo<T>>, n: SpecNode<T>) -> bool {
    match n {
        SpecNode::Concat { head, tail } => match (min_at(a, head), min_at(a, tail)) {
            (Some(h), Some(t)) => h + t <= u32::MAX,
            _ => true,
        },
        _ => true,
    }
}

/// Whether every child of `n` is an id below `bound`.
pub open spec fn children_below<T>(n: SpecNode<T>, bound: int) -> bool {
    match n {
        SpecNode::Concat { head, tail } => head.0 < bound && tail.0 < bound,
        SpecNode::Or { nodes } => forall|i: int| 0 <= i < nodes.len() ==> #[trigger] nodes[i].0 < bound,
        SpecNode::And { nodes } => forall|i: int| 0 <= i < nodes.len() ==> #[trigger] nodes[i].0 < bound,
        SpecNode::Singleton(_) => true,
        SpecNode::Loop { node, .. } => node.0 < bound,
        SpecNode::Not { inner } => inner.0 < bound,
        SpecNode::LookAround { inner, .. } => inner.0 < bound,
        SpecNode::Begin => true,
        SpecNode::End => true,
    }
}

/// The four pre-allocated nodes: `EPSILON`, `NOTHING`, `ANY` and `TOP_STAR`.
pub open spec fn special_nodes_ok<T>(a: Seq<SpecInfo<T>>) -> bool {
    &&& a.len() >= 4
    &&& a[0] == SpecInfo::<T> {
        node: SpecNode::Loop { node: any_id(), low: 0, high: 0, lazy: false },
        flags: NodeFlags { bits: 3 },
        min_length: Some(0u32),
        max_length: Some(0u32),
    }
    &&& a[1] == SpecInfo::<T> {
        node: SpecNode::Not { inner: top_star_id() },
        flags: NodeFlags { bits: 0 },
        min_length: None,
        max_length: None,
    }
    &&& a[2].node is Singleton
    &&& a[2].flags == NodeFlags { bits: 0 }
    &&& a[2].min_length == Some(1u32)
    &&& a[2].max_length == Some(1u32)
    &&& a[3] == SpecInfo::<T> {
        node: SpecNode::Loop { node: any_id(), low: 0, high: u32::MAX, lazy: false },
        flags: NodeFlags { bits: 3 },
        min_length: Some(0u32),
        max_length: None,
    }
}

/// Well-formedness of an arena: the pre-allocated nodes are in place, every
/// other node refers only to earlier nodes, and its recorded flags and lengths
/// are those computed from the nodes before it.
pub open spec fn arena_wf<T>(a: Seq<SpecInfo<T>>) -> bool {
    &&& special_nodes_ok(a)
    &&& a.len() <= u32::MAX
    &&& forall|i: int|
        4 <= i < a.len() ==> children_below(#[trigger] a[i].node, i) && a[i] == mk_info(
            a.take(i),
            a[i].node,
        )
}

/// Whether every singleton of `a` holds a value that `T::default()` gives.
pub open spec fn singletons_default<T: Default>(a: Seq<SpecInfo<T>>) -> bool {
    forall|i: int|
        0 <= i < a.len() && (#[trigger] a[i]).node is Singleton ==> call_ensures(
            T::default,
            (),
            a[i].node->Singleton_0,
        )
}

/// Arena for storing regex nodes with efficient allocation and lookup.
#[derive(Debug)]
pub struct RegexNodeArena<T> {
    nodes: Vec<NodeInfo<T>>,
}

impl<T> View for RegexNodeArena<T> {
    type V = Seq<SpecInfo<T>>;

    closed spec fn view(&self) -> Seq<SpecInfo<T>> {
        self.nodes@.map_values(|i: NodeInfo<T>| i@)
    }
}

impl<T: Clone + Default> Default for RegexNodeArena<T> {
    /// An arena holding the pre-allocated nodes only.
    fn default() -> (r: Self)
        ensures
            r.wf(),
            r@.len() == 4,
    {
        Self::new()
    }
}

impl<T: Clone + Default> RegexNodeArena<T> {
    /// Whether the arena is well formed.
    pub open spec fn wf(&self) -> bool {
        arena_wf(self@)
    }

    /// Create a new arena with pre-allocated special nodes.
    pub fn new() -> (r: Self)
        ensures
            r.wf(),
            infos_computed(r@),
            r@.len() == 4,
            singletons_default(r@),
    {
        let mut nodes: Vec<NodeInfo<T>> = Vec::new();
        // EPSILON (id=0): matches empty string
        nodes.push(
            NodeInfo {
                node: RegexNode::Loop { node: NodeId::ANY(), low: 0, high: 0, lazy: false },
                flags: NodeFlags::CAN_BE_NULLABLE() | NodeFlags::IS_ALWAYS_NULLABLE(),
                min_length: Some(0),
                max_length: Some(0),
            },
        );
        // NOTHING (id=1): never matches
        nodes.push(
            NodeInfo {
                node: RegexNode::Not { inner: NodeId::TOP_STAR() },
                flags: NodeFlags::empty(),
                min_length: None,
                max_length: None,
            },
        );
        // ANY (id=2): matches any single character
        nodes.push(
            NodeInfo {
                node: RegexNode::Singleton(T::default()),
                flags: NodeFlags::empty(),
                min_length: Some(1),
                max_length: Some(1),
            },
        );
        // TOP_STAR (id=3): matches anything (universal pattern)
        nodes.push(
            NodeInfo {
                node: RegexNode::Loop { node: NodeId::ANY(), low: 0, high: u32::MAX, lazy: false },
                flags: NodeFlags::CAN_BE_NULLABLE() | NodeFlags::IS_ALWAYS_NULLABLE(),
                min_length: Some(0),
                max_length: None,
            },
        );
        let r = Self { nodes };
        proof {
            lemma_flag_constants();
        }
        assert(r@.len() == 4);
        r
    }

    /// Get the node info for a given node ID.
    pub fn get(&self, id: NodeId) -> (r: Option<&NodeInfo<T>>)
        ensures
            r is Some <==> (id.0 as int) < self@.len(),
            r matches Some(info) ==> info@ == self@[id.0 as int],
    {
        let i = id.0 as usize;
        if i < self.nodes.len() {
            Some(&self.nodes[i])
        } else {
            None
        }
    }

    /// Get the regex node for a given node ID.
    pub fn node(&self, id: NodeId) -> (r: Option<&RegexNode<T>>)
        ensures
            r is Some <==> (id.0 as int) < self@.len(),
            r matches Some(n) ==> n@ == self@[id.0 as int].node,
    {
        match self.get(id) {
            Some(info) => Some(&info.node),
            None => None,
        }
    }

    /// Get the flags for a given node ID.
    pub fn flags(&self, id: NodeId) -> (r: NodeFlags)
        ensures
            r.bits == flags_at(self@, id),
    {
        match self.get(id) {
            Some(info) => info.flags,
            None => NodeFlags::empty(),
        }
    }

    fn min_length_of(&self, id: NodeId) -> (r: Option<u32>)
        ensures
            r == min_at(self@, id),
    {
        match self.get(id) {
            Some(info) => info.min_length,
            None => None,
        }
    }

    fn max_length_of(&self, id: NodeId) -> (r: Option<u32>)
        ensures
            r == max_at(self@, id),
    {
        match self.get(id) {
            Some(info) => info.max_length,
            None => None,
        }
    }

    /// Allocate a new node in the arena.
    ///
    /// Its flags and lengths are computed from the nodes already in the arena;
    /// a child that is not in the arena counts as having no flags and no
    /// known length. The arena stays well-formed when it was and every child
    /// of the node is already in it.
    pub fn alloc_node(&mut self, node: RegexNode<T>) -> (r: NodeId)
        requires
            old(self)@.len() <= u32::MAX,
            min_length_fits(old(self)@, node@),
        ensures
            r.0 == old(self)@.len(),
            final(self)@ == old(self)@.push(mk_info(old(self)@, node@)),
            old(self).wf() && old(self)@.len() < u32::MAX && children_below(
                node@,
                old(self)@.len() as int,
            ) ==> final(self).wf(),
            infos_computed(old(self)@) ==> infos_computed(final(self)@),
    {
        let id = NodeId(self.nodes.len() as u32);
        let (flags, min_length, max_length) = self.compute_info(&node);
        let ghost old_view = self@;
        let info = NodeInfo { node, flags, min_length, max_length };
        let ghost iv = info@;
        self.nodes.push(info);
        proof {
            let a = self@;
            assert(a =~= old_view.push(iv));
            assert(a.take(old_view.len() as int) =~= old_view);
            if infos_computed(old_view) {
                assert forall|i: int| 4 <= i < a.len() implies a[i] == mk_info(a.take(i), #[trigger] a[i].node) by {
                    if i < old_view.len() {
                        assert(a.take(i) =~= old_view.take(i));
                    }
                }
            }
            if arena_wf(old_view) && old_view.len() < u32::MAX && children_below(
                iv.node,
                old_view.len() as int,
            ) {
                assert(a.take(old_view.len() as int) =~= old_view);
                assert forall|i: int| 4 <= i < a.len() implies children_below(
                    #[trigger] a[i].node,
                    i,
                ) && a[i] == mk_info(a.take(i), a[i].node) by {
                    if i < old_view.len() {
                        assert(a.take(i) =~= old_view.take(i));
                    }
                }
            }
        }
        id
    }

    /// Compute flags and length info for a node.
    fn compute_info(&self, node: &RegexNode<T>) -> (r: (NodeFlags, Option<u32>, Option<u32>))
        requires
            min_length_fits(self@, node@),
        ensures
            r.0.bits == info_flags(self@, node@),
            r.1 == info_min(self@, node@),
            r.2 == info_max(self@, node@),
    {
        proof {
            lemma_flag_constants();
        }
        match node {
            RegexNode::Concat { head, tail } => {
                let h_flags = self.flags(*head);
                let t_flags = self.flags(*tail);
                let flags = self.infer_concat_flags(h_flags, t_flags, *head, *tail);
                let min_length = match (self.min_length_of(*head), self.min_length_of(*tail)) {
                    (Some(h), Some(t)) => Some(h + t),
                    _ => None,
                };
                let max_length = match (self.max_length_of(*head), self.max_length_of(*tail)) {
                    (Some(h), Some(t)) => h.checked_add(t),
                    _ => None,
                };
                (flags, min_length, max_length)
            },
            RegexNode::Or { nodes } => {
                let flags = self.infer_or_flags(nodes);
                let (min_length, max_length) = self.or_lengths(nodes);
                (flags, min_length, max_length)
            },
            RegexNode::And { nodes } => {
                let flags = self.infer_and_flags(nodes);
                let (min_length, max_length) = self.and_lengths(nodes);
                (flags, min_length, max_length)
            },
            RegexNode::Singleton(_) => (NodeFlags::empty(), Some(1), Some(1)),
            RegexNode::Loop { node, low, high, .. } => {
                let inner_flags = self.flags(*node);
                let nullable_flags = if *low == 0 {
                    NodeFlags::CAN_BE_NULLABLE() | NodeFlags::IS_ALWAYS_NULLABLE()
                } else {
                    inner_flags & (NodeFlags::CAN_BE_NULLABLE() | NodeFlags::IS_ALWAYS_NULLABLE())
                };
                // Propagate other flags from inner
                let other_flags = inner_flags & (NodeFlags::CONTAINS_LOOKAROUND()
                    | NodeFlags::DEPENDS_ON_ANCHOR());
                // A loop repeats its body from `low` to `high` times.
                let min_length = if *low == 0 {
                    Some(0)
                } else {
                    match self.min_length_of(*node) {
                        Some(m) => low.checked_mul(m),
                        None => None,
                    }
                };
                let max_length = if *high == u32::MAX {
                    None
                } else if *high == 0 {
                    Some(0)
                } else {
                    match self.max_length_of(*node) {
                        Some(m) => high.checked_mul(m),
                        None => None,
                    }
                };
                (nullable_flags | other_flags, min_length, max_length)
            },
            RegexNode::Not { inner } => {
                let inner_flags = self.flags(*inner);
                let flags = self.infer_not_flags(inner_flags);
                (flags, None, None)
            },
            RegexNode::LookAround { inner, look_back, negative } => {
                let inner_flags = self.flags(*inner);
                let flags = self.infer_lookaround_flags(inner_flags, *look_back, *negative);
                (flags, Some(0), Some(0))
            },
            RegexNode::Begin => (
                NodeFlags::CAN_BE_NULLABLE() | NodeFlags::DEPENDS_ON_ANCHOR(),
                Some(0),
                Some(0),
            ),
            RegexNode::End => (
                NodeFlags::CAN_BE_NULLABLE() | NodeFlags::DEPENDS_ON_ANCHOR(),
                Some(0),
                Some(0),
            ),
        }
    }

    fn infer_concat_flags(&self, h_flags: NodeFlags, t_flags: NodeFlags, _head: NodeId, _tail: NodeId) -> (r: NodeFlags)
        ensures
            r.bits == concat_flags(h_flags.bits, t_flags.bits),
    {
        proof {
            lemma_flag_constants();
        }
        let contains_lookaround = (h_flags | t_flags) & NodeFlags::CONTAINS_LOOKAROUND();
        let nullable = (h_flags & t_flags) & (NodeFlags::CAN_BE_NULLABLE()
            | NodeFlags::IS_ALWAYS_NULLABLE());
        let depends_on_anchor = if h_flags.contains(NodeFlags::DEPENDS_ON_ANCHOR()) || (
        h_flags.contains(NodeFlags::CAN_BE_NULLABLE()) && t_flags.contains(
            NodeFlags::DEPENDS_ON_ANCHOR(),
        )) {
            NodeFlags::DEPENDS_ON_ANCHOR()
        } else {
            NodeFlags::empty()
        };
        let suffix_lookahead = if t_flags.contains(NodeFlags::HAS_SUFFIX_LOOKAHEAD()) {
            NodeFlags::HAS_SUFFIX_LOOKAHEAD()
        } else {
            NodeFlags::empty()
        };
        let prefix_lookbehind = if h_flags.contains(NodeFlags::HAS_PREFIX_LOOKBEHIND()) {
            NodeFlags::HAS_PREFIX_LOOKBEHIND()
        } else {
            NodeFlags::empty()
        };
        contains_lookaround | nullable | depends_on_anchor | suffix_lookahead | prefix_lookbehind
    }

    fn infer_or_flags(&self, nodes: &Vec<NodeId>) -> (r: NodeFlags)
        ensures
            r.bits == or_flags(self@, nodes@),
    {
        proof {
            lemma_flag_constants();
        }
        let all_flags = NodeFlags::CAN_BE_NULLABLE() | NodeFlags::IS_ALWAYS_NULLABLE()
            | NodeFlags::CONTAINS_LOOKAROUND() | NodeFlags::DEPENDS_ON_ANCHOR()
            | NodeFlags::HAS_SUFFIX_LOOKAHEAD() | NodeFlags::HAS_PREFIX_LOOKBEHIND();
        let mut acc = NodeFlags::empty();
        let mut i: usize = 0;
        while i < nodes.len()
            invariant
                i <= nodes.len(),
                all_flags.bits == all_mask(),
                acc.bits == or_flags(self@, nodes@.take(i as int)),
            decreases nodes.len() - i,
        {
            let f = self.flags(nodes[i]);
            acc = (f & all_flags) | acc;
            i = i + 1;
            assert(nodes@.take(i as int).drop_last() =~= nodes@.take(i - 1));
        }
        assert(nodes@.take(nodes.len() as int) =~= nodes@);
        acc
    }

    fn infer_and_flags(&self, nodes: &Vec<NodeId>) -> (r: NodeFlags)
        ensures
            r.bits == and_flags(self@, nodes@),
    {
        proof {
            lemma_flag_constants();
        }
        let init = NodeFlags::CAN_BE_NULLABLE() | NodeFlags::IS_ALWAYS_NULLABLE();
        let or_mask = NodeFlags::CONTAINS_LOOKAROUND() | NodeFlags::DEPENDS_ON_ANCHOR()
            | NodeFlags::HAS_SUFFIX_LOOKAHEAD() | NodeFlags::HAS_PREFIX_LOOKBEHIND();
        let and_mask = NodeFlags::CAN_BE_NULLABLE() | NodeFlags::IS_ALWAYS_NULLABLE();
        let mut acc = init;
        let mut i: usize = 0;
        while i < nodes.len()
            invariant
                i <= nodes.len(),
                or_mask.bits == and_or_mask(),
                and_mask.bits == nullable_mask(),
                acc.bits == and_flags(self@, nodes@.take(i as int)),
            decreases nodes.len() - i,
        {
            let flags = self.flags(nodes[i]);
            // Flags that propagate with OR (present if any child has them)
            let or_flags = (acc | flags) & or_mask;
            // Flags that propagate with AND (present only if all children have them)
            let and_flags = (acc & flags) & and_mask;
            acc = or_flags | and_flags;
            i = i + 1;
            assert(nodes@.take(i as int).drop_last() =~= nodes@.take(i - 1));
        }
        assert(nodes@.take(nodes.len() as int) =~= nodes@);
        acc
    }

    fn or_lengths(&self, nodes: &Vec<NodeId>) -> (r: (Option<u32>, Option<u32>))
        ensures
            r.0 == seq_min_of_mins(self@, nodes@),
            r.1 == (if all_have_max(self@, nodes@) {
                seq_max_of_maxs(self@, nodes@)
            } else {
                None
            }),
    {
        let mut min_length: Option<u32> = None;
        let mut max_length: Option<u32> = None;
        let mut all_max = true;
        let mut i: usize = 0;
        while i < nodes.len()
            invariant
                i <= nodes.len(),
                min_length == seq_min_of_mins(self@, nodes@.take(i as int)),
                max_length == seq_max_of_maxs(self@, nodes@.take(i as int)),
                all_max == all_have_max(self@, nodes@.take(i as int)),
            decreases nodes.len() - i,
        {
            let mn = self.min_length_of(nodes[i]);
            let mx = self.max_length_of(nodes[i]);
            min_length = match (min_length, mn) {
                (Some(p), Some(q)) => Some(if p <= q { p } else { q }),
                (Some(p), None) => Some(p),
                (None, _) => mn,
            };
            max_length = match (max_length, mx) {
                (Some(p), Some(q)) => Some(if p >= q { p } else { q }),
                (Some(p), None) => Some(p),
                (None, _) => mx,
            };
            all_max = all_max && mx.is_some();
            let ghost prev = nodes@.take(i as int);
            i = i + 1;
            assert(nodes@.take(i as int).drop_last() =~= prev);
            assert(all_max == all_have_max(self@, nodes@.take(i as int))) by {
                let s = nodes@.take(i as int);
                if all_have_max(self@, s) {
                    assert(max_at(self@, s[s.len() - 1]) is Some);
                    assert forall|j: int| 0 <= j < prev.len() implies (#[trigger] max_at(
                        self@,
                        prev[j],
                    )) is Some by {
                        assert(prev[j] == s[j]);
                    }
                }
                if all_max {
                    assert forall|j: int| 0 <= j < s.len() implies (#[trigger] max_at(
                        self@,
                        s[j],
                    )) is Some by {
                        if j < prev.len() {
                            assert(prev[j] == s[j]);
                        }
                    }
                }
            }
        }
        assert(nodes@.take(nodes.len() as int) =~= nodes@);
        if all_max {
            (min_length, max_length)
        } else {
            (min_length, None)
        }
    }

    fn and_lengths(&self, nodes: &Vec<NodeId>) -> (r: (Option<u32>, Option<u32>))
        ensures
            r.0 == seq_max_of_mins(self@, nodes@),
            r.1 == (if all_have_max(self@, nodes@) {
                seq_min_of_maxs(self@, nodes@)
            } else {
                None
            }),
    {
        let mut min_length: Option<u32> = None;
        let mut max_length: Option<u32> = None;
        let mut all_max = true;
        let mut i: usize = 0;
        while i < nodes.len()
            invariant
                i <= nodes.len(),
                min_length == seq_max_of_mins(self@, nodes@.take(i as int)),
                max_length == seq_min_of_maxs(self@, nodes@.take(i as int)),
                all_max == all_have_max(self@, nodes@.take(i as int)),
            decreases nodes.len() - i,
        {
            let mn = self.min_length_of(nodes[i]);
            let mx = self.max_length_of(nodes[i]);
            min_length = match (min_length, mn) {
                (Some(p), Some(q)) => Some(if p >= q { p } else { q }),
                (Some(p), None) => Some(p),
                (None, _) => mn,
            };
            max_length = match (max_length, mx) {
                (Some(p), Some(q)) => Some(if p <= q { p } else { q }),
                (Some(p), None) => Some(p),
                (None, _) => mx,
            };
            all_max = all_max && mx.is_some();
            let ghost prev = nodes@.take(i as int);
            i = i + 1;
            assert(nodes@.take(i as int).drop_last() =~= prev);
            assert(all_max == all_have_max(self@, nodes@.take(i as int))) by {
                let s = nodes@.take(i as int);
                if all_have_max(self@, s) {
                    assert(max_at(self@, s[s.len() - 1]) is Some);
                    assert forall|j: int| 0 <= j < prev.len() implies (#[trigger] max_at(
                        self@,
                        prev[j],
                    )) is Some by {
                        assert(prev[j] == s[j]);
                    }
                }
                if all_max {
                    assert forall|j: int| 0 <= j < s.len() implies (#[trigger] max_at(
                        self@,
                        s[j],
                    )) is Some by {
                        if j < prev.len() {
                            assert(prev[j] == s[j]);
                        }
                    }
                }
            }
        }
        assert(nodes@.take(nodes.len() as int) =~= nodes@);
        if all_max {
            (min_length, max_length)
        } else {
            (min_length, None)
        }
    }

    fn infer_not_flags(&self, inner_flags: NodeFlags) -> (r: NodeFlags)
        ensures
            r.bits == not_flags(inner_flags.bits),
    {
        proof {
            lemma_flag_constants();
        }
        let nullable = match (
            inner_flags.contains(NodeFlags::CAN_BE_NULLABLE()),
            inner_flags.contains(NodeFlags::IS_ALWAYS_NULLABLE()),
        ) {
            (false, _) => NodeFlags::CAN_BE_NULLABLE() | NodeFlags::IS_ALWAYS_NULLABLE(),
            (true, true) => NodeFlags::empty(),
            (true, false) => NodeFlags::CAN_BE_NULLABLE(),
        };
        let other = inner_flags & (NodeFlags::CONTAINS_LOOKAROUND()
            | NodeFlags::DEPENDS_ON_ANCHOR());
        nullable | other
    }

    fn infer_lookaround_flags(&self, inner_flags: NodeFlags, look_back: bool, _negative: bool) -> (r: NodeFlags)
        ensures
            r.bits == lookaround_flags(inner_flags.bits, look_back),
    {
        proof {
            lemma_flag_constants();
        }
        // Lookarounds are zero-width assertions, so they're always nullable
        let nullable = NodeFlags::CAN_BE_NULLABLE() | NodeFlags::IS_ALWAYS_NULLABLE();
        let anchor = inner_flags & NodeFlags::DEPENDS_ON_ANCHOR();
        let lookaround = if look_back {
            NodeFlags::CONTAINS_LOOKAROUND() | NodeFlags::HAS_PREFIX_LOOKBEHIND()
        } else {
            NodeFlags::CONTAINS_LOOKAROUND() | NodeFlags::HAS_SUFFIX_LOOKAHEAD()
        };
        nullable | anchor | lookaround
    }

    /// Get the fixed length of a pattern, if it has one.
    pub fn get_fixed_length(&self, id: NodeId) -> (r: Option<u32>)
        ensures
            r == fixed_length_at(self@, id),
    {
        match self.get(id) {
            Some(info) => match (info.min_length, info.max_length) {
                (Some(min), Some(max)) => if min == max {
                    Some(min)
                } else {
                    None
                },
                _ => None,
            },
            None => None,
        }
    }
}

/// The fixed length of node `id`: its minimum length when it equals its maximum.
pub open spec fn fixed_length_at<T>(a: Seq<SpecInfo<T>>, id: NodeId) -> Option<u32> {
    match (min_at(a, id), max_at(a, id)) {
        (Some(mn), Some(mx)) => if mn == mx {
            Some(mn)
        } else {
            None
        },
        _ => None,
    }
}


/// The invariants of node flags: a node that is always nullable can be
/// nullable, and a node with a lookahead at its suffix or a lookbehind at its
/// prefix contains a lookaround.
pub open spec fn flags_consistent(f: u8) -> bool {
    &&& has_bits(f, IS_ALWAYS_NULLABLE_BIT) ==> has_bits(f, CAN_BE_NULLABLE_BIT)
    &&& (has_bits(f, HAS_SUFFIX_LOOKAHEAD_BIT) || has_bits(f, HAS_PREFIX_LOOKBEHIND_BIT)) ==> has_bits(
        f,
        CONTAINS_LOOKAROUND_BIT,
    )
}

/// Each way of computing flags keeps their invariants.
proof fn lemma_flags_consistent_steps()
    by (bit_vector)
    ensures
        forall|h: u8, t: u8|
            #![trigger concat_flags(h, t)]
            flags_consistent(h) && flags_consistent(t) ==> flags_consistent(concat_flags(h, t)),
        forall|acc: u8, f: u8|
            #![trigger or_step(acc, f)]
            flags_consistent(acc) && flags_consistent(f) ==> flags_consistent(or_step(acc, f)),
        forall|acc: u8, f: u8|
            #![trigger and_step(acc, f)]
            flags_consistent(acc) && flags_consistent(f) ==> flags_consistent(and_step(acc, f)),
        forall|f: u8, low: u32|
            #![trigger loop_flags(f, low)]
            flags_consistent(f) ==> flags_consistent(loop_flags(f, low)),
        forall|f: u8| #![trigger not_flags(f)] flags_consistent(f) ==> flags_consistent(not_flags(f)),
        forall|f: u8, look_back: bool|
            #![trigger lookaround_flags(f, look_back)]
            flags_consistent(lookaround_flags(f, look_back)),
        flags_consistent(0u8),
        flags_consistent(3u8),
        flags_consistent(anchor_flags()),
{
}

/// Whether every node of `a` past the pre-allocated ones records the info
/// computed from the nodes before it: what `new` and `alloc` build, whatever
/// ids the children name.
pub open spec fn infos_computed<T>(a: Seq<SpecInfo<T>>) -> bool {
    &&& special_nodes_ok(a)
    &&& forall|i: int| 4 <= i < a.len() ==> a[i] == mk_info(a.take(i), #[trigger] a[i].node)
}

/// In an arena whose infos are computed, as `new` and `alloc` keep them, the
/// flags of every node keep their invariants, also where a child is not in
/// the arena.
pub proof fn lemma_flags_consistent<T>(a: Seq<SpecInfo<T>>, id: NodeId)
    requires
        infos_computed(a),
    ensures
        flags_consistent(flags_at(a, id)),
    decreases a.len(),
{
    lemma_flags_consistent_steps();
    if id.0 >= 4 && (id.0 as int) < a.len() {
        let i = id.0 as int;
        let n = a[i].node;
        let t = a.take(i);
        assert(a[i] == mk_info(t, n));
        assert(infos_computed(t)) by {
            assert forall|j: int| 4 <= j < t.len() implies t[j] == mk_info(t.take(j), #[trigger] t[j].node) by {
                assert(t.take(j) =~= a.take(j));
                assert(a[j] == mk_info(a.take(j), a[j].node));
            }
        }
        assert forall|x: NodeId| flags_consistent(#[trigger] flags_at(t, x)) by {
            lemma_flags_consistent(t, x);
        }
        match n {
            SpecNode::Or { nodes } => {
                lemma_or_flags_consistent(t, nodes);
            },
            SpecNode::And { nodes } => {
                lemma_and_flags_consistent(t, nodes);
            },
            _ => {},
        }
    }
}

proof fn lemma_or_flags_consistent<T>(a: Seq<SpecInfo<T>>, nodes: Seq<NodeId>)
    requires
        forall|x: NodeId| flags_consistent(#[trigger] flags_at(a, x)),
    ensures
        flags_consistent(or_flags(a, nodes)),
    decreases nodes.len(),
{
    lemma_flags_consistent_steps();
    if nodes.len() > 0 {
        lemma_or_flags_consistent(a, nodes.drop_last());
        assert(flags_consistent(flags_at(a, nodes.last())));
    }
}

proof fn lemma_and_flags_consistent<T>(a: Seq<SpecInfo<T>>, nodes: Seq<NodeId>)
    requires
        forall|x: NodeId| flags_consistent(#[trigger] flags_at(a, x)),
    ensures
        flags_consistent(and_flags(a, nodes)),
    decreases nodes.len(),
{
    lemma_flags_consistent_steps();
    if nodes.len() > 0 {
        lemma_and_flags_consistent(a, nodes.drop_last());
        assert(flags_consistent(flags_at(a, nodes.last())));
    }
}

} // verus!
