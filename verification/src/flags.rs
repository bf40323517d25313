//! Node flags for regex pattern analysis.
//!
//! A `NodeFlags` value is a set of six properties of a regex node, stored as
//! the low six bits of a byte.
use vstd::prelude::*;

verus! {

/// Bit of the "can be nullable" property.
pub const CAN_BE_NULLABLE_BIT: u8 = 0x01;

/// Bit of the "always nullable" property.
pub const IS_ALWAYS_NULLABLE_BIT: u8 = 0x02;

/// Bit of the "contains a lookaround" property.
pub const CONTAINS_LOOKAROUND_BIT: u8 = 0x04;

/// Bit of the "nullability depends on the anchor position" property.
pub const DEPENDS_ON_ANCHOR_BIT: u8 = 0x08;

/// Bit of the "has a lookahead at its suffix" property.
pub const HAS_SUFFIX_LOOKAHEAD_BIT: u8 = 0x10;

/// Bit of the "has a lookbehind at its prefix" property.
pub const HAS_PREFIX_LOOKBEHIND_BIT: u8 = 0x20;

/// Flags describing properties of a regex node.
///
/// These flags are computed during IR construction and used for
/// optimization and analysis.
#[derive(Debug, Clone, Copy, PartialEq, Eq, Structural, Hash)]
pub struct NodeFlags {
    /// The raw bits of the set.
    pub bits: u8,
}

/// Whether all bits of `mask` are set in `bits`.
pub open spec fn has_bits(bits: u8, mask: u8) -> bool {
    bits & mask == mask
}

/// The values of the unions of flag bits used when flags are computed.
pub proof fn lemma_flag_constants()
    by (bit_vector)
    ensures
        1u8 | 2u8 == 3u8,
        1u8 | 8u8 == 9u8,
        4u8 | 8u8 == 0x0cu8,
        4u8 | 16u8 == 0x14u8,
        4u8 | 32u8 == 0x24u8,
        4u8 | 8u8 | 16u8 | 32u8 == 0x3cu8,
        1u8 | 2u8 | 4u8 | 8u8 | 16u8 | 32u8 == 0x3fu8,
        0u8 | 3u8 == 3u8,
        0u8 | 1u8 == 1u8,
        0u8 | 0u8 == 0u8,
        3u8 & 3u8 == 3u8,
        3u8 & 1u8 == 1u8,
        3u8 & 2u8 == 2u8,
        0u8 & 1u8 == 0u8,
        0u8 & 2u8 == 0u8,
        9u8 & 1u8 == 1u8,
        9u8 & 2u8 == 0u8,
        9u8 & 8u8 == 8u8,
{
}

impl NodeFlags {
    /// The pattern can match the empty string (in some contexts).
    #[allow(non_snake_case)]
    pub fn CAN_BE_NULLABLE() -> (r: NodeFlags)
        ensures
            r.bits == CAN_BE_NULLABLE_BIT,
    {
        NodeFlags { bits: CAN_BE_NULLABLE_BIT }
    }

    /// The pattern always matches the empty string (in all contexts).
    #[allow(non_snake_case)]
    pub fn IS_ALWAYS_NULLABLE() -> (r: NodeFlags)
        ensures
            r.bits == IS_ALWAYS_NULLABLE_BIT,
    {
        NodeFlags { bits: IS_ALWAYS_NULLABLE_BIT }
    }

    /// The pattern contains a lookaround assertion.
    #[allow(non_snake_case)]
    pub fn CONTAINS_LOOKAROUND() -> (r: NodeFlags)
        ensures
            r.bits == CONTAINS_LOOKAROUND_BIT,
    {
        NodeFlags { bits: CONTAINS_LOOKAROUND_BIT }
    }

    /// The pattern's nullability depends on anchor position.
    #[allow(non_snake_case)]
    pub fn DEPENDS_ON_ANCHOR() -> (r: NodeFlags)
        ensures
            r.bits == DEPENDS_ON_ANCHOR_BIT,
    {
        NodeFlags { bits: DEPENDS_ON_ANCHOR_BIT }
    }

    /// The pattern has a lookahead at its suffix.
    #[allow(non_snake_case)]
    pub fn HAS_SUFFIX_LOOKAHEAD() -> (r: NodeFlags)
        ensures
            r.bits == HAS_SUFFIX_LOOKAHEAD_BIT,
    {
        NodeFlags { bits: HAS_SUFFIX_LOOKAHEAD_BIT }
    }

    /// The pattern has a lookbehind at its prefix.
    #[allow(non_snake_case)]
    pub fn HAS_PREFIX_LOOKBEHIND() -> (r: NodeFlags)
        ensures
            r.bits == HAS_PREFIX_LOOKBEHIND_BIT,
    {
        NodeFlags { bits: HAS_PREFIX_LOOKBEHIND_BIT }
    }

    /// The empty set of flags.
    pub fn empty() -> (r: NodeFlags)
        ensures
            r.bits == 0,
    {
        NodeFlags { bits: 0 }
    }

    /// The raw bits of the set.
    pub fn bits(self) -> (r: u8)
        ensures
            r == self.bits,
    {
        self.bits
    }

    /// Whether every flag of `other` is set in `self`.
    pub fn contains(self, other: NodeFlags) -> (r: bool)
        ensures
            r == has_bits(self.bits, other.bits),
    {
        self.bits & other.bits == other.bits
    }

    /// Check if the pattern is always nullable.
    pub fn is_always_nullable(self) -> (r: bool)
        ensures
            r == has_bits(self.bits, IS_ALWAYS_NULLABLE_BIT),
    {
        self.contains(Self::IS_ALWAYS_NULLABLE())
    }

    /// Check if the pattern can be nullable.
    pub fn can_be_nullable(self) -> (r: bool)
        ensures
            r == has_bits(self.bits, CAN_BE_NULLABLE_BIT),
    {
        self.contains(Self::CAN_BE_NULLABLE())
    }

    /// Check if the pattern contains lookaround.
    pub fn contains_lookaround(self) -> (r: bool)
        ensures
            r == has_bits(self.bits, CONTAINS_LOOKAROUND_BIT),
    {
        self.contains(Self::CONTAINS_LOOKAROUND())
    }

    /// Check if nullability depends on anchor position.
    pub fn depends_on_anchor(self) -> (r: bool)
        ensures
            r == has_bits(self.bits, DEPENDS_ON_ANCHOR_BIT),
    {
        self.contains(Self::DEPENDS_ON_ANCHOR())
    }

    /// Check if the pattern has a suffix lookahead.
    pub fn has_suffix_lookahead(self) -> (r: bool)
        ensures
            r == has_bits(self.bits, HAS_SUFFIX_LOOKAHEAD_BIT),
    {
        self.contains(Self::HAS_SUFFIX_LOOKAHEAD())
    }

    /// Check if the pattern has a prefix lookbehind.
    pub fn has_prefix_lookbehind(self) -> (r: bool)
        ensures
            r == has_bits(self.bits, HAS_PREFIX_LOOKBEHIND_BIT),
    {
        self.contains(Self::HAS_PREFIX_LOOKBEHIND())
    }
}

impl core::ops::BitOr for NodeFlags {
    type Output = NodeFlags;

    /// The union of two flag sets.
    fn bitor(self, rhs: NodeFlags) -> (r: NodeFlags) {
        NodeFlags { bits: self.bits | rhs.bits }
    }
}

impl vstd::std_specs::ops::BitOrSpecImpl for NodeFlags {
    open spec fn obeys_bitor_spec() -> bool {
        true
    }

    open spec fn bitor_req(self, rhs: NodeFlags) -> bool {
        true
    }

    open spec fn bitor_spec(self, rhs: NodeFlags) -> NodeFlags {
        NodeFlags { bits: self.bits | rhs.bits }
    }
}

impl core::ops::BitAnd for NodeFlags {
    type Output = NodeFlags;

    /// The intersection of two flag sets.
    fn bitand(self, rhs: NodeFlags) -> (r: NodeFlags) {
        NodeFlags { bits: self.bits & rhs.bits }
    }
}

impl vstd::std_specs::ops::BitAndSpecImpl for NodeFlags {
    open spec fn obeys_bitand_spec() -> bool {
        true
    }

    open spec fn bitand_req(self, rhs: NodeFlags) -> bool {
        true
    }

    open spec fn bitand_spec(self, rhs: NodeFlags) -> NodeFlags {
        NodeFlags { bits: self.bits & rhs.bits }
    }
}

} // verus!
