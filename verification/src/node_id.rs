//! Node kinds and the two control bits that share their byte.

use vstd::prelude::*;

verus! {

/// All numeric values of a trie node when encoded. They are 6-bit numbers: bit 7 of the byte
/// marks a back-pointer to be followed, bit 6 marks a compressed pointer list.
#[derive(Debug, Clone, Copy, PartialEq, Eq, Structural)]
pub enum TrieNodeID {
    Empty,
    Leaf,
    Node4,
    Node16,
    Node48,
    Node256,
    Patch,
    LeafSquashed,
}

impl TrieNodeID {
    /// The byte that stands for this kind.
    pub open spec fn spec_to_u8(self) -> u8 {
        match self {
            TrieNodeID::Empty => 0,
            TrieNodeID::Leaf => 1,
            TrieNodeID::Node4 => 2,
            TrieNodeID::Node16 => 3,
            TrieNodeID::Node48 => 4,
            TrieNodeID::Node256 => 5,
            TrieNodeID::Patch => 6,
            TrieNodeID::LeafSquashed => 7,
        }
    }

    /// The kind that a byte stands for.
    pub open spec fn spec_from_u8(v: u8) -> Option<TrieNodeID> {
        if v == 0 {
            Some(TrieNodeID::Empty)
        } else if v == 1 {
            Some(TrieNodeID::Leaf)
        } else if v == 2 {
            Some(TrieNodeID::Node4)
        } else if v == 3 {
            Some(TrieNodeID::Node16)
        } else if v == 4 {
            Some(TrieNodeID::Node48)
        } else if v == 5 {
            Some(TrieNodeID::Node256)
        } else if v == 6 {
            Some(TrieNodeID::Patch)
        } else if v == 7 {
            Some(TrieNodeID::LeafSquashed)
        } else {
            None
        }
    }

    pub fn to_u8(self) -> (v: u8)
        ensures
            v == self.spec_to_u8(),
    {
        match self {
            TrieNodeID::Empty => 0,
            TrieNodeID::Leaf => 1,
            TrieNodeID::Node4 => 2,
            TrieNodeID::Node16 => 3,
            TrieNodeID::Node48 => 4,
            TrieNodeID::Node256 => 5,
            TrieNodeID::Patch => 6,
            TrieNodeID::LeafSquashed => 7,
        }
    }

    pub fn from_u8(v: u8) -> (r: Option<TrieNodeID>)
        ensures
            r == TrieNodeID::spec_from_u8(v),
    {
        match v {
            0 => Some(TrieNodeID::Empty),
            1 => Some(TrieNodeID::Leaf),
            2 => Some(TrieNodeID::Node4),
            3 => Some(TrieNodeID::Node16),
            4 => Some(TrieNodeID::Node48),
            5 => Some(TrieNodeID::Node256),
            6 => Some(TrieNodeID::Patch),
            7 => Some(TrieNodeID::LeafSquashed),
            _ => None,
        }
    }
}

/// A kind and its byte determine each other.
pub proof fn law_node_id_round_trip(kind: TrieNodeID, v: u8)
    ensures
        TrieNodeID::spec_from_u8(kind.spec_to_u8()) == Some(kind),
        TrieNodeID::spec_from_u8(v) matches Some(k) ==> k.spec_to_u8() == v,
{
}

pub open spec fn spec_is_backptr(id: u8) -> bool {
    id & 0x80 != 0
}

pub open spec fn spec_set_backptr(id: u8) -> u8 {
    id | 0x80
}

pub open spec fn spec_clear_backptr(id: u8) -> u8 {
    id & 0x7f
}

pub open spec fn spec_is_compressed(id: u8) -> bool {
    id & 0x40 != 0
}

pub open spec fn spec_set_compressed(id: u8) -> u8 {
    id | 0x40
}

pub open spec fn spec_clear_compressed(id: u8) -> u8 {
    id & 0xbf
}

pub open spec fn spec_clear_ctrl_bits(id: u8) -> u8 {
    id & 0x3f
}

/// A node ID encodes a back-pointer if its high bit is set
#[verifier::when_used_as_spec(spec_is_backptr)]
pub fn is_backptr(id: u8) -> (r: bool)
    ensures
        r == is_backptr(id),
{
    id & 0x80 != 0
}

/// Set the back-pointer bit
#[verifier::when_used_as_spec(spec_set_backptr)]
pub fn set_backptr(id: u8) -> (r: u8)
    ensures
        r == set_backptr(id),
{
    id | 0x80
}

/// Clear the back-pointer bit
#[verifier::when_used_as_spec(spec_clear_backptr)]
pub fn clear_backptr(id: u8) -> (r: u8)
    ensures
        r == clear_backptr(id),
{
    id & 0x7f
}

/// Is this node compressed?
#[verifier::when_used_as_spec(spec_is_compressed)]
pub fn is_compressed(id: u8) -> (r: bool)
    ensures
        r == is_compressed(id),
{
    id & 0x40 != 0
}

/// Set the compressed bit
#[verifier::when_used_as_spec(spec_set_compressed)]
pub fn set_compressed(id: u8) -> (r: u8)
    ensures
        r == set_compressed(id),
{
    id | 0x40
}

/// Clear the compressed bit
#[verifier::when_used_as_spec(spec_clear_compressed)]
pub fn clear_compressed(id: u8) -> (r: u8)
    ensures
        r == clear_compressed(id),
{
    id & 0xbf
}

/// Clear all control bits (backptr and compressed)
#[verifier::when_used_as_spec(spec_clear_ctrl_bits)]
pub fn clear_ctrl_bits(id: u8) -> (r: u8)
    ensures
        r == clear_ctrl_bits(id),
{
    id & 0x3f
}

/// Does the identifier name a leaf, squashed or not?
pub open spec fn spec_is_leaf_type(id: u8) -> bool {
    let kind = spec_clear_ctrl_bits(id);
    kind == TrieNodeID::Leaf.spec_to_u8() || kind == TrieNodeID::LeafSquashed.spec_to_u8()
}

/// Does the identifier name a leaf, squashed or not?
#[verifier::when_used_as_spec(spec_is_leaf_type)]
pub fn is_leaf_type(id: u8) -> (r: bool)
    ensures
        r == is_leaf_type(id),
{
    let kind = clear_ctrl_bits(id);
    kind == TrieNodeID::Leaf.to_u8() || kind == TrieNodeID::LeafSquashed.to_u8()
}

/// How the control bits interact: setting and clearing one bit never disturbs the other nor
/// the kind, clearing undoes setting, and each operation is idempotent.
pub proof fn law_ctrl_bits(id: u8)
    by (bit_vector)
    ensures
        spec_is_backptr(spec_set_backptr(id)),
        !spec_is_backptr(spec_clear_backptr(id)),
        spec_is_compressed(spec_set_compressed(id)),
        !spec_is_compressed(spec_clear_compressed(id)),
        spec_is_backptr(spec_set_compressed(id)) == spec_is_backptr(id),
        spec_is_backptr(spec_clear_compressed(id)) == spec_is_backptr(id),
        spec_is_compressed(spec_set_backptr(id)) == spec_is_compressed(id),
        spec_is_compressed(spec_clear_backptr(id)) == spec_is_compressed(id),
        spec_clear_ctrl_bits(spec_set_backptr(id)) == spec_clear_ctrl_bits(id),
        spec_clear_ctrl_bits(spec_set_compressed(id)) == spec_clear_ctrl_bits(id),
        spec_clear_ctrl_bits(id) == spec_clear_backptr(spec_clear_compressed(id)),
        spec_clear_ctrl_bits(spec_clear_ctrl_bits(id)) == spec_clear_ctrl_bits(id),
        spec_clear_ctrl_bits(id) <= 0x3f,
        !spec_is_backptr(spec_clear_ctrl_bits(id)),
        !spec_is_compressed(id) ==> spec_clear_compressed(spec_set_compressed(id)) == id,
        !spec_is_compressed(id) ==> spec_clear_compressed(id) == id,
        !spec_is_backptr(id) ==> spec_clear_backptr(spec_set_backptr(id)) == id,
        !spec_is_backptr(id) ==> spec_clear_backptr(id) == id,
        spec_is_backptr(id) ==> spec_set_backptr(id) == id,
        spec_is_backptr(id) ==> spec_set_backptr(spec_clear_backptr(id)) == id,
        spec_clear_compressed(spec_set_compressed(id)) == spec_clear_compressed(id),
        id < 0x40 ==> spec_clear_ctrl_bits(id) == id && !spec_is_backptr(id)
            && !spec_is_compressed(id),
        spec_set_backptr(id) != 0,
        spec_set_compressed(id) == 0xff ==> spec_clear_ctrl_bits(id) == 0x3f,
        spec_is_backptr(id) ==> id != 0,
        spec_clear_ctrl_bits(id) != 0 ==> id != 0,
        spec_clear_ctrl_bits(spec_clear_backptr(id)) == spec_clear_ctrl_bits(id),
        spec_clear_ctrl_bits(spec_clear_compressed(id)) == spec_clear_ctrl_bits(id),
        spec_is_backptr(id) || spec_is_compressed(id) || spec_clear_ctrl_bits(id) == id,
{
}

} // verus!
