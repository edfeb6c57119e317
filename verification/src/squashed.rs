//! The stored form of squashed leaves, as the caller knows it.

use crate::error::{corruption, Error};
use crate::marf_walk::TrieLeafSquashed;
use crate::node_id::{clear_ctrl_bits, TrieNodeID};
use crate::value::TrieLeaf;
use crate::window::{get_node_body_max_byte_len, is_window, kind_of, max_body_len};
use vstd::prelude::*;

verus! {

/// What squashed leaves look like where they are stored: the most bytes that one takes, its hash
/// not counted, and how one is decoded from the head of a byte string, with the bytes it takes.
pub struct SquashedCodec<D> {
    pub max_len: usize,
    pub decode: D,
}

/// The squashed leaf at the head of a byte string, and the bytes it takes.
pub type SquashedForm = spec_fn(Seq<u8>) -> Option<(TrieLeafSquashed, usize)>;

/// Does `form` look at no more than the first `max` bytes?
#[verifier::opaque]
pub open spec fn looks_at_most(form: SquashedForm, max: usize) -> bool {
    forall|t: Seq<u8>, s: Seq<u8>| #[trigger] is_window(t, s, max as int) ==> form(t) == form(s)
}

/// Does the codec decode by `form`, which looks at no more than the most bytes that a squashed
/// leaf takes?
pub open spec fn decodes_by<D: Fn(&[u8]) -> Option<(TrieLeafSquashed, usize)>>(
    codec: SquashedCodec<D>,
    form: SquashedForm,
) -> bool {
    &&& forall|bytes: &[u8], r: Option<(TrieLeafSquashed, usize)>| #[trigger]
        codec.decode.ensures((bytes,), r) ==> r == form(bytes@)
    &&& looks_at_most(form, codec.max_len)
}

/// The most bytes that an item of this kind can take, its hash not counted, where a squashed
/// leaf takes at most `squashed`. `None` for an empty slot, which is no item.
pub open spec fn item_body_len(kind: TrieNodeID, squashed: usize) -> Option<usize> {
    if kind is LeafSquashed {
        Some(squashed)
    } else {
        max_body_len(kind)
    }
}

/// The leaf that a squashed leaf is hashed as: the value at the end of the range is its value.
pub open spec fn tip_leaf(leaf: TrieLeafSquashed) -> TrieLeaf {
    TrieLeaf { path: leaf.path, data: leaf.chunk.tip_value }
}

impl<D: Fn(&[u8]) -> Option<(TrieLeafSquashed, usize)>> SquashedCodec<D> {
    /// Can the codec be called on any bytes, does a squashed leaf take any, and can one be read at
    /// once with its hash?
    pub open spec fn ready(&self) -> bool {
        &&& 0 < self.max_len <= usize::MAX - 32
        &&& forall|bytes: &[u8]| self.decode.requires((bytes,))
    }

    /// The most bytes that the body of an item with this identifier can take.
    pub fn body_max_byte_len(&self, id: u8) -> (r: Result<usize, Error>)
        requires
            self.ready(),
        ensures
            match r {
                Ok(n) => kind_of(id) is Some && item_body_len(kind_of(id).unwrap(), self.max_len)
                    == Some(n) && 0 < n <= usize::MAX - 32,
                Err(e) => e is CorruptionError && (kind_of(id) matches Some(k) ==> item_body_len(
                    k,
                    self.max_len,
                ) is None),
            },
    {
        match TrieNodeID::from_u8(clear_ctrl_bits(id)) {
            Some(TrieNodeID::LeafSquashed) => Ok(self.max_len),
            _ => get_node_body_max_byte_len(id),
        }
    }

    /// Decode the squashed leaf at the head of `bytes`. Returns it with the bytes it takes.
    pub fn decode_at_head(&self, bytes: &[u8]) -> (r: Result<(TrieLeafSquashed, usize), Error>)
        requires
            self.ready(),
        ensures
            forall|form: SquashedForm| #[trigger]
                decodes_by(*self, form) ==> match r {
                    Ok(x) => form(bytes@) == Some(x),
                    Err(e) => e is CorruptionError && form(bytes@) is None,
                },
    {
        match (self.decode)(bytes) {
            Some(x) => Ok(x),
            None => Err(corruption("Not a squashed leaf")),
        }
    }
}

} // verus!
