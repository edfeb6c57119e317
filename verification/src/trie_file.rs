//! Flat storage of tries: all tries are contiguous byte strings within one long byte string,
//! held in memory or in a file that the caller reads.

use crate::bytes::array32;
use crate::consensus::get_leaf_hash;
use crate::error::{corruption, Error};
use crate::hash::{sha512_256, TrieHash};
use crate::marf_walk::TrieLeafSquashed;
use crate::model::NodeModel;
use crate::node::{no_meta, TrieNode, TrieNodeType};
use crate::node_id::{clear_ctrl_bits, is_leaf_type, TrieNodeID};
use crate::patch::{parse_patch, TrieNodePatch};
use crate::ptr::TriePtr;
use crate::read::{
    decode_nodetype_from_slice_at_head, parse_any, BorrowedNodeBytes, ReadTrieNode,
};
use crate::squashed::{
    decodes_by, item_body_len, looks_at_most, tip_leaf, SquashedCodec, SquashedForm,
};
use crate::value::TrieLeaf;
use crate::window::{is_window, kind_of, law_node_window, law_patch_window};
use std::collections::HashMap;
use vstd::prelude::*;

verus! {

broadcast use vstd::std_specs::hash::group_hash_axioms;

// ---------------------------------------------------------------------------------------
// Where tries start
// ---------------------------------------------------------------------------------------
/// Most block offsets that are kept in memory.
pub const TRIE_OFFSETS_CACHE_MAX: usize = 65_536;

/// Bounded cache of the offsets at which the tries of blocks start. It is cleared as a whole when
/// it is full, and when the tries may have moved.
#[derive(Debug)]
pub struct TrieIdOffsets {
    pub inner: HashMap<u32, u64>,
}

impl View for TrieIdOffsets {
    type V = Map<u32, u64>;

    open spec fn view(&self) -> Map<u32, u64> {
        self.inner@
    }
}

impl Default for TrieIdOffsets {
    fn default() -> (r: TrieIdOffsets)
        ensures
            r@ == Map::<u32, u64>::empty(),
    {
        TrieIdOffsets { inner: HashMap::new() }
    }
}

impl TrieIdOffsets {
    /// Is the cache within its bound?
    pub open spec fn bounded(&self) -> bool {
        self@.dom().finite() && self@.dom().len() <= TRIE_OFFSETS_CACHE_MAX
    }

    pub fn new() -> (r: TrieIdOffsets)
        ensures
            r@ == Map::<u32, u64>::empty(),
            r.bounded(),
    {
        TrieIdOffsets { inner: HashMap::new() }
    }

    /// The offset of a block, if it is cached.
    pub fn get(&self, block_id: &u32) -> (r: Option<u64>)
        ensures
            r == if self@.contains_key(*block_id) {
                Some(self@[*block_id])
            } else {
                None
            },
    {
        match self.inner.get(block_id) {
            Some(offset) => Some(*offset),
            None => None,
        }
    }

    /// Cache the offset of a block. A full cache is cleared first.
    pub fn insert(&mut self, block_id: u32, offset: u64)
        requires
            old(self).bounded(),
        ensures
            final(self)@ == if old(self)@.dom().len() >= TRIE_OFFSETS_CACHE_MAX {
                Map::<u32, u64>::empty().insert(block_id, offset)
            } else {
                old(self)@.insert(block_id, offset)
            },
            final(self).bounded(),
    {
        if self.inner.len() >= TRIE_OFFSETS_CACHE_MAX {
            self.inner.clear();
        }
        let _ = self.inner.insert(block_id, offset);
    }

    /// Forget all offsets.
    pub fn clear(&mut self)
        ensures
            final(self)@ == Map::<u32, u64>::empty(),
            final(self).bounded(),
    {
        self.inner.clear();
    }

    /// The offset of a block: from the cache, or else from `lookup`, which gives the offset and
    /// the length of a block's trie.
    pub fn get_trie_offset<L: Fn(u32) -> Result<(u64, u64), Error>>(
        &mut self,
        block_id: u32,
        lookup: L,
    ) -> (r: Result<u64, Error>)
        requires
            old(self).bounded(),
            lookup.requires((block_id,)),
        ensures
            final(self).bounded(),
            old(self)@.contains_key(block_id) ==> r == Ok::<u64, Error>(old(self)@[block_id])
                && final(self)@ == old(self)@,
            !old(self)@.contains_key(block_id) ==> match r {
                Ok(offset) => (exists|length: u64| #[trigger]
                    lookup.ensures((block_id,), Ok((offset, length)))) && final(self)@ == if old(
                    self,
                )@.dom().len() >= TRIE_OFFSETS_CACHE_MAX {
                    Map::<u32, u64>::empty().insert(block_id, offset)
                } else {
                    old(self)@.insert(block_id, offset)
                },
                Err(e) => final(self)@ == old(self)@ && lookup.ensures((block_id,), Err(e)),
            },
    {
        if let Some(offset) = self.get(&block_id) {
            return Ok(offset);
        }
        match lookup(block_id) {
            Ok((offset, length)) => {
                assert(lookup.ensures((block_id,), Ok((offset, length))));
                self.insert(block_id, offset);
                Ok(offset)
            },
            Err(e) => Err(e),
        }
    }
}

// ---------------------------------------------------------------------------------------
// Items
// ---------------------------------------------------------------------------------------
/// A node, a squashed leaf or a patch that was read, with its hash where it is stored.
#[derive(Debug)]
pub enum TrieItem {
    Node(TrieNodeType, Option<TrieHash>),
    Squashed(TrieLeafSquashed, Option<TrieHash>),
    Patch(TrieNodePatch, Option<TrieHash>),
}

/// A node, a squashed leaf or a patch, with its hash where it is stored.
#[verifier::ext_equal]
pub enum ItemModel {
    Node(NodeModel, Option<Seq<u8>>),
    Squashed(TrieLeafSquashed, Option<Seq<u8>>),
    Patch(TriePtr, Seq<TriePtr>, Option<Seq<u8>>),
}

pub open spec fn hash_model(h: Option<TrieHash>) -> Option<Seq<u8>> {
    match h {
        Some(h) => Some(h@),
        None => None,
    }
}

impl TrieItem {
    pub open spec fn model(&self) -> ItemModel {
        match self {
            TrieItem::Node(node, h) => ItemModel::Node(node.model(), hash_model(*h)),
            TrieItem::Squashed(leaf, h) => ItemModel::Squashed(*leaf, hash_model(*h)),
            TrieItem::Patch(p, h) => ItemModel::Patch(p.ptr, p.ptr_diff@, hash_model(*h)),
        }
    }

    /// Is this fresh from storage: a node can be operated on, and nothing is known of where it
    /// came from?
    pub open spec fn is_bare(&self) -> bool {
        self matches TrieItem::Node(node, _) ==> node.model().valid() && node.meta() == no_meta()
    }
}

/// The kind of the item whose body starts at the head of `s`.
pub open spec fn stored_kind(s: Seq<u8>) -> Option<TrieNodeID> {
    if s.len() == 0 {
        None
    } else {
        kind_of(s[0])
    }
}

/// The item of this kind, with this hash, whose body starts at the head of `s`. Only an item that
/// is stored with its hash can be a patch.
pub open spec fn body_of(
    form: SquashedForm,
    kind: TrieNodeID,
    s: Seq<u8>,
    hash: Option<Seq<u8>>,
) -> Option<ItemModel> {
    if kind is Patch && hash is Some {
        match parse_patch(s) {
            None => None,
            Some((ptr, diff, n)) => Some(ItemModel::Patch(ptr, diff, hash)),
        }
    } else if kind is LeafSquashed {
        match form(s) {
            None => None,
            Some((leaf, n)) => Some(ItemModel::Squashed(leaf, hash)),
        }
    } else {
        match parse_any(kind.spec_to_u8(), s) {
            None => None,
            Some((m, n)) => Some(ItemModel::Node(m, hash)),
        }
    }
}

/// The item at the head of `s`, where squashed leaves have this form. A leaf that is stored
/// without its hash starts with its body.
pub open spec fn item_of(form: SquashedForm, s: Seq<u8>, hash_free: bool) -> Option<ItemModel> {
    if hash_free {
        match stored_kind(s) {
            None => None,
            Some(kind) => body_of(form, kind, s, None),
        }
    } else if s.len() < 32 {
        None
    } else {
        match stored_kind(s.skip(32)) {
            None => None,
            Some(kind) => body_of(form, kind, s.skip(32), Some(s.take(32))),
        }
    }
}

/// The kind of the item whose body starts at the head of `bytes`.
pub fn stored_node_id_from_bytes(bytes: &[u8]) -> (r: Result<TrieNodeID, Error>)
    ensures
        match r {
            Ok(kind) => stored_kind(bytes@) == Some(kind),
            Err(e) => e is CorruptionError && stored_kind(bytes@) is None,
        },
{
    if bytes.len() == 0 {
        return Err(corruption("Failed to read node ID"));
    }
    match TrieNodeID::from_u8(clear_ctrl_bits(bytes[0])) {
        Some(kind) => Ok(kind),
        None => Err(corruption("Unknown trie node type")),
    }
}

/// The hash at the head of `bytes`.
pub fn parse_hash_from_bytes(bytes: &[u8]) -> (r: Result<TrieHash, Error>)
    ensures
        match r {
            Ok(h) => bytes@.len() >= 32 && h@ == bytes@.take(32),
            Err(e) => e is CorruptionError && bytes@.len() < 32,
        },
{
    if bytes.len() < 32 {
        return Err(corruption("Failed to read hash in full"));
    }
    let head = vstd::slice::slice_subrange(bytes, 0, 32);
    let a = array32(head);
    assert(a@ =~= bytes@.take(32));
    Ok(TrieHash(a))
}

/// Decode the item of this kind, with this hash, whose body starts at the head of `bytes`.
fn read_body<D: Fn(&[u8]) -> Option<(TrieLeafSquashed, usize)>>(
    bytes: &[u8],
    kind: TrieNodeID,
    hash: Option<TrieHash>,
    squashed: &SquashedCodec<D>,
) -> (r: Result<TrieItem, Error>)
    requires
        squashed.ready(),
    ensures
        r matches Ok(item) ==> item.is_bare(),
        forall|form: SquashedForm| #[trigger]
            decodes_by(*squashed, form) ==> {
                let body = body_of(form, kind, bytes@, hash_model(hash));
                match r {
                    Ok(item) => body == Some(item.model()),
                    Err(e) => e is CorruptionError && body is None,
                }
            },
{
    if kind == TrieNodeID::Patch && hash.is_some() {
        return match TrieNodePatch::from_slice(bytes) {
            Ok((patch, n)) => Ok(TrieItem::Patch(patch, hash)),
            Err(e) => Err(e),
        };
    }
    if kind == TrieNodeID::LeafSquashed {
        return match squashed.decode_at_head(bytes) {
            Ok((leaf, n)) => Ok(TrieItem::Squashed(leaf, hash)),
            Err(e) => Err(e),
        };
    }
    match decode_nodetype_from_slice_at_head(bytes, kind.to_u8()) {
        Ok((node, n)) => Ok(TrieItem::Node(node, hash)),
        Err(e) => Err(e),
    }
}

/// Decode the item at the head of `bytes`.
pub fn read_trie_item_from_slice<D: Fn(&[u8]) -> Option<(TrieLeafSquashed, usize)>>(
    bytes: &[u8],
    hash_free: bool,
    squashed: &SquashedCodec<D>,
) -> (r: Result<TrieItem, Error>)
    requires
        squashed.ready(),
    ensures
        r matches Ok(item) ==> item.is_bare(),
        forall|form: SquashedForm| #[trigger]
            decodes_by(*squashed, form) ==> match r {
                Ok(item) => item_of(form, bytes@, hash_free) == Some(item.model()),
                Err(e) => e is CorruptionError && item_of(form, bytes@, hash_free) is None,
            },
{
    if hash_free {
        let kind = match stored_node_id_from_bytes(bytes) {
            Ok(kind) => kind,
            Err(e) => {
                return Err(e);
            },
        };
        return read_body(bytes, kind, None, squashed);
    }
    let hash = match parse_hash_from_bytes(bytes) {
        Ok(hash) => hash,
        Err(e) => {
            return Err(e);
        },
    };
    let body = vstd::slice::slice_subrange(bytes, 32, bytes.len());
    assert(body@ =~= bytes@.skip(32));
    let kind = match stored_node_id_from_bytes(body) {
        Ok(kind) => kind,
        Err(e) => {
            return Err(e);
        },
    };
    read_body(body, kind, Some(hash), squashed)
}

// ---------------------------------------------------------------------------------------
// Reading
// ---------------------------------------------------------------------------------------
/// What stands in `data` from `offset` on.
pub open spec fn rest_of(data: Seq<u8>, offset: int) -> Seq<u8> {
    if 0 <= offset <= data.len() {
        data.skip(offset)
    } else {
        Seq::empty()
    }
}

/// The first `n` bytes of `s`, or all of it.
pub open spec fn at_most(s: Seq<u8>, n: int) -> Seq<u8> {
    if n < s.len() {
        s.take(n)
    } else {
        s
    }
}

/// Does `read_at`, which gives up to so many bytes from an offset, read `data` at `offset`?
pub open spec fn reads_from<R: Fn(usize, u64) -> Result<Vec<u8>, Error>>(
    read_at: R,
    offset: u64,
    data: Seq<u8>,
) -> bool {
    forall|n: usize, bytes: Vec<u8>| #[trigger]
        read_at.ensures((n, offset), Ok(bytes)) ==> bytes@ == at_most(data, n as int)
}

/// Can a read at `offset` have failed with `e`?
pub open spec fn read_failed<R: Fn(usize, u64) -> Result<Vec<u8>, Error>>(
    read_at: R,
    offset: u64,
    e: Error,
) -> bool {
    exists|n: usize| #[trigger] read_at.ensures((n, offset), Err(e))
}

/// Did reading at `file_offset` give what `expected` tells of the bytes there? They come from the
/// map where there is one, and else from `read_at`, whose errors are passed on.
pub open spec fn told_by<A, R: Fn(usize, u64) -> Result<Vec<u8>, Error>>(
    mapped: Option<Seq<u8>>,
    read_at: R,
    file_offset: u64,
    expected: spec_fn(Seq<u8>) -> Option<A>,
    r: Result<A, Error>,
) -> bool {
    match mapped {
        Some(bytes) => match r {
            Ok(a) => expected(bytes) == Some(a),
            Err(e) => expected(bytes) is None && e is CorruptionError,
        },
        None => forall|data: Seq<u8>| #[trigger]
            reads_from(read_at, file_offset, data) ==> match r {
                Ok(a) => expected(data) == Some(a),
                Err(e) => (expected(data) is None && e is CorruptionError) || read_failed(
                    read_at,
                    file_offset,
                    e,
                ),
            },
    }
}

/// The map from `offset` on, where there is a map and it reaches that far.
pub open spec fn mapped_at(map: Option<&[u8]>, offset: int) -> Option<Seq<u8>> {
    match map {
        Some(bytes) => if offset <= bytes@.len() {
            Some(bytes@.skip(offset))
        } else {
            None
        },
        None => None,
    }
}

/// The map from `offset` on. It may lag behind the file.
pub fn mmap_slice_at<'a>(map: Option<&'a [u8]>, offset: u64) -> (r: Option<&'a [u8]>)
    ensures
        match r {
            Some(bytes) => mapped_at(map, offset as int) == Some(bytes@),
            None => mapped_at(map, offset as int) is None,
        },
{
    match map {
        Some(bytes) => {
            let have = bytes.len();
            if offset <= have as u64 {
                let rest = vstd::slice::slice_subrange(bytes, offset as usize, have);
                assert(rest@ =~= bytes@.skip(offset as int));
                Some(rest)
            } else {
                None
            }
        },
        None => None,
    }
}

proof fn lemma_item_window(
    form: SquashedForm,
    max: usize,
    t: Seq<u8>,
    s: Seq<u8>,
    hash_free: bool,
)
    requires
        looks_at_most(form, max),
        ({
            let skip: int = if hash_free {
                0
            } else {
                32
            };
            &&& is_window(t, s, 1 + skip)
            &&& s.len() > skip ==> match kind_of(s[skip]) {
                Some(kind) => match item_body_len(kind, max) {
                    Some(n) => is_window(t, s, skip + n),
                    None => true,
                },
                None => true,
            }
        }),
    ensures
        item_of(form, t, hash_free) == item_of(form, s, hash_free),
{
    let skip: int = if hash_free {
        0
    } else {
        32
    };
    if s.len() > skip {
        let a = t.skip(skip);
        let b = s.skip(skip);
        assert(a[0] == b[0]);
        assert(t.take(skip) =~= s.take(skip));
        if hash_free {
            assert(a =~= t);
            assert(b =~= s);
        }
        if let Some(kind) = kind_of(s[skip]) {
            crate::node_id::law_node_id_round_trip(kind, 0);
            crate::node_id::law_ctrl_bits(kind.spec_to_u8());
            assert(kind_of(kind.spec_to_u8()) == Some(kind));
            if let Some(n) = item_body_len(kind, max) {
                assert(a =~= b.take(a.len() as int));
                assert(is_window(a, b, n as int));
                if kind is LeafSquashed {
                    reveal(looks_at_most);
                } else {
                    law_node_window(kind, a, b);
                }
                if kind is Patch {
                    law_patch_window(a, b);
                }
            }
        }
    } else {
        assert(t =~= s);
    }
}

/// Is it known how many bytes an item with this identifier can take?
pub open spec fn size_known(id: u8) -> bool {
    kind_of(id) matches Some(kind) && !(kind is Empty)
}

pub open spec fn slice_view(b: Option<&[u8]>) -> Option<Seq<u8>> {
    match b {
        Some(b) => Some(b@),
        None => None,
    }
}

pub open spec fn item_model(r: Result<TrieItem, Error>) -> Result<ItemModel, Error> {
    match r {
        Ok(item) => Ok(item.model()),
        Err(e) => Err(e),
    }
}

pub open spec fn hash_result(r: Result<TrieHash, Error>) -> Result<Seq<u8>, Error> {
    match r {
        Ok(h) => Ok(h@),
        Err(e) => Err(e),
    }
}

/// Read the item at a position of the file.
///
/// Where the file is mapped, `mapped` is the map from that position on, and the item is decoded
/// from there. Otherwise as many bytes are read as an item of the kind that `ptr` tells can take.
/// The kind may be out of date: where what is stored can take more, more is read.
pub fn read_item_at_offset<
    R: Fn(usize, u64) -> Result<Vec<u8>, Error>,
    D: Fn(&[u8]) -> Option<(TrieLeafSquashed, usize)>,
>(
    mapped: Option<&[u8]>,
    read_at: &R,
    file_offset: u64,
    ptr: &TriePtr,
    leaf_hashes_omitted: bool,
    squashed: &SquashedCodec<D>,
) -> (r: Result<TrieItem, Error>)
    requires
        forall|n: usize, offset: u64| read_at.requires((n, offset)),
        squashed.ready(),
    ensures
        r matches Ok(item) ==> item.is_bare(),
        mapped is None && !size_known(ptr.id) ==> (r matches Err(e) && e is CorruptionError),
        mapped is Some || size_known(ptr.id) ==> forall|
            form: SquashedForm,
        | #[trigger]
            decodes_by(*squashed, form) ==> told_by(
                slice_view(mapped),
                *read_at,
                file_offset,
                |s: Seq<u8>| item_of(form, s, leaf_hashes_omitted && is_leaf_type(ptr.id)),
                item_model(r),
            ),
{
    let hash_free = leaf_hashes_omitted && is_leaf_type(ptr.id());
    if let Some(bytes) = mapped {
        return read_trie_item_from_slice(bytes, hash_free, squashed);
    }
    let skip: usize = if hash_free {
        0
    } else {
        32
    };
    let hinted = match squashed.body_max_byte_len(ptr.id()) {
        Ok(n) => skip + n,
        Err(e) => {
            return Err(e);
        },
    };
    let first = match read_at(hinted, file_offset) {
        Ok(bytes) => bytes,
        Err(e) => {
            assert(read_at.ensures((hinted, file_offset), Err(e)));
            return Err(e);
        },
    };
    if first.len() <= skip {
        // Too short for anything: decoding says so.
        return read_trie_item_from_slice(first.as_slice(), hash_free, squashed);
    }
    let body = vstd::slice::slice_subrange(first.as_slice(), skip, first.len());
    let kind = match stored_node_id_from_bytes(body) {
        Ok(kind) => kind,
        Err(e) => {
            return Err(e);
        },
    };
    proof {
        crate::node_id::law_node_id_round_trip(kind, 0);
        crate::node_id::law_ctrl_bits(kind.spec_to_u8());
        assert(kind_of(kind.spec_to_u8()) == Some(kind));
    }
    let stored = match squashed.body_max_byte_len(kind.to_u8()) {
        Ok(n) => skip + n,
        Err(e) => {
            assert forall|form: SquashedForm, data: Seq<u8>| #[trigger]
                decodes_by(*squashed, form) && #[trigger] reads_from(
                    *read_at,
                    file_offset,
                    data,
                ) implies item_of(form, data, hash_free) is None by {
                let s = data;
                assert(s[skip as int] == first@[skip as int]);
                if !hash_free {
                    assert(s.skip(32)[0] == s[32]);
                }
            }
            return Err(e);
        },
    };
    if stored > hinted {
        let second = match read_at(stored, file_offset) {
            Ok(bytes) => bytes,
            Err(e) => {
                assert(read_at.ensures((stored, file_offset), Err(e)));
                return Err(e);
            },
        };
        assert forall|form: SquashedForm, data: Seq<u8>| #[trigger]
            decodes_by(*squashed, form) && #[trigger] reads_from(
                *read_at,
                file_offset,
                data,
            ) implies item_of(form, second@, hash_free) == item_of(form, data, hash_free) by {
            let s = data;
            assert(s[skip as int] == first@[skip as int]);
            assert(second@ == at_most(s, stored as int));
            assert(second@ =~= s.take(second@.len() as int));
            lemma_item_window(form, squashed.max_len, second@, s, hash_free);
        }
        return read_trie_item_from_slice(second.as_slice(), hash_free, squashed);
    }
    assert forall|form: SquashedForm, data: Seq<u8>| #[trigger]
        decodes_by(*squashed, form) && #[trigger] reads_from(
            *read_at,
            file_offset,
            data,
        ) implies item_of(form, first@, hash_free) == item_of(form, data, hash_free) by {
        let s = data;
        assert(s[skip as int] == first@[skip as int]);
        assert(first@ == at_most(s, hinted as int));
        assert(first@ =~= s.take(first@.len() as int));
        lemma_item_window(form, squashed.max_len, first@, s, hash_free);
    }
    read_trie_item_from_slice(first.as_slice(), hash_free, squashed)
}


/// The hash at the head of `s`.
pub open spec fn hash_of(s: Seq<u8>) -> Option<Seq<u8>> {
    if s.len() < 32 {
        None
    } else {
        Some(s.take(32))
    }
}

/// Read the hash at a position of the file.
pub fn read_hash_at<R: Fn(usize, u64) -> Result<Vec<u8>, Error>>(
    mapped: Option<&[u8]>,
    read_at: &R,
    file_offset: u64,
) -> (r: Result<TrieHash, Error>)
    requires
        forall|n: usize, offset: u64| read_at.requires((n, offset)),
    ensures
        told_by(
            slice_view(mapped),
            *read_at,
            file_offset,
            |s: Seq<u8>| hash_of(s),
            hash_result(r),
        ),
{
    if let Some(bytes) = mapped {
        return parse_hash_from_bytes(bytes);
    }
    match read_at(32, file_offset) {
        Ok(bytes) => {
            assert forall|data: Seq<u8>| #[trigger] reads_from(*read_at, file_offset, data) implies hash_of(
                bytes@,
            ) == hash_of(data) by {
                let s = data;
                assert(bytes@ == at_most(s, 32));
                if s.len() >= 32 {
                    assert(bytes@.take(32) =~= s.take(32));
                }
            }
            parse_hash_from_bytes(bytes.as_slice())
        },
        Err(e) => {
            assert(read_at.ensures((32, file_offset), Err(e)));
            Err(e)
        },
    }
}

/// The leaf whose body stands at the head of `s`. A squashed leaf is the leaf with the value at the
/// end of its range.
pub open spec fn leaf_of(form: SquashedForm, s: Seq<u8>) -> Option<NodeModel> {
    match item_of(form, s, true) {
        Some(ItemModel::Node(m, h)) => if m.kind is Leaf {
            Some(m)
        } else {
            None
        },
        Some(ItemModel::Squashed(leaf, h)) => Some(tip_leaf(leaf).model()),
        _ => None,
    }
}

/// The hash of the leaf whose body stands at the head of `s`: the digest of the stored form of a
/// plain leaf.
pub open spec fn leaf_hash_of(form: SquashedForm, s: Seq<u8>) -> Option<Seq<u8>> {
    match leaf_of(form, s) {
        Some(m) => Some(sha512_256(m.bytes())),
        None => None,
    }
}

/// The hash of the leaf at the head of `bytes`.
pub fn leaf_hash_from_bytes<D: Fn(&[u8]) -> Option<(TrieLeafSquashed, usize)>>(
    bytes: &[u8],
    squashed: &SquashedCodec<D>,
) -> (r: Result<TrieHash, Error>)
    requires
        squashed.ready(),
    ensures
        forall|form: SquashedForm| #[trigger]
            decodes_by(*squashed, form) ==> match r {
                Ok(h) => leaf_hash_of(form, bytes@) == Some(h@),
                Err(e) => e is CorruptionError && leaf_hash_of(form, bytes@) is None,
            },
{
    match read_trie_item_from_slice(bytes, true, squashed) {
        Ok(TrieItem::Node(TrieNodeType::Leaf(leaf), _)) => Ok(get_leaf_hash(&leaf)),
        Ok(TrieItem::Squashed(leaf, _)) => Ok(
            get_leaf_hash(&TrieLeaf { path: leaf.path, data: leaf.chunk.tip_value }),
        ),
        Ok(_) => Err(corruption("recompute_leaf_hash_at: not a leaf node")),
        Err(e) => Err(e),
    }
}

/// Read the leaf at a position of the file, where it is stored without its hash, and compute its
/// hash.
pub fn recompute_leaf_hash_at<
    R: Fn(usize, u64) -> Result<Vec<u8>, Error>,
    D: Fn(&[u8]) -> Option<(TrieLeafSquashed, usize)>,
>(
    mapped: Option<&[u8]>,
    read_at: &R,
    file_offset: u64,
    ptr_id: u8,
    squashed: &SquashedCodec<D>,
) -> (r: Result<TrieHash, Error>)
    requires
        forall|n: usize, offset: u64| read_at.requires((n, offset)),
        squashed.ready(),
    ensures
        mapped is None && !size_known(ptr_id) ==> (r matches Err(e) && e is CorruptionError),
        mapped is Some || size_known(ptr_id) ==> forall|form: SquashedForm|
            #[trigger] decodes_by(*squashed, form) ==> told_by(
                slice_view(mapped),
                *read_at,
                file_offset,
                |s: Seq<u8>| leaf_hash_of(form, s),
                hash_result(r),
            ),
{
    if let Some(bytes) = mapped {
        return leaf_hash_from_bytes(bytes, squashed);
    }
    let hinted = match squashed.body_max_byte_len(ptr_id) {
        Ok(n) => n,
        Err(e) => {
            return Err(e);
        },
    };
    let first = match read_at(hinted, file_offset) {
        Ok(bytes) => bytes,
        Err(e) => {
            assert(read_at.ensures((hinted, file_offset), Err(e)));
            return Err(e);
        },
    };
    let kind = match stored_node_id_from_bytes(first.as_slice()) {
        Ok(kind) => kind,
        Err(e) => {
            assert forall|form: SquashedForm, data: Seq<u8>| #[trigger]
                decodes_by(*squashed, form) && #[trigger] reads_from(
                    *read_at,
                    file_offset,
                    data,
                ) implies leaf_hash_of(form, data) is None by {
                let s = data;
                assert(first@ == at_most(s, hinted as int));
                if s.len() > 0 {
                    assert(s[0] == first@[0]);
                }
            }
            return Err(e);
        },
    };
    proof {
        crate::node_id::law_node_id_round_trip(kind, 0);
        crate::node_id::law_ctrl_bits(kind.spec_to_u8());
        assert(kind_of(kind.spec_to_u8()) == Some(kind));
    }
    let stored = match squashed.body_max_byte_len(kind.to_u8()) {
        Ok(n) => n,
        Err(e) => {
            assert forall|form: SquashedForm, data: Seq<u8>| #[trigger]
                decodes_by(*squashed, form) && #[trigger] reads_from(
                    *read_at,
                    file_offset,
                    data,
                ) implies leaf_hash_of(form, data) is None by {
                let s = data;
                assert(s[0] == first@[0]);
            }
            return Err(e);
        },
    };
    let bytes = if stored > hinted {
        match read_at(stored, file_offset) {
            Ok(bytes) => bytes,
            Err(e) => {
                assert(read_at.ensures((stored, file_offset), Err(e)));
                return Err(e);
            },
        }
    } else {
        first
    };
    assert forall|form: SquashedForm, data: Seq<u8>| #[trigger]
        decodes_by(*squashed, form) && #[trigger] reads_from(
            *read_at,
            file_offset,
            data,
        ) implies leaf_hash_of(form, bytes@) == leaf_hash_of(form, data) by {
        let s = data;
        assert(bytes@ =~= s.take(bytes@.len() as int));
        assert(bytes@[0] == s[0]);
        lemma_item_window(form, squashed.max_len, bytes@, s, true);
    }
    leaf_hash_from_bytes(bytes.as_slice(), squashed)
}

/// The kind and the hash of the item at the head of `s`.
pub open spec fn type_of(s: Seq<u8>) -> Option<(TrieNodeID, Seq<u8>)> {
    if s.len() < 33 {
        None
    } else {
        match kind_of(s[32]) {
            Some(kind) => Some((kind, s.take(32))),
            None => None,
        }
    }
}

pub open spec fn type_result(r: Result<(TrieNodeID, TrieHash), Error>) -> Result<
    (TrieNodeID, Seq<u8>),
    Error,
> {
    match r {
        Ok((kind, h)) => Ok((kind, h@)),
        Err(e) => Err(e),
    }
}

/// The kind and the hash of the item at the head of `bytes`.
pub fn read_stored_node_type_from_slice(bytes: &[u8]) -> (r: Result<(TrieNodeID, TrieHash), Error>)
    ensures
        match r {
            Ok((kind, h)) => type_of(bytes@) == Some((kind, h@)),
            Err(e) => e is CorruptionError && type_of(bytes@) is None,
        },
{
    let hash = match parse_hash_from_bytes(bytes) {
        Ok(h) => h,
        Err(e) => {
            return Err(e);
        },
    };
    let body = vstd::slice::slice_subrange(bytes, 32, bytes.len());
    match stored_node_id_from_bytes(body) {
        Ok(kind) => Ok((kind, hash)),
        Err(e) => Err(e),
    }
}

/// Read the kind and the hash of the item at a position of the file.
pub fn read_node_type_at<R: Fn(usize, u64) -> Result<Vec<u8>, Error>>(
    mapped: Option<&[u8]>,
    read_at: &R,
    file_offset: u64,
) -> (r: Result<(TrieNodeID, TrieHash), Error>)
    requires
        forall|n: usize, offset: u64| read_at.requires((n, offset)),
    ensures
        told_by(
            slice_view(mapped),
            *read_at,
            file_offset,
            |s: Seq<u8>| type_of(s),
            type_result(r),
        ),
{
    if let Some(bytes) = mapped {
        return read_stored_node_type_from_slice(bytes);
    }
    match read_at(33, file_offset) {
        Ok(bytes) => {
            assert forall|data: Seq<u8>| #[trigger] reads_from(*read_at, file_offset, data) implies type_of(
                bytes@,
            ) == type_of(data) by {
                let s = data;
                assert(bytes@ == at_most(s, 33));
                if s.len() >= 33 {
                    assert(bytes@.take(32) =~= s.take(32));
                }
            }
            read_stored_node_type_from_slice(bytes.as_slice())
        },
        Err(e) => {
            assert(read_at.ensures((33, file_offset), Err(e)));
            Err(e)
        },
    }
}

/// The hash of the node that `ptr` points to in the trie at `trie_offset`. Leaves that are stored
/// without their hashes are hashed anew.
pub fn get_node_hash<
    R: Fn(usize, u64) -> Result<Vec<u8>, Error>,
    D: Fn(&[u8]) -> Option<(TrieLeafSquashed, usize)>,
>(
    map: Option<&[u8]>,
    read_at: &R,
    trie_offset: u64,
    ptr: &TriePtr,
    leaf_hashes_omitted: bool,
    squashed: &SquashedCodec<D>,
) -> (r: Result<TrieHash, Error>)
    requires
        forall|n: usize, offset: u64| read_at.requires((n, offset)),
        squashed.ready(),
        trie_offset + ptr.ptr <= u64::MAX,
    ensures
        ({
            let at = (trie_offset + ptr.ptr) as u64;
            let hash_free = leaf_hashes_omitted && is_leaf_type(ptr.id);
            let mapped = mapped_at(map, at as int);
            &&& hash_free && mapped is None && !size_known(ptr.id) ==> (r matches Err(e)
                && e is CorruptionError)
            &&& hash_free && (mapped is Some || size_known(ptr.id)) ==> forall|
                form: SquashedForm,
            | #[trigger]
                decodes_by(*squashed, form) ==> told_by(
                    mapped,
                    *read_at,
                    at,
                    |s: Seq<u8>| leaf_hash_of(form, s),
                    hash_result(r),
                )
            &&& !hash_free ==> told_by(mapped, *read_at, at, |s: Seq<u8>| hash_of(s), hash_result(r))
        }),
{
    let file_offset = trie_offset + ptr.ptr() as u64;
    let mapped = mmap_slice_at(map, file_offset);
    assert(slice_view(mapped) == mapped_at(map, file_offset as int));
    if leaf_hashes_omitted && is_leaf_type(ptr.id()) {
        recompute_leaf_hash_at(mapped, read_at, file_offset, ptr.id(), squashed)
    } else {
        read_hash_at(mapped, read_at, file_offset)
    }
}

/// Read the item that `ptr` points to in the trie at `trie_offset`.
pub fn read_trie_item<
    R: Fn(usize, u64) -> Result<Vec<u8>, Error>,
    D: Fn(&[u8]) -> Option<(TrieLeafSquashed, usize)>,
>(
    map: Option<&[u8]>,
    read_at: &R,
    trie_offset: u64,
    ptr: &TriePtr,
    leaf_hashes_omitted: bool,
    squashed: &SquashedCodec<D>,
) -> (r: Result<TrieItem, Error>)
    requires
        forall|n: usize, offset: u64| read_at.requires((n, offset)),
        squashed.ready(),
        trie_offset + ptr.ptr <= u64::MAX,
    ensures
        r matches Ok(item) ==> item.is_bare(),
        ({
            let at = (trie_offset + ptr.ptr) as u64;
            let mapped = mapped_at(map, at as int);
            &&& mapped is None && !size_known(ptr.id) ==> (r matches Err(e)
                && e is CorruptionError)
            &&& mapped is Some || size_known(ptr.id) ==> forall|form: SquashedForm| #[trigger]
                decodes_by(*squashed, form) ==> told_by(
                    mapped,
                    *read_at,
                    at,
                    |s: Seq<u8>| item_of(form, s, leaf_hashes_omitted && is_leaf_type(ptr.id)),
                    item_model(r),
                )
        }),
{
    let file_offset = trie_offset + ptr.ptr() as u64;
    let mapped = mmap_slice_at(map, file_offset);
    assert(slice_view(mapped) == mapped_at(map, file_offset as int));
    read_item_at_offset(mapped, read_at, file_offset, ptr, leaf_hashes_omitted, squashed)
}

/// The bytes of the node that `ptr` points to in the trie at `trie_offset`, where the file is
/// mapped that far and no patch stands there. Nothing is decoded yet.
pub fn read_trie_item_borrowed<'a>(
    map: Option<&'a [u8]>,
    trie_offset: u64,
    ptr: &TriePtr,
    leaf_hashes_omitted: bool,
) -> (r: Result<Option<ReadTrieNode<'a>>, Error>)
    requires
        trie_offset + ptr.ptr <= u64::MAX,
    ensures
        ({
            let hash_free = leaf_hashes_omitted && is_leaf_type(ptr.id);
            let skip: int = if hash_free {
                0
            } else {
                32
            };
            match mapped_at(map, trie_offset + ptr.ptr) {
                None => r matches Ok(None),
                Some(s) => {
                    let kind = if s.len() < skip {
                        None
                    } else {
                        stored_kind(s.skip(skip))
                    };
                    match kind {
                        None => r matches Err(e) && e is CorruptionError,
                        Some(TrieNodeID::Patch) => r matches Ok(None),
                        Some(kind) => {
                            &&& r matches Ok(Some(node))
                            &&& node.backing matches crate::read::ReadNodeBacking::PersistedBytes(
                                crate::read::BytesBacking::Borrowed(b),
                            )
                            &&& b.node_type == kind
                            &&& b.bytes@ == s.skip(skip)
                            &&& hash_model(node.hash) == if hash_free {
                                None
                            } else {
                                Some(s.take(32))
                            }
                            &&& node.patch_depth == 0
                        },
                    }
                },
            }
        }),
{
    let file_offset = trie_offset + ptr.ptr() as u64;
    let bytes = match mmap_slice_at(map, file_offset) {
        Some(bytes) => bytes,
        None => {
            return Ok(None);
        },
    };
    let hash_free = leaf_hashes_omitted && is_leaf_type(ptr.id());
    let (hash, body) = if hash_free {
        assert(bytes@.skip(0) =~= bytes@);
        (None, bytes)
    } else {
        match parse_hash_from_bytes(bytes) {
            Ok(hash) => {
                let body = vstd::slice::slice_subrange(bytes, 32, bytes.len());
                assert(body@ =~= bytes@.skip(32));
                (Some(hash), body)
            },
            Err(e) => {
                return Err(e);
            },
        }
    };
    let kind = match stored_node_id_from_bytes(body) {
        Ok(kind) => kind,
        Err(e) => {
            return Err(e);
        },
    };
    if kind == TrieNodeID::Patch {
        return Ok(None);
    }
    Ok(Some(ReadTrieNode::from_stable_bytes(BorrowedNodeBytes::new(kind, body), hash)))
}

/// The kind and the hash of the leaf whose body stands at the head of `s`.
pub open spec fn leaf_type_of(form: SquashedForm, s: Seq<u8>) -> Option<(TrieNodeID, Seq<u8>)> {
    match (stored_kind(s), leaf_hash_of(form, s)) {
        (Some(kind), Some(h)) => Some((kind, h)),
        _ => None,
    }
}

/// Read the kind and the hash of the node that `ptr` points to in the trie at `trie_offset`.
/// Leaves that are stored without their hashes are hashed anew.
pub fn read_node_type_id<
    R: Fn(usize, u64) -> Result<Vec<u8>, Error>,
    D: Fn(&[u8]) -> Option<(TrieLeafSquashed, usize)>,
>(
    map: Option<&[u8]>,
    read_at: &R,
    trie_offset: u64,
    ptr: &TriePtr,
    leaf_hashes_omitted: bool,
    squashed: &SquashedCodec<D>,
) -> (r: Result<(TrieNodeID, TrieHash), Error>)
    requires
        forall|n: usize, offset: u64| read_at.requires((n, offset)),
        squashed.ready(),
        trie_offset + ptr.ptr <= u64::MAX,
    ensures
        ({
            let at = (trie_offset + ptr.ptr) as u64;
            let hash_free = leaf_hashes_omitted && is_leaf_type(ptr.id);
            let mapped = mapped_at(map, at as int);
            &&& hash_free && mapped is None && !size_known(ptr.id) ==> (r matches Err(e) && (
            e is CorruptionError || read_failed(*read_at, at, e)))
            &&& hash_free && (mapped is Some || size_known(ptr.id)) ==> forall|
                form: SquashedForm,
            | #[trigger]
                decodes_by(*squashed, form) ==> told_by(
                    mapped,
                    *read_at,
                    at,
                    |s: Seq<u8>| leaf_type_of(form, s),
                    type_result(r),
                )
            &&& !hash_free ==> told_by(mapped, *read_at, at, |s: Seq<u8>| type_of(s), type_result(r))
        }),
{
    let file_offset = trie_offset + ptr.ptr() as u64;
    let mapped = mmap_slice_at(map, file_offset);
    assert(slice_view(mapped) == mapped_at(map, file_offset as int));
    if !(leaf_hashes_omitted && is_leaf_type(ptr.id())) {
        return read_node_type_at(mapped, read_at, file_offset);
    }
    let kind = match mapped {
        Some(bytes) => match stored_node_id_from_bytes(bytes) {
            Ok(kind) => kind,
            Err(e) => {
                return Err(e);
            },
        },
        None => match read_at(1, file_offset) {
            Ok(bytes) => {
                assert forall|data: Seq<u8>| #[trigger]
                    reads_from(*read_at, file_offset, data) implies stored_kind(bytes@) == stored_kind(
                    data,
                ) by {
                    assert(bytes@ == at_most(data, 1));
                }
                match stored_node_id_from_bytes(bytes.as_slice()) {
                    Ok(kind) => kind,
                    Err(e) => {
                        return Err(e);
                    },
                }
            },
            Err(e) => {
                return Err(e);
            },
        },
    };
    match recompute_leaf_hash_at(mapped, read_at, file_offset, ptr.id(), squashed) {
        Ok(hash) => Ok((kind, hash)),
        Err(e) => Err(e),
    }
}

} // verus!
