//! Extending the forest by a block: its trie starts as a copy of its parent's root, and nodes of
//! earlier tries are copied forward as a key's path is followed.

use crate::consensus::{consensus_bytes, get_leaf_hash, get_node_hash, hashes_flat, BlockHashes};
use crate::cursor::{step, CursorModel, ReadTrieNodeCursorStep, TrieCursor, TrieCursorNode};
use crate::error::{corruption, CursorError, Error};
use crate::hash::{sha512_256, TrieHash};
use crate::history_blob::ChunkRef;
use crate::marf_heights::push_hex;
use crate::marf_walk::{hints_leaf, StoredNode, TrieLeafSquashed};
use crate::model::NodeModel;
use crate::node::{
    copied_ptr, copied_ptrs, empty_node, node_copy_update_ptrs, TrieCowPtr, TrieNode256,
    TrieNodeType,
};
use crate::node_id::{
    clear_backptr, clear_ctrl_bits, is_backptr, law_ctrl_bits, set_backptr, TrieNodeID,
};
use crate::ptr::TriePtr;
use crate::read::{decode_nodetype_from_slice_at_head, parse_any};
use crate::text::push_number;
use crate::value::{same_id, MARFValue, MarfTrieId, TrieLeaf};
use vstd::prelude::*;

verus! {

/// A node as it stands in a later block: what it points to is behind back-pointers.
pub open spec fn copied_node(m: NodeModel, block_id: u32) -> NodeModel {
    if m.kind is Leaf {
        m
    } else {
        NodeModel { ptrs: copied_ptrs(m.ptrs, block_id), ..m }
    }
}

/// The hash with which a copied node is stored: that of a leaf, or none yet.
pub open spec fn copied_hash(m: NodeModel) -> Seq<u8> {
    if m.kind is Leaf {
        sha512_256(m.bytes())
    } else {
        Seq::new(32, |i: int| 0u8)
    }
}

/// Turn a node of the block with number `child_block_id` into its copy in a later block. Returns
/// the hash to store with it.
pub fn node_copy_update(node: &mut TrieNodeType, child_block_id: u32) -> (hash: TrieHash)
    ensures
        final(node).model() == copied_node(old(node).model(), child_block_id),
        leads_back(final(node).model(), old(node).model(), child_block_id),
        final(node).meta() == old(node).meta(),
        hash@ == copied_hash(old(node).model()),
{
    let ghost was = node.model();
    node.shape();
    let hash = match node {
        TrieNodeType::Leaf(leaf) => get_leaf_hash(leaf),
        _ => {
            let ptrs = node.ptrs_mut();
            node_copy_update_ptrs(ptrs, child_block_id);
            TrieHash::empty()
        },
    };
    proof {
        lemma_leads_back(was, child_block_id);
    }
    hash
}

proof fn lemma_leads_back(m: NodeModel, id: u32)
    requires
        m.shaped(),
    ensures
        leads_back(copied_node(m, id), m, id),
{
    let c = copied_node(m, id);
    assert forall|i: int| 0 <= i < m.ptrs.len() implies {
        let p = m.ptrs[i];
        let q = #[trigger] c.ptrs[i];
        if p.id == 0 || is_backptr(p.id) {
            q == p
        } else {
            is_backptr(q.id) && clear_backptr(q.id) == p.id && q.chr == p.chr && q.ptr == p.ptr
                && q.back_block == id
        }
    } by {
        law_ctrl_bits(m.ptrs[i].id);
        assert(c.ptrs[i] == copied_ptr(m.ptrs[i], id));
    }
}

/// Is `copy`, in a later block, the node `was` of the block with number `id`: the same but for the
/// slots, of which each occupied one points back to where the slot of `was` points?
pub open spec fn leads_back(copy: NodeModel, was: NodeModel, id: u32) -> bool {
    &&& copy.kind == was.kind
    &&& copy.path == was.path
    &&& copy.indexes == was.indexes
    &&& copy.data == was.data
    &&& copy.ptrs.len() == was.ptrs.len()
    &&& forall|i: int|
        0 <= i < was.ptrs.len() ==> {
            let p = was.ptrs[i];
            let q = #[trigger] copy.ptrs[i];
            if p.id == 0 || is_backptr(p.id) {
                q == p
            } else {
                is_backptr(q.id) && clear_backptr(q.id) == p.id && q.chr == p.chr && q.ptr == p.ptr
                    && q.back_block == id
            }
        }
}

/// What a forest holds, as far as copying goes.
#[verifier::reject_recursive_types(T)]
pub struct CowStore<T> {
    /// The node in a block's trie that a pointer leads to.
    pub node: spec_fn(T, TriePtr) -> StoredNode,
    /// The block with a number, and the number of a block.
    pub block: spec_fn(u32) -> T,
    pub id: spec_fn(T) -> u32,
    /// The height of a block within a squashed range.
    pub height: spec_fn(T) -> Option<u32>,
    /// The value of a key of a squashed range at a height.
    pub history: spec_fn(T, ChunkRef, u32) -> Option<MARFValue>,
    /// Where the new trie has room, after so many nodes were copied into it.
    pub last_ptr: spec_fn(nat) -> u32,
}

/// Do the lookups answer from this forest?
pub open spec fn cow_answers<
    T: MarfTrieId,
    N: Fn(&T, &TriePtr) -> Result<StoredNode, Error>,
    B: Fn(u32) -> Result<T, Error>,
    I: Fn(&T) -> Result<u32, Error>,
    H: Fn(&T) -> Option<u32>,
    V: Fn(&T, &ChunkRef, u32) -> Result<Option<MARFValue>, Error>,
    P: Fn(usize) -> Result<u32, Error>,
>(
    read_node: N,
    block_of: B,
    id_of: I,
    height_of: H,
    value_at_height: V,
    last_ptr: P,
    st: CowStore<T>,
) -> bool {
    &&& forall|block: T, ptr: TriePtr, n: StoredNode| #[trigger]
        read_node.ensures((&block, &ptr), Ok(n)) ==> (st.node)(block, ptr) == n
    &&& forall|id: u32, block: T| #[trigger]
        block_of.ensures((id,), Ok(block)) ==> (st.block)(id) == block
    &&& forall|block: T, id: u32| #[trigger]
        id_of.ensures((&block,), Ok(id)) ==> (st.id)(block) == id
    &&& forall|block: T, h: Option<u32>| #[trigger]
        height_of.ensures((&block,), h) ==> (st.height)(block) == h
    &&& forall|block: T, chunk: ChunkRef, h: u32, v: Option<MARFValue>| #[trigger]
        value_at_height.ensures((&block, &chunk, h), Ok(v)) ==> (st.history)(block, chunk, h) == v
    &&& forall|k: usize, p: u32| #[trigger]
        last_ptr.ensures((k,), Ok(p)) ==> (st.last_ptr)(k as nat) == p
}

/// Can a lookup that is made for the copy of what the back-pointer `p` leads to, as the `k`-th,
/// have failed with `e`?
pub open spec fn copy_failed<
    T: MarfTrieId,
    N: Fn(&T, &TriePtr) -> Result<StoredNode, Error>,
    B: Fn(u32) -> Result<T, Error>,
    I: Fn(&T) -> Result<u32, Error>,
    V: Fn(&T, &ChunkRef, u32) -> Result<Option<MARFValue>, Error>,
    P: Fn(usize) -> Result<u32, Error>,
>(
    read_node: N,
    block_of: B,
    id_of: I,
    value_at_height: V,
    last_ptr: P,
    st: CowStore<T>,
    p: TriePtr,
    k: nat,
    e: Error,
) -> bool {
    let from = (st.block)(p.back_block);
    let there = p.spec_from_backptr();
    ||| block_of.ensures((p.back_block,), Err(e))
    ||| read_node.ensures((&from, &there), Err(e))
    ||| (st.node)(from, there) matches StoredNode::Squashed(leaf) && leaf.has_history && ((
    st.height)(from) matches Some(h) && value_at_height.ensures((&from, &leaf.chunk, h), Err(e)))
    ||| id_of.ensures((&from,), Err(e))
    ||| last_ptr.ensures((k as usize,), Err(e))
}

/// Can a lookup have failed with `e` on the copying walk from `node` on, after `k` copies?
pub open spec fn cow_failed_on_way<
    T: MarfTrieId,
    N: Fn(&T, &TriePtr) -> Result<StoredNode, Error>,
    B: Fn(u32) -> Result<T, Error>,
    I: Fn(&T) -> Result<u32, Error>,
    V: Fn(&T, &ChunkRef, u32) -> Result<Option<MARFValue>, Error>,
    P: Fn(usize) -> Result<u32, Error>,
>(
    read_node: N,
    block_of: B,
    id_of: I,
    value_at_height: V,
    last_ptr: P,
    st: CowStore<T>,
    path: Seq<u8>,
    index: int,
    block: T,
    node: NodeModel,
    k: nat,
    fuel: nat,
    e: Error,
) -> bool
    decreases fuel,
{
    fuel > 0 && {
        let s = step(path, index, node.path, |c: u8| node.child(c));
        match s.outcome {
            Ok(Some(p)) => {
                ||| read_node.ensures((&block, &p), Err(e))
                ||| cow_failed_on_way(
                    read_node,
                    block_of,
                    id_of,
                    value_at_height,
                    last_ptr,
                    st,
                    path,
                    s.index,
                    block,
                    walked((st.node)(block, p)),
                    k,
                    (fuel - 1) as nat,
                    e,
                )
            },
            Err(CursorError::BackptrEncountered(p)) => {
                ||| copy_failed(
                    read_node,
                    block_of,
                    id_of,
                    value_at_height,
                    last_ptr,
                    st,
                    p,
                    k,
                    e,
                )
                ||| copy_of(st, p, k) matches Some(c) && cow_failed_on_way(
                    read_node,
                    block_of,
                    id_of,
                    value_at_height,
                    last_ptr,
                    st,
                    path,
                    s.index,
                    block,
                    c.node,
                    k + 1,
                    (fuel - 1) as nat,
                    e,
                )
            },
            _ => false,
        }
    }
}

/// Can a lookup have failed with `e` on the copying walk down the new trie of `block` along
/// `path`?
pub open spec fn cow_walk_failed<
    T: MarfTrieId,
    N: Fn(&T, &TriePtr) -> Result<StoredNode, Error>,
    B: Fn(u32) -> Result<T, Error>,
    I: Fn(&T) -> Result<u32, Error>,
    V: Fn(&T, &ChunkRef, u32) -> Result<Option<MARFValue>, Error>,
    P: Fn(usize) -> Result<u32, Error>,
>(
    read_node: N,
    block_of: B,
    id_of: I,
    value_at_height: V,
    last_ptr: P,
    st: CowStore<T>,
    path: Seq<u8>,
    block: T,
    root_ptr: TriePtr,
    e: Error,
) -> bool {
    ||| read_node.ensures((&block, &root_ptr), Err(e))
    ||| cow_failed_on_way(
        read_node,
        block_of,
        id_of,
        value_at_height,
        last_ptr,
        st,
        path,
        0,
        block,
        walked((st.node)(block, root_ptr)),
        0,
        33,
        e,
    )
}

/// Can the lookups be called with anything?
pub open spec fn cow_callable<
    T: MarfTrieId,
    N: Fn(&T, &TriePtr) -> Result<StoredNode, Error>,
    B: Fn(u32) -> Result<T, Error>,
    I: Fn(&T) -> Result<u32, Error>,
    H: Fn(&T) -> Option<u32>,
    V: Fn(&T, &ChunkRef, u32) -> Result<Option<MARFValue>, Error>,
    P: Fn(usize) -> Result<u32, Error>,
>(read_node: N, block_of: B, id_of: I, height_of: H, value_at_height: V, last_ptr: P) -> bool {
    &&& forall|block: T, ptr: TriePtr| read_node.requires((&block, &ptr))
    &&& forall|id: u32| block_of.requires((id,))
    &&& forall|block: T| id_of.requires((&block,))
    &&& forall|block: T| height_of.requires((&block,))
    &&& forall|block: T, chunk: ChunkRef, h: u32| value_at_height.requires((&block, &chunk, h))
    &&& forall|k: usize| last_ptr.requires((k,))
}

/// A plain leaf.
pub open spec fn leaf_model(path: Seq<u8>, value: MARFValue) -> NodeModel {
    NodeModel {
        kind: TrieNodeID::Leaf,
        path,
        ptrs: Seq::empty(),
        indexes: Seq::empty(),
        data: value@,
    }
}

/// A stored node as it is copied into a new trie. A leaf of a squashed range becomes a plain leaf:
/// in a block of the range with the value at its height, which must be there, and else with the
/// value at the end of the range. `None` where the value is not there.
pub open spec fn flattened<T>(st: CowStore<T>, block: T, node: StoredNode) -> Option<NodeModel> {
    match node {
        StoredNode::Node(n) => Some(n.model()),
        StoredNode::Squashed(leaf) => match (st.height)(block) {
            None => Some(leaf_model(leaf.path@, leaf.chunk.tip_value)),
            Some(h) => if !leaf.has_history {
                None
            } else {
                match (st.history)(block, leaf.chunk, h) {
                    Some(v) => Some(leaf_model(leaf.path@, v)),
                    None => None,
                }
            },
        },
    }
}

/// The plain leaf that a leaf of a squashed range is copied as, for the block it was read in.
pub fn flatten_squashed<T: MarfTrieId, V: Fn(&T, &ChunkRef, u32) -> Result<Option<MARFValue>, Error>>(
    leaf: &TrieLeafSquashed,
    block: &T,
    height: Option<u32>,
    value_at_height: &V,
) -> (r: Result<TrieLeaf, Error>)
    requires
        forall|block: T, chunk: ChunkRef, h: u32| value_at_height.requires((&block, &chunk, h)),
    ensures
        match height {
            None => r == Ok::<TrieLeaf, Error>(
                TrieLeaf { path: leaf.path, data: leaf.chunk.tip_value },
            ),
            Some(h) => if !leaf.has_history {
                r matches Err(e) && e is CorruptionError
            } else {
                match r {
                    Ok(l) => l.path == leaf.path && value_at_height.ensures(
                        (block, &leaf.chunk, h),
                        Ok(Some(l.data)),
                    ),
                    Err(e) => value_at_height.ensures((block, &leaf.chunk, h), Err(e)) || (
                    e is CorruptionError && value_at_height.ensures(
                        (block, &leaf.chunk, h),
                        Ok(None),
                    )),
                }
            },
        },
{
    match height {
        None => Ok(TrieLeaf { path: leaf.path, data: leaf.chunk.tip_value }),
        Some(h) => {
            if !leaf.has_history {
                let mut m = "LeafSquashed COW copy at squash_opened_height=".to_owned();
                push_number(&mut m, h as u64, 10, 0);
                m.append(" but leaf has no has_history flag set (path ");
                push_hex(&mut m, leaf.path.as_slice());
                m.append(")");
                return Err(Error::CorruptionError(m));
            }
            match value_at_height(block, &leaf.chunk, h) {
                Ok(Some(v)) => Ok(TrieLeaf { path: leaf.path, data: v }),
                Ok(None) => {
                    let mut m =
                        "LeafSquashed COW copy could not resolve value at opened squash height ".to_owned();
                    push_number(&mut m, h as u64, 10, 0);
                    m.append(" for path ");
                    push_hex(&mut m, leaf.path.as_slice());
                    m.append(" (chunk has no entry at or below this height)");
                    Err(Error::CorruptionError(m))
                },
                Err(e) => Err(e),
            }
        },
    }
}

/// A node that was copied into the new trie.
#[derive(Debug)]
pub struct CowWrite<T: MarfTrieId> {
    /// Where it goes.
    pub at: u32,
    pub node: TrieNodeType,
    pub hash: TrieHash,
    /// The block it was copied from.
    pub from: T,
}

/// A node that is copied into the new trie.
#[verifier::ext_equal]
#[verifier::reject_recursive_types(T)]
pub struct CopyModel<T> {
    pub at: u32,
    pub node: NodeModel,
    pub hash: Seq<u8>,
    pub from: T,
    /// The pointer it was copied for.
    pub source: TriePtr,
    /// The node as it was.
    pub was: NodeModel,
}

/// The copy of what the back-pointer `p` leads to, as the `k`-th that goes into the new trie.
pub open spec fn copy_of<T>(st: CowStore<T>, p: TriePtr, k: nat) -> Option<CopyModel<T>> {
    let from = (st.block)(p.back_block);
    match flattened(st, from, (st.node)(from, p.spec_from_backptr())) {
        None => None,
        Some(m) => Some(
            CopyModel {
                at: (st.last_ptr)(k),
                node: copied_node(m, (st.id)(from)),
                hash: copied_hash(m),
                from,
                source: p,
                was: m,
            },
        ),
    }
}

/// The pointer to a copy within the new trie.
pub open spec fn ptr_to_copy(p: TriePtr, at: u32) -> TriePtr {
    TriePtr { id: clear_backptr(p.id), chr: p.chr, ptr: at, back_block: 0 }
}

/// Is `w` this copy?
pub open spec fn is_copy<T: MarfTrieId>(w: CowWrite<T>, c: CopyModel<T>) -> bool {
    &&& w.at == c.at
    &&& w.node.model() == c.node
    &&& w.hash@ == c.hash
    &&& w.from == c.from
    &&& !(c.node.kind is Leaf) ==> (w.node.meta().cowptr matches Some(cow) && cow.spec_block()
        == c.from.id_bytes() && cow.spec_ptr() == c.source)
}

/// Was this written as the copy of a node with slots that was read where a back-pointer leads, so
/// that each of its slots leads back to where that node's slot leads?
pub open spec fn written_from<
    T: MarfTrieId,
    N: Fn(&T, &TriePtr) -> Result<StoredNode, Error>,
    B: Fn(u32) -> Result<T, Error>,
    I: Fn(&T) -> Result<u32, Error>,
>(read_node: N, block_of: B, id_of: I, w: CowWrite<T>, p: TriePtr) -> bool {
    &&& block_of.ensures((p.back_block,), Ok(w.from))
    &&& w.node.meta().cowptr matches Some(cow) && cow.spec_block() == w.from.id_bytes()
        && cow.spec_ptr() == p
    &&& exists|n: TrieNodeType, id: u32|
        {
            &&& #[trigger] id_of.ensures((&w.from,), Ok(id))
            &&& #[trigger] read_node.ensures(
                (&w.from, &p.spec_from_backptr()),
                Ok(StoredNode::Node(n)),
            )
            &&& leads_back(w.node.model(), n.model(), id)
        }
}

/// Copy the node that a back-pointer leads to forward into the new trie. Returns the copy, the
/// node as it was, and the pointer to the copy.
pub fn node_child_copy<
    T: MarfTrieId,
    N: Fn(&T, &TriePtr) -> Result<StoredNode, Error>,
    B: Fn(u32) -> Result<T, Error>,
    I: Fn(&T) -> Result<u32, Error>,
    H: Fn(&T) -> Option<u32>,
    V: Fn(&T, &ChunkRef, u32) -> Result<Option<MARFValue>, Error>,
    P: Fn(usize) -> Result<u32, Error>,
>(
    child_backptr: &TriePtr,
    copies: usize,
    read_node: &N,
    block_of: &B,
    id_of: &I,
    height_of: &H,
    value_at_height: &V,
    last_ptr: &P,
) -> (r: Result<(CowWrite<T>, TrieNodeType, TriePtr), Error>)
    requires
        cow_callable(*read_node, *block_of, *id_of, *height_of, *value_at_height, *last_ptr),
    ensures
        forall|st: CowStore<T>| #[trigger]
            cow_answers(
                *read_node,
                *block_of,
                *id_of,
                *height_of,
                *value_at_height,
                *last_ptr,
                st,
            ) ==> match r {
                Ok((write, was, ptr)) => copy_of(st, *child_backptr, copies as nat) matches Some(c)
                    && is_copy(write, c) && was.model() == c.was && ptr == ptr_to_copy(
                    *child_backptr,
                    c.at,
                ),
                Err(e) => copy_failed(
                    *read_node,
                    *block_of,
                    *id_of,
                    *value_at_height,
                    *last_ptr,
                    st,
                    *child_backptr,
                    copies as nat,
                    e,
                ) || (e is CorruptionError && copy_of(st, *child_backptr, copies as nat) is None),
            },
        r matches Ok((write, was, ptr)) ==> !is_backptr(ptr.id) && ptr.ptr == write.at && ptr.chr
            == child_backptr.chr,
        r matches Ok((write, was, ptr)) ==> write.node.model().kind is Leaf || written_from(
            *read_node,
            *block_of,
            *id_of,
            write,
            *child_backptr,
        ),
{
    let from = match block_of(child_backptr.back_block()) {
        Ok(b) => b,
        Err(e) => {
            return Err(e);
        },
    };
    let there = child_backptr.from_backptr();
    let stored = match read_node(&from, &there) {
        Ok(n) => n,
        Err(e) => {
            return Err(e);
        },
    };
    let was: TrieNodeType = match stored {
        StoredNode::Node(n) => n,
        StoredNode::Squashed(leaf) => {
            let height = height_of(&from);
            match flatten_squashed(&leaf, &from, height, value_at_height) {
                Ok(l) => TrieNodeType::Leaf(l),
                Err(e) => {
                    return Err(e);
                },
            }
        },
    };
    let id = match id_of(&from) {
        Ok(id) => id,
        Err(e) => {
            return Err(e);
        },
    };
    let mut node = was.clone();
    node.set_cow_ptr(TrieCowPtr::new(from, *child_backptr));
    let hash = node_copy_update(&mut node, id);
    let at = match last_ptr(copies) {
        Ok(p) => p,
        Err(e) => {
            return Err(e);
        },
    };
    let ptr = TriePtr::new(there.id(), child_backptr.chr(), at);
    let write = CowWrite { at, node, hash, from };
    proof {
        if !(was.model().kind is Leaf) {
            assert(id_of.ensures((&write.from,), Ok(id)));
            assert(read_node.ensures((&write.from, &there), Ok(StoredNode::Node(was))));
        }
    }
    Ok((write, was, ptr))
}

/// Where a copying walk ends.
#[verifier::ext_equal]
#[verifier::reject_recursive_types(T)]
pub struct CowModel<T> {
    /// What it copied, in order.
    pub copies: Seq<CopyModel<T>>,
    /// How much of the path it followed.
    pub index: int,
    /// Why it ended: nothing where it reached a leaf at the end of the path.
    pub error: Option<CursorError>,
    /// What it passed.
    pub trail: TrailModel<T>,
}

/// What a walk has passed: the pointers it followed, from the root's on, the block of each but the
/// first, and the nodes.
#[verifier::ext_equal]
#[verifier::reject_recursive_types(T)]
pub struct TrailModel<T> {
    pub ptrs: Seq<TriePtr>,
    pub blocks: Seq<T>,
    pub nodes: Seq<Option<NodeModel>>,
}

impl<T> TrailModel<T> {
    /// After looking at a node.
    pub open spec fn seen(self, node: NodeModel) -> TrailModel<T> {
        TrailModel { nodes: self.nodes.push(Some(node)), ..self }
    }

    /// After following a pointer within the trie of `block`.
    pub open spec fn followed(self, p: TriePtr, block: T) -> TrailModel<T> {
        TrailModel { ptrs: self.ptrs.push(p), blocks: self.blocks.push(block), ..self }
    }

    /// After following the back-pointer `p` to a node, and then the pointer to its copy.
    pub open spec fn copied(self, p: TriePtr, c: CopyModel<T>) -> TrailModel<T> {
        let there = p.spec_from_backptr();
        let back = TriePtr {
            id: set_backptr(there.id),
            chr: there.chr,
            ptr: there.ptr,
            back_block: 0,
        };
        self.followed(back, c.from).seen(c.was).followed(ptr_to_copy(p, c.at), c.from)
    }
}

/// What a cursor has passed. Of a node that it does not hold, nothing is told.
pub open spec fn trail_of<T: MarfTrieId>(c: CursorModel<T>) -> TrailModel<T> {
    TrailModel {
        ptrs: c.node_ptrs,
        blocks: c.block_hashes,
        nodes: Seq::new(
            c.nodes.len(),
            |i: int|
                match c.nodes[i] {
                    TrieCursorNode::Materialized(n) => Some(n.model()),
                    TrieCursorNode::Handle(_) => None,
                },
        ),
    }
}

/// A stored node as it is walked through.
pub open spec fn walked(node: StoredNode) -> NodeModel {
    match node {
        StoredNode::Node(n) => n.model(),
        StoredNode::Squashed(leaf) => leaf_model(leaf.path@, leaf.chunk.tip_value),
    }
}

/// The copying walk from `node` of the new block on, for the bytes of `path` from `index` on, after
/// the walk passed `trail` and made `copies`, and in at most `fuel` nodes.
pub open spec fn cow_descend<T>(
    st: CowStore<T>,
    path: Seq<u8>,
    index: int,
    block: T,
    node: NodeModel,
    trail: TrailModel<T>,
    copies: Seq<CopyModel<T>>,
    fuel: nat,
) -> Option<CowModel<T>>
    decreases fuel,
{
    if fuel == 0 {
        None
    } else {
        let s = step(path, index, node.path, |c: u8| node.child(c));
        let seen = trail.seen(node);
        match s.outcome {
            Ok(Some(p)) => cow_descend(
                st,
                path,
                s.index,
                block,
                walked((st.node)(block, p)),
                seen.followed(p, block),
                copies,
                (fuel - 1) as nat,
            ),
            Ok(None) => if node.kind is Leaf && hints_leaf(trail.ptrs.last()) {
                Some(CowModel { copies, index: s.index, error: None, trail: seen })
            } else {
                None
            },
            Err(CursorError::BackptrEncountered(p)) => match copy_of(st, p, copies.len()) {
                None => None,
                Some(c) => cow_descend(
                    st,
                    path,
                    s.index,
                    block,
                    c.node,
                    seen.copied(p, c),
                    copies.push(c),
                    (fuel - 1) as nat,
                ),
            },
            Err(e) => Some(CowModel { copies, index: s.index, error: Some(e), trail: seen }),
        }
    }
}

/// The copying walk down the new trie of `block` along `path`.
pub open spec fn cow_walk<T>(st: CowStore<T>, path: Seq<u8>, block: T, root_ptr: TriePtr) -> Option<
    CowModel<T>,
> {
    cow_descend(
        st,
        path,
        0,
        block,
        walked((st.node)(block, root_ptr)),
        TrailModel { ptrs: seq![root_ptr], blocks: Seq::empty(), nodes: Seq::empty() },
        Seq::empty(),
        33,
    )
}

/// Are these the copies?
pub open spec fn are_copies<T: MarfTrieId>(
    writes: Seq<CowWrite<T>>,
    copies: Seq<CopyModel<T>>,
) -> bool {
    &&& writes.len() == copies.len()
    &&& forall|i: int| 0 <= i < writes.len() ==> is_copy(#[trigger] writes[i], copies[i])
}

fn as_walked(stored: StoredNode) -> (r: TrieNodeType)
    ensures
        r.model() == walked(stored),
{
    match stored {
        StoredNode::Node(n) => n,
        StoredNode::Squashed(leaf) => TrieNodeType::Leaf(
            TrieLeaf { path: leaf.path, data: leaf.chunk.tip_value },
        ),
    }
}

/// Walk down the new trie of `block` along `path`, copying the nodes of earlier tries forward on
/// the way. Returns the cursor, and what is to be written into the new trie, in order.
///
/// The new trie must have its root. Where the path ends, it must end at a leaf. The cursor has one
/// block for each pointer but the first.
pub fn walk_cow<
    T: MarfTrieId,
    N: Fn(&T, &TriePtr) -> Result<StoredNode, Error>,
    B: Fn(u32) -> Result<T, Error>,
    I: Fn(&T) -> Result<u32, Error>,
    H: Fn(&T) -> Option<u32>,
    V: Fn(&T, &ChunkRef, u32) -> Result<Option<MARFValue>, Error>,
    P: Fn(usize) -> Result<u32, Error>,
>(
    block: &T,
    root_ptr: &TriePtr,
    path: &TrieHash,
    read_node: &N,
    block_of: &B,
    id_of: &I,
    height_of: &H,
    value_at_height: &V,
    last_ptr: &P,
) -> (r: Result<(TrieCursor<T>, Vec<CowWrite<T>>), Error>)
    requires
        cow_callable(*read_node, *block_of, *id_of, *height_of, *value_at_height, *last_ptr),
    ensures
        r matches Ok((cursor, writes)) ==> cursor@.path == path@ && cursor@.block_hashes.len() + 1
            == cursor@.node_ptrs.len(),
        r matches Ok((cursor, writes)) ==> forall|i: int|
            0 <= i < writes@.len() && !((#[trigger] writes@[i]).node.model().kind is Leaf)
                ==> exists|p: TriePtr|
                is_backptr(p.id) && #[trigger] written_from(
                    *read_node,
                    *block_of,
                    *id_of,
                    writes@[i],
                    p,
                ),
        forall|st: CowStore<T>| #[trigger]
            cow_answers(
                *read_node,
                *block_of,
                *id_of,
                *height_of,
                *value_at_height,
                *last_ptr,
                st,
            ) ==> {
                let end = cow_walk(st, path@, *block, *root_ptr);
                match r {
                    Ok((cursor, writes)) => {
                        &&& end matches Some(m)
                        &&& are_copies(writes@, m.copies)
                        &&& cursor@.index == m.index
                        &&& cursor@.last_error == m.error
                        &&& trail_of(cursor@) == m.trail
                    },
                    Err(e) => cow_walk_failed(
                        *read_node,
                        *block_of,
                        *id_of,
                        *value_at_height,
                        *last_ptr,
                        st,
                        path@,
                        *block,
                        *root_ptr,
                        e,
                    ) || (e is CorruptionError && end is None),
                }
            },
{
    let mut cursor: TrieCursor<T> = TrieCursor::new(path, *root_ptr);
    let mut writes: Vec<CowWrite<T>> = Vec::new();
    let mut node_ptr: TriePtr = *root_ptr;
    let mut node: TrieNodeType = match read_node(block, root_ptr) {
        Ok(n) => as_walked(n),
        Err(e) => {
            assert(read_node.ensures((block, root_ptr), Err(e)));
            return Err(e);
        },
    };
    let mut steps: usize = 0;
    proof {
        assert(trail_of(cursor@) =~= (TrailModel {
            ptrs: seq![*root_ptr],
            blocks: Seq::empty(),
            nodes: Seq::empty(),
        }));
        assert forall|st: CowStore<T>| #[trigger]
            cow_answers(
                *read_node,
                *block_of,
                *id_of,
                *height_of,
                *value_at_height,
                *last_ptr,
                st,
            ) implies same_walk(
            st,
            path@,
            *block,
            *root_ptr,
            0,
            node.model(),
            trail_of(cursor@),
            writes@,
            33,
        ) by {
            let none = Seq::<CopyModel<T>>::empty();
            assert(are_copies(writes@, none));
            assert(walk_from(
                st,
                path@,
                *block,
                *root_ptr,
                0,
                node.model(),
                trail_of(cursor@),
                none,
                33,
            ));
        }
    }
    while steps < 33
        invariant
            cow_callable(*read_node, *block_of, *id_of, *height_of, *value_at_height, *last_ptr),
            steps <= 33,
            writes@.len() <= steps,
            path@.len() == 32,
            cursor@.ready(),
            cursor@.path == path@,
            cursor@.node_ptrs.last() == node_ptr,
            cursor@.block_hashes.len() + 1 == cursor@.node_ptrs.len(),
            forall|i: int|
                0 <= i < writes@.len() && !((#[trigger] writes@[i]).node.model().kind is Leaf)
                    ==> exists|p: TriePtr|
                    is_backptr(p.id) && #[trigger] written_from(
                        *read_node,
                        *block_of,
                        *id_of,
                        writes@[i],
                        p,
                    ),
            forall|st: CowStore<T>| #[trigger]
                cow_answers(
                    *read_node,
                    *block_of,
                    *id_of,
                    *height_of,
                    *value_at_height,
                    *last_ptr,
                    st,
                ) ==> same_walk(
                    st,
                    path@,
                    *block,
                    *root_ptr,
                    cursor@.index,
                    node.model(),
                    trail_of(cursor@),
                    writes@,
                    (33 - steps) as nat,
                ),
            forall|st: CowStore<T>, e: Error|
                cow_answers(
                    *read_node,
                    *block_of,
                    *id_of,
                    *height_of,
                    *value_at_height,
                    *last_ptr,
                    st,
                ) && #[trigger] cow_failed_on_way(
                    *read_node,
                    *block_of,
                    *id_of,
                    *value_at_height,
                    *last_ptr,
                    st,
                    path@,
                    cursor@.index,
                    *block,
                    node.model(),
                    writes@.len() as nat,
                    (33 - steps) as nat,
                    e,
                ) ==> cow_walk_failed(
                    *read_node,
                    *block_of,
                    *id_of,
                    *value_at_height,
                    *last_ptr,
                    st,
                    path@,
                    *block,
                    *root_ptr,
                    e,
                ),
        decreases 33 - steps,
    {
        let ghost index = cursor@.index;
        let ghost m = node.model();
        let ghost s = step(path@, index, m.path, |c: u8| m.child(c));
        let ghost fuel = (33 - steps) as nat;
        let ghost had = writes@;
        let ghost trail = trail_of(cursor@);
        proof {
            crate::cursor::law_step_advances(path@, index, m.path, |c: u8| m.child(c));
        }
        let action = cursor.walk_step(&node, block);
        proof {
            let seen = trail_of(cursor@).nodes;
            assert(seen =~= trail.seen(m).nodes);
        }
        match action {
            ReadTrieNodeCursorStep::Next(next) => {
                assert(trail_of(cursor@) =~= trail.seen(m).followed(next, *block));
                node = match read_node(block, &next) {
                    Ok(n) => as_walked(n),
                    Err(e) => {
                        assert(read_node.ensures((block, &next), Err(e)));
                        assert forall|st: CowStore<T>| #[trigger]
                            cow_answers(
                                *read_node,
                                *block_of,
                                *id_of,
                                *height_of,
                                *value_at_height,
                                *last_ptr,
                                st,
                            ) implies cow_failed_on_way(
                            *read_node,
                            *block_of,
                            *id_of,
                            *value_at_height,
                            *last_ptr,
                            st,
                            path@,
                            index,
                            *block,
                            m,
                            had.len() as nat,
                            fuel,
                            e,
                        ) by {}
                        return Err(e);
                    },
                };
                node_ptr = next;
                proof {
                    assert forall|st: CowStore<T>| #[trigger]
                        cow_answers(
                            *read_node,
                            *block_of,
                            *id_of,
                            *height_of,
                            *value_at_height,
                            *last_ptr,
                            st,
                        ) implies same_walk(
                        st,
                        path@,
                        *block,
                        *root_ptr,
                        cursor@.index,
                        node.model(),
                        trail_of(cursor@),
                        writes@,
                        (fuel - 1) as nat,
                    ) by {
                        let copies = choose|copies: Seq<CopyModel<T>>|
                            are_copies(had, copies) && #[trigger] walk_from(
                                st,
                                path@,
                                *block,
                                *root_ptr,
                                index,
                                m,
                                trail,
                                copies,
                                fuel,
                            );
                        assert(walk_from(
                            st,
                            path@,
                            *block,
                            *root_ptr,
                            cursor@.index,
                            node.model(),
                            trail_of(cursor@),
                            copies,
                            (fuel - 1) as nat,
                        ));
                    }
                }
            },
            ReadTrieNodeCursorStep::EndOfPath { is_leaf } => {
                let hint = clear_backptr(node_ptr.id());
                if !is_leaf || (hint != TrieNodeID::Leaf.to_u8() && hint
                    != TrieNodeID::LeafSquashed.to_u8()) {
                    return Err(corruption("Non-leaf encountered at end of path"));
                }
                assert(trail_of(cursor@) =~= trail.seen(m));
                return Ok((cursor, writes));
            },
            ReadTrieNodeCursorStep::Diverged => {
                assert(trail_of(cursor@) =~= trail.seen(m));
                return Ok((cursor, writes));
            },
            ReadTrieNodeCursorStep::ChrNotFound => {
                assert(trail_of(cursor@) =~= trail.seen(m));
                return Ok((cursor, writes));
            },
            ReadTrieNodeCursorStep::FollowBackptr(ptr) => {
                let (write, was, next) = match node_child_copy(
                    &ptr,
                    writes.len(),
                    read_node,
                    block_of,
                    id_of,
                    height_of,
                    value_at_height,
                    last_ptr,
                ) {
                    Ok(x) => x,
                    Err(e) => {
                        assert forall|st: CowStore<T>|
                            #[trigger] cow_answers(
                                *read_node,
                                *block_of,
                                *id_of,
                                *height_of,
                                *value_at_height,
                                *last_ptr,
                                st,
                            ) && !(e is CorruptionError && copy_of(st, ptr, had.len() as nat) is None)
                            implies cow_failed_on_way(
                                *read_node,
                                *block_of,
                                *id_of,
                                *value_at_height,
                                *last_ptr,
                                st,
                                path@,
                                index,
                                *block,
                                m,
                                had.len() as nat,
                                fuel,
                                e,
                            ) by {}
                        return Err(e);
                    },
                };
                let there = ptr.from_backptr();
                cursor.repair_backptr_step_backptr(&was, &there, write.from);
                cursor.repair_backptr_finish(&next, write.from);
                let ghost now = trail_of(cursor@);
                node = write.node.clone();
                node_ptr = next;
                assert(is_backptr(ptr.id));
                writes.push(write);
                proof {
                    assert forall|i: int|
                        0 <= i < writes@.len() && !((#[trigger] writes@[i]).node.model().kind
                            is Leaf) implies exists|p: TriePtr|
                        is_backptr(p.id) && #[trigger] written_from(
                            *read_node,
                            *block_of,
                            *id_of,
                            writes@[i],
                            p,
                        ) by {
                        if i < had.len() {
                            assert(writes@[i] == had[i]);
                        } else {
                            assert(written_from(*read_node, *block_of, *id_of, writes@[i], ptr));
                        }
                    }
                    assert forall|st: CowStore<T>| #[trigger]
                        cow_answers(
                            *read_node,
                            *block_of,
                            *id_of,
                            *height_of,
                            *value_at_height,
                            *last_ptr,
                            st,
                        ) implies same_walk(
                        st,
                        path@,
                        *block,
                        *root_ptr,
                        cursor@.index,
                        node.model(),
                        trail_of(cursor@),
                        writes@,
                        (fuel - 1) as nat,
                    ) by {
                        let copies = choose|copies: Seq<CopyModel<T>>|
                            are_copies(had, copies) && #[trigger] walk_from(
                                st,
                                path@,
                                *block,
                                *root_ptr,
                                index,
                                m,
                                trail,
                                copies,
                                fuel,
                            );
                        let c = copy_of(st, ptr, copies.len()).unwrap();
                        assert(now.nodes =~= trail.seen(m).copied(ptr, c).nodes);
                        assert(now =~= trail.seen(m).copied(ptr, c));
                        let more = copies.push(c);
                        assert(are_copies(writes@, more)) by {
                            assert forall|i: int| 0 <= i < writes@.len() implies is_copy(
                                #[trigger] writes@[i],
                                more[i],
                            ) by {
                                if i < had.len() {
                                    assert(writes@[i] == had[i]);
                                }
                            }
                        }
                        assert(walk_from(
                            st,
                            path@,
                            *block,
                            *root_ptr,
                            cursor@.index,
                            node.model(),
                            trail_of(cursor@),
                            more,
                            (fuel - 1) as nat,
                        ));
                    }
                }
            },
        }
        steps += 1;
        assert forall|st: CowStore<T>, e: Error|
            cow_answers(
                *read_node,
                *block_of,
                *id_of,
                *height_of,
                *value_at_height,
                *last_ptr,
                st,
            ) && #[trigger] cow_failed_on_way(
                *read_node,
                *block_of,
                *id_of,
                *value_at_height,
                *last_ptr,
                st,
                path@,
                cursor@.index,
                *block,
                node.model(),
                writes@.len() as nat,
                (33 - steps) as nat,
                e,
            ) implies cow_failed_on_way(
            *read_node,
            *block_of,
            *id_of,
            *value_at_height,
            *last_ptr,
            st,
            path@,
            index,
            *block,
            m,
            had.len() as nat,
            fuel,
            e,
        ) by {}
    }
    Err(corruption("Trie has a cycle"))
}

/// Does the walk from the root go on like this?
spec fn walk_from<T>(
    st: CowStore<T>,
    path: Seq<u8>,
    block: T,
    root_ptr: TriePtr,
    index: int,
    node: NodeModel,
    trail: TrailModel<T>,
    copies: Seq<CopyModel<T>>,
    fuel: nat,
) -> bool {
    cow_walk(st, path, block, root_ptr) == cow_descend(
        st,
        path,
        index,
        block,
        node,
        trail,
        copies,
        fuel,
    )
}

/// Does the walk from the root go on like this, with what was written so far?
spec fn same_walk<T: MarfTrieId>(
    st: CowStore<T>,
    path: Seq<u8>,
    block: T,
    root_ptr: TriePtr,
    index: int,
    node: NodeModel,
    trail: TrailModel<T>,
    writes: Seq<CowWrite<T>>,
    fuel: nat,
) -> bool {
    exists|copies: Seq<CopyModel<T>>|
        are_copies(writes, copies) && #[trigger] walk_from(
            st,
            path,
            block,
            root_ptr,
            index,
            node,
            trail,
            copies,
            fuel,
        )
}

// ---------------------------------------------------------------------------------------
// The root
// ---------------------------------------------------------------------------------------
/// The root of the parent of a new block, as it was saved for the parent's height in a squashed
/// range.
pub fn saved_root_node(body: &[u8]) -> (r: Result<TrieNodeType, Error>)
    ensures
        match r {
            Ok(node) => body@.len() > 0 && (parse_any(clear_ctrl_bits(body@[0]), body@) matches Some(
                (m, n),
            ) && m == node.model()),
            Err(e) => e is CorruptionError && (body@.len() == 0 || parse_any(
                clear_ctrl_bits(body@[0]),
                body@,
            ) is None),
        },
{
    if body.len() == 0 {
        return Err(corruption("squash sidecar per-height root body is empty"));
    }
    let node_id = clear_ctrl_bits(body[0]);
    match decode_nodetype_from_slice_at_head(body, node_id) {
        Ok((node, n)) => Ok(node),
        Err(e) => Err(e),
    }
}

/// The pointer to the root of the block with number `id`, as seen from a later block.
pub open spec fn root_backptr(root_ptr: u32, id: u32) -> TriePtr {
    TriePtr {
        id: set_backptr(TrieNodeID::Node256.spec_to_u8()),
        chr: 0,
        ptr: root_ptr,
        back_block: id,
    }
}

/// The root of a new block: a copy of the root of its parent, and the hash to store with it.
///
/// The copy remembers where it is from, unless the parent is no block, or its root was saved for
/// its height (`saved`): such a root cannot be read again where a pointer would lead.
pub fn root_copy<T: MarfTrieId>(
    prev_root: TrieNodeType,
    prev_block_hash: &T,
    prev_block_id: u32,
    root_ptr: u32,
    saved: bool,
) -> (r: (TrieNodeType, TrieHash))
    ensures
        r.0.model() == copied_node(prev_root.model(), prev_block_id),
        leads_back(r.0.model(), prev_root.model(), prev_block_id),
        r.1@ == copied_hash(prev_root.model()),
        prev_block_hash.id_bytes()@ != crate::value::SENTINEL_ARRAY@ && !saved && !(
        prev_root.model().kind is Leaf) ==> (r.0.meta().cowptr matches Some(cow)
            && cow.spec_block() == prev_block_hash.id_bytes() && cow.spec_ptr() == root_backptr(
            root_ptr,
            prev_block_id,
        )),
        prev_block_hash.id_bytes()@ == crate::value::SENTINEL_ARRAY@ || saved ==> r.0.meta()
            == prev_root.meta(),
{
    let mut node = prev_root;
    let sentinel = T::sentinel();
    proof {
        T::lemma_id_bytes_determine(*prev_block_hash, sentinel);
    }
    if !same_id(prev_block_hash, &sentinel) && !saved {
        let mut back = TriePtr::new(set_backptr(TrieNodeID::Node256.to_u8()), 0, root_ptr);
        back.back_block = prev_block_id;
        node.set_cow_ptr(TrieCowPtr::new(*prev_block_hash, back));
    }
    let hash = node_copy_update(&mut node, prev_block_id);
    (node, hash)
}

/// The root of the first block of all: a node without children, and its hash.
pub fn fresh_root() -> (r: (TrieNodeType, TrieHash))
    ensures
        r.0.model() == empty_node(TrieNodeID::Node256),
        r.1@ == sha512_256(
            consensus_bytes(empty_node(TrieNodeID::Node256), Map::<u32, [u8; 32]>::empty()),
        ),
{
    let node = TrieNodeType::Node256(Box::new(TrieNode256::empty()));
    let map = BlockHashes::new();
    proof {
        law_ctrl_bits(0);
    }
    let hash = get_node_hash(&node, &[], &map);
    proof {
        let m = empty_node(TrieNodeID::Node256);
        let none = Seq::<TrieHash>::empty();
        assert(consensus_bytes(m, map@) + hashes_flat(none) =~= consensus_bytes(m, map@));
    }
    (node, hash)
}

/// What to do to open the trie of a block for writing.
#[derive(Debug, Clone, Copy, PartialEq, Eq, Structural)]
pub enum ExtendStep {
    /// The forest is new: start a trie with an empty root.
    Fresh,
    /// See whether the block has a trie.
    TryOpen,
    /// The block has a trie: it is open.
    Opened,
    /// The block has none: start one with a copy of the root of the current block.
    CopyRoot,
}

/// What to do first to open the trie of a block for writing, with `num_blocks` blocks in the forest
/// and `cur` open.
pub fn extend_trie<T: MarfTrieId>(num_blocks: usize, cur: &T) -> (r: ExtendStep)
    ensures
        r == if num_blocks == 0 || cur.id_bytes()@ == crate::value::SENTINEL_ARRAY@ {
            ExtendStep::Fresh
        } else {
            ExtendStep::TryOpen
        },
{
    let sentinel = T::sentinel();
    proof {
        T::lemma_id_bytes_determine(*cur, sentinel);
    }
    if num_blocks == 0 || same_id(cur, &sentinel) {
        ExtendStep::Fresh
    } else {
        ExtendStep::TryOpen
    }
}

/// What to do after it was tried to open the trie of a block.
pub fn extend_trie_opened(opened: Result<(), Error>) -> (r: Result<ExtendStep, Error>)
    ensures
        match opened {
            Ok(_) => r == Ok::<ExtendStep, Error>(ExtendStep::Opened),
            Err(Error::NotFoundError) => r == Ok::<ExtendStep, Error>(ExtendStep::CopyRoot),
            Err(e) => r == Err::<ExtendStep, Error>(e),
        },
{
    match opened {
        Ok(_) => Ok(ExtendStep::Opened),
        Err(Error::NotFoundError) => Ok(ExtendStep::CopyRoot),
        Err(e) => Err(e),
    }
}

/// A copy of a node leads to the same places as the node: what it pointed to directly in its own
/// block, its copy points back to.
pub proof fn law_copy_leads_to_the_same(m: NodeModel, block_id: u32, i: int)
    requires
        !(m.kind is Leaf),
        0 <= i < m.ptrs.len(),
        m.ptrs[i].id != 0,
        !is_backptr(m.ptrs[i].id) ==> m.ptrs[i].back_block == 0,
    ensures
        ({
            let p = m.ptrs[i];
            let q = copied_node(m, block_id).ptrs[i];
            &&& is_backptr(q.id)
            &&& q.chr == p.chr
            &&& is_backptr(p.id) ==> q == p
            &&& !is_backptr(p.id) ==> q.back_block == block_id && q.spec_from_backptr() == p
        }),
{
    law_ctrl_bits(m.ptrs[i].id);
    assert(copied_node(m, block_id).ptrs[i] == copied_ptr(m.ptrs[i], block_id));
}

} // verus!
