//! Looking a key up in the forest: from the root of a block's trie down to a leaf, through
//! back-pointers into the tries of earlier blocks.
//!
//! A leaf may stand for a whole range of squashed blocks. What it holds then depends on the block
//! that was asked for: at a height within the range, the value comes from the key's history.

use crate::cursor::{step, StepModel, TrieCursor};
use crate::error::{corruption, CursorError, Error};
use crate::hash::{sha512_256, TrieHash};
use crate::history_blob::ChunkRef;
use crate::marf_heights::push_hex;
use crate::node::TrieNodeType;
use crate::node_id::{clear_backptr, TrieNodeID};
use crate::path::NodePath;
use crate::ptr::TriePtr;
use crate::text::push_number;
use crate::value::{MARFValue, MarfTrieId, TrieLeaf};
use vstd::prelude::*;
use vstd::string::StringSliceAdditionalSpecFns;

verus! {

/// A leaf that stands for all blocks of a squashed range.
#[derive(Debug, Clone, Copy)]
pub struct TrieLeafSquashed {
    pub path: NodePath,
    /// Does the key have a history?
    pub has_history: bool,
    /// The value at the end of the range, and where the history is.
    pub chunk: ChunkRef,
}

/// A node as it is stored.
#[derive(Debug)]
pub enum StoredNode {
    Node(TrieNodeType),
    Squashed(TrieLeafSquashed),
}

impl StoredNode {
    /// The node's own part of the path.
    pub open spec fn path(&self) -> Seq<u8> {
        match self {
            StoredNode::Node(n) => n.model().path,
            StoredNode::Squashed(s) => s.path@,
        }
    }

    /// The child for a path character.
    pub open spec fn child(&self, chr: u8) -> Option<TriePtr> {
        match self {
            StoredNode::Node(n) => n.model().child(chr),
            StoredNode::Squashed(_) => None,
        }
    }
}

/// The block a lookup is for.
#[derive(Debug, Copy)]
pub struct OpenedBlock<T: MarfTrieId> {
    pub block_hash: T,
    /// Its number, if it has been committed.
    pub block_id: Option<u32>,
    /// Its height within a squashed range, where it, or the parent it extends, is in one.
    pub squash_height: Option<u32>,
}

impl<T: MarfTrieId> Clone for OpenedBlock<T> {
    fn clone(&self) -> (r: OpenedBlock<T>)
        ensures
            r == *self,
    {
        *self
    }
}

/// What a forest holds.
#[verifier::reject_recursive_types(T)]
pub struct MarfStore<T> {
    /// The node in a block's trie that a pointer leads to.
    pub node: spec_fn(T, TriePtr) -> StoredNode,
    /// The block with a number.
    pub block: spec_fn(u32) -> T,
    /// The height of a committed block's ancestor in a squashed range.
    pub snapshot: spec_fn(T, u32) -> Option<u32>,
    /// The value of a key of a squashed range at a height.
    pub history: spec_fn(T, ChunkRef, u32) -> Option<MARFValue>,
}

/// Where a way down a trie ends.
#[verifier::reject_recursive_types(T)]
pub enum Descent<T> {
    /// At a leaf.
    Leaf(TrieLeaf),
    /// At a leaf of a squashed range, in the trie of a block.
    Squashed(T, TrieLeafSquashed),
    /// The key is not there.
    NotFound,
    /// The trie is no trie.
    Broken,
}

/// Does the pointer say that it leads to a leaf?
pub open spec fn hints_leaf(ptr: TriePtr) -> bool {
    clear_backptr(ptr.id) == TrieNodeID::Leaf.spec_to_u8() || clear_backptr(ptr.id)
        == TrieNodeID::LeafSquashed.spec_to_u8()
}

/// The step through the node at `ptr`.
pub open spec fn step_at<T>(st: MarfStore<T>, path: Seq<u8>, index: int, block: T, ptr: TriePtr) -> StepModel {
    let node = (st.node)(block, ptr);
    step(path, index, node.path(), |c: u8| node.child(c))
}

/// The way down from the node at `ptr` of `block`, for the bytes of `path` from `index` on, in at
/// most `fuel` nodes.
pub open spec fn descend<T>(
    st: MarfStore<T>,
    path: Seq<u8>,
    index: int,
    block: T,
    ptr: TriePtr,
    fuel: nat,
) -> Descent<T>
    decreases fuel,
{
    if fuel == 0 {
        Descent::Broken
    } else {
        let s = step_at(st, path, index, block, ptr);
        match s.outcome {
            Ok(Some(p)) => descend(st, path, s.index, block, p, (fuel - 1) as nat),
            Ok(None) => if !hints_leaf(ptr) {
                Descent::Broken
            } else {
                match (st.node)(block, ptr) {
                    StoredNode::Squashed(leaf) => Descent::Squashed(block, leaf),
                    StoredNode::Node(TrieNodeType::Leaf(leaf)) => Descent::Leaf(leaf),
                    StoredNode::Node(_) => Descent::Broken,
                }
            },
            Err(CursorError::PathDiverged) => Descent::NotFound,
            Err(CursorError::ChrNotFound) => Descent::NotFound,
            Err(CursorError::BackptrEncountered(p)) => descend(
                st,
                path,
                s.index,
                (st.block)(p.back_block),
                p.spec_from_backptr(),
                (fuel - 1) as nat,
            ),
        }
    }
}

/// What a lookup finds.
pub enum Lookup {
    /// A leaf with this path and value.
    Found(Seq<u8>, MARFValue),
    NotFound,
    Broken,
}

/// The height at which a squashed leaf is read for `user`, or `None` for the end of its range.
pub open spec fn query_height<T: MarfTrieId>(st: MarfStore<T>, user: OpenedBlock<T>) -> Option<u32> {
    match (user.squash_height, user.block_id) {
        (Some(h), _) => Some(h),
        (None, Some(id)) => (st.snapshot)(user.block_hash, id),
        (None, None) => None,
    }
}

/// What is at the end of a way down, for `user`.
pub open spec fn found<T: MarfTrieId>(st: MarfStore<T>, user: OpenedBlock<T>, d: Descent<T>) -> Lookup {
    match d {
        Descent::Leaf(leaf) => Lookup::Found(leaf.path@, leaf.data),
        Descent::Squashed(block, leaf) => match query_height(st, user) {
            None => Lookup::Found(leaf.path@, leaf.chunk.tip_value),
            Some(h) => if !leaf.has_history {
                Lookup::Broken
            } else {
                match (st.history)(block, leaf.chunk, h) {
                    Some(v) => Lookup::Found(leaf.path@, v),
                    None => Lookup::NotFound,
                }
            },
        },
        Descent::NotFound => Lookup::NotFound,
        Descent::Broken => Lookup::Broken,
    }
}

/// What a lookup of `path` in the trie of `user`'s block finds.
pub open spec fn lookup<T: MarfTrieId>(
    st: MarfStore<T>,
    user: OpenedBlock<T>,
    root_ptr: TriePtr,
    path: Seq<u8>,
) -> Lookup {
    found(st, user, descend(st, path, 0, user.block_hash, root_ptr, path.len() + 1))
}

/// A way down takes at most one node for each byte that is left of the path, and one more: with
/// more fuel it ends in the same place. So no trie, whatever it holds, can make a lookup run out
/// of steps.
pub proof fn law_descent_ends<T>(
    st: MarfStore<T>,
    path: Seq<u8>,
    index: int,
    block: T,
    ptr: TriePtr,
    fuel: nat,
)
    requires
        0 <= index <= path.len(),
        fuel > path.len() - index,
    ensures
        descend(st, path, index, block, ptr, fuel) == descend(
            st,
            path,
            index,
            block,
            ptr,
            (path.len() - index + 1) as nat,
        ),
    decreases fuel,
{
    let s = step_at(st, path, index, block, ptr);
    let node = (st.node)(block, ptr);
    crate::cursor::law_step_advances(path, index, node.path(), |c: u8| node.child(c));
    let less = (path.len() - index) as nat;
    match s.outcome {
        Ok(Some(p)) => {
            law_descent_ends(st, path, s.index, block, p, (fuel - 1) as nat);
            law_descent_ends(st, path, s.index, block, p, less);
        },
        Err(CursorError::BackptrEncountered(p)) => {
            let b = (st.block)(p.back_block);
            law_descent_ends(st, path, s.index, b, p.spec_from_backptr(), (fuel - 1) as nat);
            law_descent_ends(st, path, s.index, b, p.spec_from_backptr(), less);
        },
        _ => {},
    }
}

/// Do the lookups answer from this forest?
pub open spec fn answers<
    T: MarfTrieId,
    N: Fn(&T, &TriePtr) -> Result<StoredNode, Error>,
    B: Fn(u32) -> Result<T, Error>,
    S: Fn(&T, u32) -> Option<u32>,
    V: Fn(&T, &ChunkRef, u32) -> Result<Option<MARFValue>, Error>,
>(read_node: N, block_of: B, snapshot_height: S, value_at_height: V, st: MarfStore<T>) -> bool {
    &&& forall|block: T, ptr: TriePtr, n: StoredNode| #[trigger]
        read_node.ensures((&block, &ptr), Ok(n)) ==> (st.node)(block, ptr) == n
    &&& forall|id: u32, block: T| #[trigger]
        block_of.ensures((id,), Ok(block)) ==> (st.block)(id) == block
    &&& forall|block: T, id: u32, h: Option<u32>| #[trigger]
        snapshot_height.ensures((&block, id), h) ==> (st.snapshot)(block, id) == h
    &&& forall|block: T, chunk: ChunkRef, h: u32, v: Option<MARFValue>| #[trigger]
        value_at_height.ensures((&block, &chunk, h), Ok(v)) ==> (st.history)(block, chunk, h) == v
}

/// Can a read of a node, or of the block of a back-pointer, have failed with `e` on the way down
/// from the node at `ptr` of `block`?
pub open spec fn failed_on_way<
    T: MarfTrieId,
    N: Fn(&T, &TriePtr) -> Result<StoredNode, Error>,
    B: Fn(u32) -> Result<T, Error>,
>(
    read_node: N,
    block_of: B,
    st: MarfStore<T>,
    path: Seq<u8>,
    index: int,
    block: T,
    ptr: TriePtr,
    fuel: nat,
    e: Error,
) -> bool
    decreases fuel,
{
    fuel > 0 && {
        let s = step_at(st, path, index, block, ptr);
        ||| read_node.ensures((&block, &ptr), Err(e))
        ||| match s.outcome {
            Ok(Some(p)) => failed_on_way(
                read_node,
                block_of,
                st,
                path,
                s.index,
                block,
                p,
                (fuel - 1) as nat,
                e,
            ),
            Err(CursorError::BackptrEncountered(p)) => {
                ||| block_of.ensures((p.back_block,), Err(e))
                ||| failed_on_way(
                    read_node,
                    block_of,
                    st,
                    path,
                    s.index,
                    (st.block)(p.back_block),
                    p.spec_from_backptr(),
                    (fuel - 1) as nat,
                    e,
                )
            },
            _ => false,
        }
    }
}

/// Can reading the value at the end of a way down have failed with `e`?
pub open spec fn failed_at_end<
    T: MarfTrieId,
    V: Fn(&T, &ChunkRef, u32) -> Result<Option<MARFValue>, Error>,
>(value_at_height: V, st: MarfStore<T>, user: OpenedBlock<T>, d: Descent<T>, e: Error) -> bool {
    d matches Descent::Squashed(block, leaf) && leaf.has_history && (query_height(
        st,
        user,
    ) matches Some(h) && value_at_height.ensures((&block, &leaf.chunk, h), Err(e)))
}

/// Can a lookup that is made for the leaf at `path` have failed with `e`? Only what is on the way
/// to the leaf is read.
pub open spec fn lookup_failed<
    T: MarfTrieId,
    N: Fn(&T, &TriePtr) -> Result<StoredNode, Error>,
    B: Fn(u32) -> Result<T, Error>,
    V: Fn(&T, &ChunkRef, u32) -> Result<Option<MARFValue>, Error>,
>(
    read_node: N,
    block_of: B,
    value_at_height: V,
    st: MarfStore<T>,
    user: OpenedBlock<T>,
    root_ptr: TriePtr,
    path: Seq<u8>,
    e: Error,
) -> bool {
    let fuel = path.len() + 1;
    ||| failed_on_way(read_node, block_of, st, path, 0, user.block_hash, root_ptr, fuel, e)
    ||| failed_at_end(
        value_at_height,
        st,
        user,
        descend(st, path, 0, user.block_hash, root_ptr, fuel),
        e,
    )
}

/// Can the lookups be called with anything?
pub open spec fn callable<
    T: MarfTrieId,
    N: Fn(&T, &TriePtr) -> Result<StoredNode, Error>,
    B: Fn(u32) -> Result<T, Error>,
    S: Fn(&T, u32) -> Option<u32>,
    V: Fn(&T, &ChunkRef, u32) -> Result<Option<MARFValue>, Error>,
>(read_node: N, block_of: B, snapshot_height: S, value_at_height: V) -> bool {
    &&& forall|block: T, ptr: TriePtr| read_node.requires((&block, &ptr))
    &&& forall|id: u32| block_of.requires((id,))
    &&& forall|block: T, id: u32| snapshot_height.requires((&block, id))
    &&& forall|block: T, chunk: ChunkRef, h: u32| value_at_height.requires((&block, &chunk, h))
}

/// A leaf of a squashed range as a plain leaf, with the value at the end of the range.
fn plain_leaf(leaf: &TrieLeafSquashed) -> (r: TrieNodeType)
    ensures
        r.model().path == leaf.path@,
        forall|c: u8| r.model().child(c) is None,
{
    TrieNodeType::Leaf(TrieLeaf { path: leaf.path, data: leaf.chunk.tip_value })
}

/// Walk down from the root of `user`'s block along `path`, through back-pointers, to a leaf.
///
/// `read_node` reads a node of a block's trie, `block_of` gives the block with a number,
/// `snapshot_height` the height of a committed block's ancestor in a squashed range, and
/// `value_at_height` the value of a key of a squashed range at a height. A key that is not there,
/// or was not there yet, is `NotFoundError`; a trie that is none is corruption; errors of the
/// lookups, which are made only for what is on the way, are passed on.
pub fn walk<
    T: MarfTrieId,
    N: Fn(&T, &TriePtr) -> Result<StoredNode, Error>,
    B: Fn(u32) -> Result<T, Error>,
    S: Fn(&T, u32) -> Option<u32>,
    V: Fn(&T, &ChunkRef, u32) -> Result<Option<MARFValue>, Error>,
>(
    user: &OpenedBlock<T>,
    root_ptr: &TriePtr,
    path: &TrieHash,
    read_node: &N,
    block_of: &B,
    snapshot_height: &S,
    value_at_height: &V,
) -> (r: Result<TrieLeaf, Error>)
    requires
        callable(*read_node, *block_of, *snapshot_height, *value_at_height),
    ensures
        forall|st: MarfStore<T>| #[trigger]
            answers(*read_node, *block_of, *snapshot_height, *value_at_height, st) ==> match r {
                Ok(leaf) => lookup(st, *user, *root_ptr, path@) == Lookup::Found(
                    leaf.path@,
                    leaf.data,
                ),
                Err(e) => {
                    ||| lookup_failed(
                        *read_node,
                        *block_of,
                        *value_at_height,
                        st,
                        *user,
                        *root_ptr,
                        path@,
                        e,
                    )
                    ||| match lookup(st, *user, *root_ptr, path@) {
                        Lookup::Found(_, _) => false,
                        Lookup::NotFound => e is NotFoundError,
                        Lookup::Broken => e is CorruptionError,
                    }
                },
            },
{
    let mut cursor: TrieCursor<T> = TrieCursor::new(path, *root_ptr);
    let mut block: T = user.block_hash;
    let mut node_ptr: TriePtr = *root_ptr;
    let mut steps: usize = 0;
    while steps < 33
        invariant
            callable(*read_node, *block_of, *snapshot_height, *value_at_height),
            steps <= 33,
            path@.len() == 32,
            cursor@.ready(),
            cursor@.path == path@,
            cursor@.node_ptrs.last() == node_ptr,
            forall|st: MarfStore<T>| #[trigger]
                answers(*read_node, *block_of, *snapshot_height, *value_at_height, st) ==> descend(
                    st,
                    path@,
                    0,
                    user.block_hash,
                    *root_ptr,
                    33,
                ) == descend(st, path@, cursor@.index, block, node_ptr, (33 - steps) as nat) && (
                forall|e: Error| #[trigger]
                    failed_on_way(
                        *read_node,
                        *block_of,
                        st,
                        path@,
                        cursor@.index,
                        block,
                        node_ptr,
                        (33 - steps) as nat,
                        e,
                    ) ==> failed_on_way(
                        *read_node,
                        *block_of,
                        st,
                        path@,
                        0,
                        user.block_hash,
                        *root_ptr,
                        33,
                        e,
                    )),
        decreases 33 - steps,
    {
        let ghost index = cursor@.index;
        let ghost (from, ptr0, fuel) = (block, node_ptr, (33 - steps) as nat);
        let stored = match read_node(&block, &node_ptr) {
            Ok(n) => n,
            Err(e) => {
                assert forall|st: MarfStore<T>| #[trigger]
                    answers(*read_node, *block_of, *snapshot_height, *value_at_height, st) implies failed_on_way(
                    *read_node,
                    *block_of,
                    st,
                    path@,
                    index,
                    from,
                    ptr0,
                    fuel,
                    e,
                ) by {
                    assert(read_node.ensures((&from, &ptr0), Err(e)));
                }
                return Err(e);
            },
        };
        let outcome = match &stored {
            StoredNode::Node(node) => cursor.walk(node, &block),
            StoredNode::Squashed(leaf) => {
                let plain = plain_leaf(leaf);
                let outcome = cursor.walk(&plain, &block);
                proof {
                    lemma_same_children(
                        path@,
                        index,
                        leaf.path@,
                        |c: u8| plain.model().child(c),
                        |c: u8| stored.child(c),
                    );
                }
                outcome
            },
        };
        proof {
            let child = |c: u8| stored.child(c);
            if let StoredNode::Node(node) = &stored {
                lemma_same_children(
                    path@,
                    index,
                    stored.path(),
                    |c: u8| node.model().child(c),
                    child,
                );
            }
            assert(outcome == step(path@, index, stored.path(), child).outcome);
            assert(cursor@.index == step(path@, index, stored.path(), child).index);
            crate::cursor::law_step_advances(path@, index, stored.path(), child);
            assert forall|st: MarfStore<T>| #[trigger]
                answers(*read_node, *block_of, *snapshot_height, *value_at_height, st) implies (
            st.node)(block, node_ptr) == stored && step_at(st, path@, index, block, node_ptr)
                == step(path@, index, stored.path(), child) by {
                assert(read_node.ensures((&block, &node_ptr), Ok(stored)));
            }
        }
        match outcome {
            Ok(Some(next)) => {
                node_ptr = next;
            },
            Ok(None) => {
                let hint = clear_backptr(node_ptr.id());
                if hint != TrieNodeID::Leaf.to_u8() && hint != TrieNodeID::LeafSquashed.to_u8() {
                    return Err(corruption("Non-leaf encountered at end of path"));
                }
                match stored {
                    StoredNode::Node(TrieNodeType::Leaf(leaf)) => {
                        return Ok(leaf);
                    },
                    StoredNode::Node(_) => {
                        return Err(corruption("Path reached a non-leaf"));
                    },
                    StoredNode::Squashed(leaf) => {
                        return resolve_squashed(
                            user,
                            &block,
                            &leaf,
                            snapshot_height,
                            value_at_height,
                        );
                    },
                }
            },
            Err(CursorError::PathDiverged) => {
                return Err(Error::NotFoundError);
            },
            Err(CursorError::ChrNotFound) => {
                return Err(Error::NotFoundError);
            },
            Err(CursorError::BackptrEncountered(ptr)) => {
                let back = match block_of(ptr.back_block()) {
                    Ok(b) => b,
                    Err(e) => {
                        assert forall|st: MarfStore<T>| #[trigger]
                            answers(*read_node, *block_of, *snapshot_height, *value_at_height, st) implies failed_on_way(
                            *read_node,
                            *block_of,
                            st,
                            path@,
                            index,
                            from,
                            ptr0,
                            fuel,
                            e,
                        ) by {
                            assert(block_of.ensures((ptr.back_block,), Err(e)));
                        }
                        return Err(e);
                    },
                };
                let next = ptr.from_backptr();
                cursor.repair_backptr_finish(&next, back);
                block = back;
                node_ptr = next;
            },
        }
        steps += 1;
        assert forall|st: MarfStore<T>, e: Error|
            answers(*read_node, *block_of, *snapshot_height, *value_at_height, st) && #[trigger] failed_on_way(
                *read_node,
                *block_of,
                st,
                path@,
                cursor@.index,
                block,
                node_ptr,
                (33 - steps) as nat,
                e,
            ) implies failed_on_way(
            *read_node,
            *block_of,
            st,
            path@,
            index,
            from,
            ptr0,
            fuel,
            e,
        ) by {}
    }
    Err(corruption("Trie has a cycle"))
}

proof fn lemma_same_children(
    path: Seq<u8>,
    index: int,
    node_path: Seq<u8>,
    a: spec_fn(u8) -> Option<TriePtr>,
    b: spec_fn(u8) -> Option<TriePtr>,
)
    requires
        forall|c: u8| #[trigger] a(c) == b(c),
    ensures
        step(path, index, node_path, a) == step(path, index, node_path, b),
{
}

/// Read a leaf of a squashed range for `user`.
pub fn resolve_squashed<
    T: MarfTrieId,
    S: Fn(&T, u32) -> Option<u32>,
    V: Fn(&T, &ChunkRef, u32) -> Result<Option<MARFValue>, Error>,
>(
    user: &OpenedBlock<T>,
    block: &T,
    leaf: &TrieLeafSquashed,
    snapshot_height: &S,
    value_at_height: &V,
) -> (r: Result<TrieLeaf, Error>)
    requires
        forall|block: T, id: u32| snapshot_height.requires((&block, id)),
        forall|block: T, chunk: ChunkRef, h: u32| value_at_height.requires((&block, &chunk, h)),
    ensures
        exists|height: Option<u32>|
            {
                &&& match (user.squash_height, user.block_id) {
                    (Some(h), _) => height == Some(h),
                    (None, Some(id)) => snapshot_height.ensures((&user.block_hash, id), height),
                    (None, None) => height is None,
                }
                &&& #[trigger] squashed_at(height, *block, *leaf, *value_at_height, r)
            },
{
    let height: Option<u32> = match (user.squash_height, user.block_id) {
        (Some(h), _) => Some(h),
        (None, Some(id)) => snapshot_height(&user.block_hash, id),
        (None, None) => None,
    };
    let r = match height {
        None => Ok(TrieLeaf { path: leaf.path, data: leaf.chunk.tip_value }),
        Some(h) => {
            if !leaf.has_history {
                let mut m =
                    "MARF::walk: LeafSquashed at-block read at resolved_height=".to_owned();
                push_number(&mut m, h as u64, 10, 0);
                m.append(" but leaf has no has_history flag set (user_block_hash=");
                push_hex(&mut m, user.block_hash.as_bytes());
                m.append(", leaf_path=");
                push_hex(&mut m, leaf.path.as_slice());
                m.append(")");
                Err(Error::CorruptionError(m))
            } else {
                match value_at_height(block, &leaf.chunk, h) {
                    Ok(Some(v)) => Ok(TrieLeaf { path: leaf.path, data: v }),
                    Ok(None) => Err(Error::NotFoundError),
                    Err(e) => Err(e),
                }
            }
        },
    };
    assert(squashed_at(height, *block, *leaf, *value_at_height, r));
    r
}

/// Is `r` what a leaf of a squashed range holds at a height?
pub open spec fn squashed_at<T, V: Fn(&T, &ChunkRef, u32) -> Result<Option<MARFValue>, Error>>(
    height: Option<u32>,
    block: T,
    leaf: TrieLeafSquashed,
    value_at_height: V,
    r: Result<TrieLeaf, Error>,
) -> bool {
    match height {
        None => r == Ok::<TrieLeaf, Error>(
            TrieLeaf { path: leaf.path, data: leaf.chunk.tip_value },
        ),
        Some(h) => if !leaf.has_history {
            r matches Err(e) && e is CorruptionError
        } else {
            match r {
                Ok(l) => l.path == leaf.path && value_at_height.ensures(
                    (&block, &leaf.chunk, h),
                    Ok(Some(l.data)),
                ),
                Err(e) => value_at_height.ensures((&block, &leaf.chunk, h), Err(e)) || (
                e is NotFoundError && value_at_height.ensures((&block, &leaf.chunk, h), Ok(None))),
            }
        },
    }
}

/// A lookup whose key is not there finds nothing; other errors stay errors.
pub fn value_if_found(found: Result<TrieLeaf, Error>) -> (r: Result<Option<MARFValue>, Error>)
    ensures
        match found {
            Ok(leaf) => r == Ok::<Option<MARFValue>, Error>(Some(leaf.data)),
            Err(Error::NotFoundError) => r == Ok::<Option<MARFValue>, Error>(None),
            Err(e) => r == Err::<Option<MARFValue>, Error>(e),
        },
{
    match found {
        Ok(leaf) => Ok(Some(leaf.data)),
        Err(Error::NotFoundError) => Ok(None),
        Err(e) => Err(e),
    }
}

/// Is `r` the value that a lookup of `path` finds, or `None` where it finds nothing or something
/// on the way is not found?
pub open spec fn is_value_of<
    T: MarfTrieId,
    N: Fn(&T, &TriePtr) -> Result<StoredNode, Error>,
    B: Fn(u32) -> Result<T, Error>,
    S: Fn(&T, u32) -> Option<u32>,
    V: Fn(&T, &ChunkRef, u32) -> Result<Option<MARFValue>, Error>,
>(
    user: OpenedBlock<T>,
    root_ptr: TriePtr,
    path: Seq<u8>,
    read_node: N,
    block_of: B,
    snapshot_height: S,
    value_at_height: V,
    r: Result<Option<MARFValue>, Error>,
) -> bool {
    forall|st: MarfStore<T>| #[trigger]
        answers(read_node, block_of, snapshot_height, value_at_height, st) ==> {
            let l = lookup(st, user, root_ptr, path);
            match r {
                Ok(Some(v)) => l matches Lookup::Found(_, w) && w == v,
                Ok(None) => l is NotFound || lookup_failed(
                    read_node,
                    block_of,
                    value_at_height,
                    st,
                    user,
                    root_ptr,
                    path,
                    Error::NotFoundError,
                ),
                Err(e) => !(e is NotFoundError) && ((l is Broken && e is CorruptionError)
                    || lookup_failed(
                    read_node,
                    block_of,
                    value_at_height,
                    st,
                    user,
                    root_ptr,
                    path,
                    e,
                )),
            }
        }
}

/// The value at `path` in the trie of `user`'s block.
pub fn get_by_path<
    T: MarfTrieId,
    N: Fn(&T, &TriePtr) -> Result<StoredNode, Error>,
    B: Fn(u32) -> Result<T, Error>,
    S: Fn(&T, u32) -> Option<u32>,
    V: Fn(&T, &ChunkRef, u32) -> Result<Option<MARFValue>, Error>,
>(
    user: &OpenedBlock<T>,
    root_ptr: &TriePtr,
    path: &TrieHash,
    read_node: &N,
    block_of: &B,
    snapshot_height: &S,
    value_at_height: &V,
) -> (r: Result<Option<MARFValue>, Error>)
    requires
        callable(*read_node, *block_of, *snapshot_height, *value_at_height),
    ensures
        is_value_of(
            *user,
            *root_ptr,
            path@,
            *read_node,
            *block_of,
            *snapshot_height,
            *value_at_height,
            r,
        ),
{
    value_if_found(
        walk(user, root_ptr, path, read_node, block_of, snapshot_height, value_at_height),
    )
}

/// The value of `key` in the trie of `user`'s block.
pub fn get_by_key<
    T: MarfTrieId,
    N: Fn(&T, &TriePtr) -> Result<StoredNode, Error>,
    B: Fn(u32) -> Result<T, Error>,
    S: Fn(&T, u32) -> Option<u32>,
    V: Fn(&T, &ChunkRef, u32) -> Result<Option<MARFValue>, Error>,
>(
    user: &OpenedBlock<T>,
    root_ptr: &TriePtr,
    key: &str,
    read_node: &N,
    block_of: &B,
    snapshot_height: &S,
    value_at_height: &V,
) -> (r: Result<Option<MARFValue>, Error>)
    requires
        callable(*read_node, *block_of, *snapshot_height, *value_at_height),
    ensures
        is_value_of(
            *user,
            *root_ptr,
            sha512_256(key.spec_bytes()),
            *read_node,
            *block_of,
            *snapshot_height,
            *value_at_height,
            r,
        ),
{
    let path = TrieHash::from_key(key);
    get_by_path(user, root_ptr, &path, read_node, block_of, snapshot_height, value_at_height)
}

} // verus!
