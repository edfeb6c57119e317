//! What a lookup finds, told by the way that the key takes through the tries: node by node, each
//! the child of the one before.

use crate::cursor::{common_prefix, lemma_common_prefix, lemma_common_prefix_is};
use crate::error::{CursorError, Error};
use crate::history_blob::ChunkRef;
use crate::marf_law::lemma_step_through;
use crate::marf_walk::{
    descend, failed_on_way, hints_leaf, lookup, lookup_failed, step_at, Lookup, MarfStore,
    OpenedBlock, StoredNode, TrieLeafSquashed,
};
use crate::node::TrieNodeType;
use crate::node_id::{clear_backptr, is_backptr};
use crate::ptr::TriePtr;
use crate::value::{MARFValue, MarfTrieId};
use vstd::prelude::*;

verus! {

/// A node on a way: the block whose trie holds it, the pointer to it there, and how much of the key
/// was used up before it.
pub type WaySpot<T> = (T, TriePtr, int);

/// The block and the pointer there that a pointer in the trie of `block` leads to.
pub open spec fn leads_to<T>(st: MarfStore<T>, block: T, p: TriePtr) -> (T, TriePtr) {
    if is_backptr(p.id) {
        (
            (st.block)(p.back_block),
            TriePtr { id: clear_backptr(p.id), chr: p.chr, ptr: p.ptr, back_block: 0 },
        )
    } else {
        (block, p)
    }
}

/// Does the key go on from `a` to `b`: through the whole path of the node at `a`, and then to its
/// child for the next byte?
pub open spec fn goes_on<T>(st: MarfStore<T>, path: Seq<u8>, a: WaySpot<T>, b: WaySpot<T>) -> bool {
    let node = (st.node)(a.0, a.1);
    let n = node.path().len() as int;
    &&& a.2 + n < path.len()
    &&& path.subrange(a.2, a.2 + n) == node.path()
    &&& node.child(path[a.2 + n]) matches Some(p) && (b.0, b.1) == leads_to(st, a.0, p)
    &&& b.2 == a.2 + n + 1
}

/// Does the key go on from the node at `k` of a way to the next?
pub open spec fn goes_on_at<T>(st: MarfStore<T>, path: Seq<u8>, way: Seq<WaySpot<T>>, k: int) -> bool {
    goes_on(st, path, way[k], way[k + 1])
}

/// Is this a way that the key takes?
pub open spec fn is_way<T>(st: MarfStore<T>, path: Seq<u8>, way: Seq<WaySpot<T>>) -> bool {
    &&& way.len() > 0
    &&& 0 <= way[0].2 <= path.len()
    &&& forall|k: int| 0 <= k < way.len() - 1 ==> #[trigger] goes_on_at(st, path, way, k)
}

/// Does the key end within the path of this node, or with it?
pub open spec fn key_ends<T>(st: MarfStore<T>, path: Seq<u8>, at: WaySpot<T>) -> bool {
    let node_path = (st.node)(at.0, at.1).path();
    let rest = path.skip(at.2);
    rest.len() <= node_path.len() && node_path.take(rest.len() as int) == rest
}

/// Does the key differ from the path of this node in the byte at `j`?
pub open spec fn differs_at<T>(st: MarfStore<T>, path: Seq<u8>, at: WaySpot<T>, j: int) -> bool {
    let node_path = (st.node)(at.0, at.1).path();
    0 <= j < node_path.len() && at.2 + j < path.len() && node_path[j] != path[at.2 + j]
}

/// Does the key go through this node, but to no child?
pub open spec fn no_child<T>(st: MarfStore<T>, path: Seq<u8>, at: WaySpot<T>) -> bool {
    let node = (st.node)(at.0, at.1);
    let n = node.path().len() as int;
    &&& at.2 + n < path.len()
    &&& path.subrange(at.2, at.2 + n) == node.path()
    &&& node.child(path[at.2 + n]) is None
}

/// What a leaf of a squashed range, stored in the trie of `block`, holds at a height: what the
/// history of that block's trie has for it.
pub open spec fn read_at<T>(st: MarfStore<T>, block: T, leaf: TrieLeafSquashed, h: u32) -> Lookup {
    if !leaf.has_history {
        Lookup::Broken
    } else {
        match (st.history)(block, leaf.chunk, h) {
            Some(v) => Lookup::Found(leaf.path@, v),
            None => Lookup::NotFound,
        }
    }
}

/// Does the reader see squashed ranges at this height? A reader with a height of its own there sees
/// that one; a committed block that has none sees that of its snapshot; all others see the end of
/// the range.
pub open spec fn sees<T: MarfTrieId>(st: MarfStore<T>, user: OpenedBlock<T>, h: Option<u32>) -> bool {
    if user.squash_height is Some {
        h == user.squash_height
    } else if user.block_id is Some {
        h == (st.snapshot)(user.block_hash, user.block_id.unwrap())
    } else {
        h is None
    }
}

/// The step from one node of a way leads to the next.
proof fn lemma_goes_on<T>(st: MarfStore<T>, path: Seq<u8>, a: WaySpot<T>, b: WaySpot<T>)
    requires
        0 <= a.2,
        goes_on(st, path, a, b),
    ensures
        a.2 < b.2 <= path.len(),
        ({
            let s = step_at(st, path, a.2, a.0, a.1);
            let p = (st.node)(a.0, a.1).child(path[b.2 - 1]).unwrap();
            &&& s.index == b.2
            &&& is_backptr(p.id) ==> s.outcome == Err::<Option<TriePtr>, CursorError>(
                CursorError::BackptrEncountered(p),
            ) && b.0 == (st.block)(p.back_block) && b.1 == p.spec_from_backptr()
            &&& !is_backptr(p.id) ==> s.outcome == Ok::<Option<TriePtr>, CursorError>(Some(p))
                && b.0 == a.0 && b.1 == p
        }),
{
    let node = (st.node)(a.0, a.1);
    lemma_step_through(path, a.2, node.path(), |c: u8| node.child(c));
}

/// The way down goes along the way, which is not longer than the key.
proof fn lemma_descend_way<T>(st: MarfStore<T>, path: Seq<u8>, way: Seq<WaySpot<T>>, fuel: nat)
    requires
        is_way(st, path, way),
        fuel > path.len() - way[0].2,
    ensures
        way[0].2 + way.len() - 1 <= way.last().2 <= path.len(),
        descend(st, path, way[0].2, way[0].0, way[0].1, fuel) == descend(
            st,
            path,
            way.last().2,
            way.last().0,
            way.last().1,
            (fuel - (way.len() - 1)) as nat,
        ),
    decreases way.len(),
{
    if way.len() > 1 {
        let rest = way.skip(1);
        assert(goes_on_at(st, path, way, 0));
        lemma_goes_on(st, path, way[0], way[1]);
        assert forall|k: int| 0 <= k < rest.len() - 1 implies #[trigger] goes_on_at(
            st,
            path,
            rest,
            k,
        ) by {
            assert(goes_on_at(st, path, way, k + 1));
        }
        lemma_descend_way(st, path, rest, (fuel - 1) as nat);
    }
}

/// Where the key ends, the step says so.
proof fn lemma_key_ends<T>(st: MarfStore<T>, path: Seq<u8>, at: WaySpot<T>)
    requires
        0 <= at.2 <= path.len(),
        key_ends(st, path, at),
    ensures
        step_at(st, path, at.2, at.0, at.1).outcome == Ok::<Option<TriePtr>, CursorError>(None),
{
    let node_path = (st.node)(at.0, at.1).path();
    let rest = path.skip(at.2);
    assert forall|i: int| 0 <= i < rest.len() implies node_path[i] == rest[i] by {
        assert(node_path.take(rest.len() as int)[i] == rest[i]);
    }
    lemma_common_prefix_is(node_path, rest, rest.len() as int);
}

/// A key whose way ends at a leaf finds what that leaf holds; a leaf of a squashed range, where the
/// reader sees a height, is read from the history of the very block whose trie holds the leaf, and
/// else at the end of its range. Anything else at the end of a key is broken.
pub proof fn law_lookup_reads_where_the_way_ends<T: MarfTrieId>(
    st: MarfStore<T>,
    user: OpenedBlock<T>,
    root_ptr: TriePtr,
    path: Seq<u8>,
    way: Seq<WaySpot<T>>,
    h: Option<u32>,
)
    requires
        is_way(st, path, way),
        way[0] == (user.block_hash, root_ptr, 0int),
        key_ends(st, path, way.last()),
        sees(st, user, h),
    ensures
        ({
            let (block, ptr, index) = way.last();
            let found = lookup(st, user, root_ptr, path);
            if !hints_leaf(ptr) {
                found is Broken
            } else {
                match (st.node)(block, ptr) {
                    StoredNode::Node(TrieNodeType::Leaf(leaf)) => found == Lookup::Found(
                        leaf.path@,
                        leaf.data,
                    ),
                    StoredNode::Node(_) => found is Broken,
                    StoredNode::Squashed(leaf) => found == match h {
                        Some(h) => read_at(st, block, leaf, h),
                        None => Lookup::Found(leaf.path@, leaf.chunk.tip_value),
                    },
                }
            }
        }),
{
    lemma_descend_way(st, path, way, path.len() + 1);
    lemma_key_ends(st, path, way.last());
}

/// A key whose way ends at a node that has another path, or no child for the next byte, is not
/// found.
pub proof fn law_missing_keys_are_not_found<T: MarfTrieId>(
    st: MarfStore<T>,
    user: OpenedBlock<T>,
    root_ptr: TriePtr,
    path: Seq<u8>,
    way: Seq<WaySpot<T>>,
    j: int,
)
    requires
        is_way(st, path, way),
        way[0] == (user.block_hash, root_ptr, 0int),
        no_child(st, path, way.last()) || differs_at(st, path, way.last(), j),
    ensures
        lookup(st, user, root_ptr, path) is NotFound,
{
    let at = way.last();
    lemma_descend_way(st, path, way, path.len() + 1);
    let node = (st.node)(at.0, at.1);
    if no_child(st, path, at) {
        lemma_step_through(path, at.2, node.path(), |c: u8| node.child(c));
    } else {
        lemma_common_prefix(node.path(), path.skip(at.2));
        let k = common_prefix(node.path(), path.skip(at.2)) as int;
        if k > j {
            assert(node.path()[j] == path.skip(at.2)[j]);
        }
        assert(step_at(st, path, at.2, at.0, at.1).outcome == Err::<Option<TriePtr>, CursorError>(
            CursorError::PathDiverged,
        ));
    }
}

/// Two readers whose ways end at the same leaf of a squashed range, in the trie of the same block,
/// and who see the same height, read the same, whatever else their forests hold: nothing but the
/// history of that block for that leaf at that height matters.
pub proof fn law_readers_of_one_leaf_agree<T: MarfTrieId>(
    st: MarfStore<T>,
    user: OpenedBlock<T>,
    root_ptr: TriePtr,
    path: Seq<u8>,
    way: Seq<WaySpot<T>>,
    other_st: MarfStore<T>,
    other: OpenedBlock<T>,
    other_root: TriePtr,
    other_path: Seq<u8>,
    other_way: Seq<WaySpot<T>>,
    leaf: TrieLeafSquashed,
    h: u32,
)
    requires
        is_way(st, path, way),
        way[0] == (user.block_hash, root_ptr, 0int),
        key_ends(st, path, way.last()),
        hints_leaf(way.last().1),
        (st.node)(way.last().0, way.last().1) == StoredNode::Squashed(leaf),
        sees(st, user, Some(h)),
        is_way(other_st, other_path, other_way),
        other_way[0] == (other.block_hash, other_root, 0int),
        key_ends(other_st, other_path, other_way.last()),
        hints_leaf(other_way.last().1),
        (other_st.node)(other_way.last().0, other_way.last().1) == StoredNode::Squashed(leaf),
        sees(other_st, other, Some(h)),
        way.last().0 == other_way.last().0,
        (st.history)(way.last().0, leaf.chunk, h) == (other_st.history)(
            way.last().0,
            leaf.chunk,
            h,
        ),
    ensures
        lookup(st, user, root_ptr, path) == lookup(other_st, other, other_root, other_path),
{
    law_lookup_reads_where_the_way_ends(st, user, root_ptr, path, way, Some(h));
    law_lookup_reads_where_the_way_ends(
        other_st,
        other,
        other_root,
        other_path,
        other_way,
        Some(h),
    );
}

/// Can a read at node `k` of a way, or of the block that the next one is in, have failed with `e`?
pub open spec fn failed_at<
    T: MarfTrieId,
    N: Fn(&T, &TriePtr) -> Result<StoredNode, Error>,
    B: Fn(u32) -> Result<T, Error>,
>(
    read_node: N,
    block_of: B,
    st: MarfStore<T>,
    path: Seq<u8>,
    way: Seq<WaySpot<T>>,
    k: int,
    e: Error,
) -> bool {
    ||| read_node.ensures((&way[k].0, &way[k].1), Err(e))
    ||| k + 1 < way.len() && ((st.node)(way[k].0, way[k].1).child(path[way[k + 1].2 - 1])
        matches Some(p) && is_backptr(p.id) && block_of.ensures((p.back_block,), Err(e)))
}

proof fn lemma_failed_way<
    T: MarfTrieId,
    N: Fn(&T, &TriePtr) -> Result<StoredNode, Error>,
    B: Fn(u32) -> Result<T, Error>,
>(
    read_node: N,
    block_of: B,
    st: MarfStore<T>,
    path: Seq<u8>,
    way: Seq<WaySpot<T>>,
    from: int,
    fuel: nat,
    e: Error,
) -> (k: int)
    requires
        is_way(st, path, way),
        0 <= from < way.len(),
        0 <= way[from].2 <= path.len(),
        key_ends(st, path, way.last()),
        failed_on_way(
            read_node,
            block_of,
            st,
            path,
            way[from].2,
            way[from].0,
            way[from].1,
            fuel,
            e,
        ),
    ensures
        from <= k < way.len(),
        failed_at(read_node, block_of, st, path, way, k, e),
    decreases way.len() - from,
{
    if read_node.ensures((&way[from].0, &way[from].1), Err(e)) {
        from
    } else if from == way.len() - 1 {
        lemma_key_ends(st, path, way[from]);
        from
    } else {
        assert(goes_on_at(st, path, way, from));
        lemma_goes_on(st, path, way[from], way[from + 1]);
        if failed_at(read_node, block_of, st, path, way, from, e) {
            from
        } else {
            lemma_failed_way(read_node, block_of, st, path, way, from + 1, (fuel - 1) as nat, e)
        }
    }
}

/// A lookup of a key that ends at a leaf fails only where reading one of the nodes on its way, or
/// finding the block of one, fails, or where reading the history of the leaf does, in the block
/// whose trie holds the leaf.
pub proof fn law_lookup_fails_on_its_way<
    T: MarfTrieId,
    N: Fn(&T, &TriePtr) -> Result<StoredNode, Error>,
    B: Fn(u32) -> Result<T, Error>,
    V: Fn(&T, &ChunkRef, u32) -> Result<Option<MARFValue>, Error>,
>(
    read_node: N,
    block_of: B,
    value_at_height: V,
    st: MarfStore<T>,
    user: OpenedBlock<T>,
    root_ptr: TriePtr,
    path: Seq<u8>,
    way: Seq<WaySpot<T>>,
    h: Option<u32>,
    e: Error,
)
    requires
        is_way(st, path, way),
        way[0] == (user.block_hash, root_ptr, 0int),
        key_ends(st, path, way.last()),
        sees(st, user, h),
        lookup_failed(read_node, block_of, value_at_height, st, user, root_ptr, path, e),
    ensures
        ({
            ||| exists|k: int|
                0 <= k < way.len() && #[trigger] failed_at(
                    read_node,
                    block_of,
                    st,
                    path,
                    way,
                    k,
                    e,
                )
            ||| h is Some && ((st.node)(way.last().0, way.last().1) matches StoredNode::Squashed(
                leaf,
            ) && leaf.has_history && value_at_height.ensures(
                (&way.last().0, &leaf.chunk, h.unwrap()),
                Err(e),
            ))
        }),
{
    let fuel = path.len() + 1;
    lemma_descend_way(st, path, way, fuel);
    lemma_key_ends(st, path, way.last());
    if failed_on_way(read_node, block_of, st, path, 0, user.block_hash, root_ptr, fuel, e) {
        let k = lemma_failed_way(read_node, block_of, st, path, way, 0, fuel, e);
        assert(failed_at(read_node, block_of, st, path, way, k, e));
    }
}

} // verus!
