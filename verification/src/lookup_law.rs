//! What is asked of lookups, and what comes of it where none of them fails: contracts that speak of
//! a forest hold for every forest that the lookups tell, and nothing fails without a cause.

use crate::error::Error;
use crate::history_blob::ChunkRef;
use crate::marf_below::below_failed;
use crate::marf_cow::{
    copy_failed, copy_of, cow_answers, cow_callable, cow_failed_on_way, cow_walk_failed, walked,
    CowStore,
};
use crate::marf_heights::{
    block_callable, block_failed, height_answers, height_callable, height_failed,
    HeightStore,
};
use crate::marf_leaves::nodes_from;
use crate::marf_walk::{
    answers, callable, failed_on_way, lookup_failed, step_at, MarfStore, OpenedBlock, StoredNode,
};
use crate::model::NodeModel;
use crate::orphan_closure::{
    closure_failed, long_enough, reached, AncestryStore, TrieStorageLocation,
};
use crate::hot_reclaim::RetainedOrphanRow;
use crate::ptr::TriePtr;
use crate::trie_file::{at_most, read_failed, reads_from};
use crate::trie_ram::{export_failed, serves, BlobTable};
use crate::value::{zero_from, MARFValue, MarfTrieId};
use vstd::prelude::*;

verus! {

// ---------------------------------------------------------------------------------------
// Lookups in tries
// ---------------------------------------------------------------------------------------
/// Lookups answer from any forest that holds what they give, and can be called where each of them
/// can.
pub proof fn law_lookups_answer<
    T: MarfTrieId,
    N: Fn(&T, &TriePtr) -> Result<StoredNode, Error>,
    B: Fn(u32) -> Result<T, Error>,
    S: Fn(&T, u32) -> Option<u32>,
    V: Fn(&T, &ChunkRef, u32) -> Result<Option<MARFValue>, Error>,
>(read_node: N, block_of: B, snapshot_height: S, value_at_height: V, st: MarfStore<T>)
    requires
        forall|block: T, ptr: TriePtr, n: StoredNode| #[trigger]
            read_node.ensures((&block, &ptr), Ok(n)) ==> (st.node)(block, ptr) == n,
        forall|id: u32, block: T| #[trigger]
            block_of.ensures((id,), Ok(block)) ==> (st.block)(id) == block,
        forall|block: T, id: u32, h: Option<u32>| #[trigger]
            snapshot_height.ensures((&block, id), h) ==> (st.snapshot)(block, id) == h,
        forall|block: T, chunk: ChunkRef, h: u32, v: Option<MARFValue>| #[trigger]
            value_at_height.ensures((&block, &chunk, h), Ok(v)) ==> (st.history)(block, chunk, h)
                == v,
    ensures
        answers(read_node, block_of, snapshot_height, value_at_height, st),
        nodes_from(read_node, block_of, st),
        (forall|block: T, ptr: TriePtr| read_node.requires((&block, &ptr))) && (forall|id: u32|
            block_of.requires((id,))) && (forall|block: T, id: u32|
            snapshot_height.requires((&block, id))) && (forall|block: T, chunk: ChunkRef, h: u32|
            value_at_height.requires((&block, &chunk, h))) ==> callable(
            read_node,
            block_of,
            snapshot_height,
            value_at_height,
        ),
{
}

proof fn lemma_way_has_cause<
    T: MarfTrieId,
    N: Fn(&T, &TriePtr) -> Result<StoredNode, Error>,
    B: Fn(u32) -> Result<T, Error>,
>(
    read_node: N,
    block_of: B,
    st: MarfStore<T>,
    path: Seq<u8>,
    index: int,
    block: T,
    ptr: TriePtr,
    fuel: nat,
    e: Error,
)
    requires
        forall|block: T, ptr: TriePtr| !#[trigger] read_node.ensures((&block, &ptr), Err(e)),
        forall|id: u32| !#[trigger] block_of.ensures((id,), Err(e)),
    ensures
        !failed_on_way(read_node, block_of, st, path, index, block, ptr, fuel, e),
    decreases fuel,
{
    if fuel > 0 {
        let s = step_at(st, path, index, block, ptr);
        match s.outcome {
            Ok(Some(p)) => {
                lemma_way_has_cause(
                    read_node,
                    block_of,
                    st,
                    path,
                    s.index,
                    block,
                    p,
                    (fuel - 1) as nat,
                    e,
                );
            },
            Err(crate::error::CursorError::BackptrEncountered(p)) => {
                lemma_way_has_cause(
                    read_node,
                    block_of,
                    st,
                    path,
                    s.index,
                    (st.block)(p.back_block),
                    p.spec_from_backptr(),
                    (fuel - 1) as nat,
                    e,
                );
            },
            _ => {},
        }
    }
}

/// Looking a key up, and reading what is below a pointer, fail with an error only if one of the
/// lookups does.
pub proof fn law_lookups_fail_with_a_cause<
    T: MarfTrieId,
    N: Fn(&T, &TriePtr) -> Result<StoredNode, Error>,
    B: Fn(u32) -> Result<T, Error>,
    V: Fn(&T, &ChunkRef, u32) -> Result<Option<MARFValue>, Error>,
>(
    read_node: N,
    block_of: B,
    value_at_height: V,
    st: MarfStore<T>,
    user: OpenedBlock<T>,
    root_ptr: TriePtr,
    path: Seq<u8>,
    e: Error,
)
    requires
        forall|block: T, ptr: TriePtr| !#[trigger] read_node.ensures((&block, &ptr), Err(e)),
        forall|id: u32| !#[trigger] block_of.ensures((id,), Err(e)),
        forall|block: T, chunk: ChunkRef, h: u32|
            !#[trigger] value_at_height.ensures((&block, &chunk, h), Err(e)),
    ensures
        !lookup_failed(read_node, block_of, value_at_height, st, user, root_ptr, path, e),
        !below_failed(read_node, block_of, st, (user.block_hash, root_ptr), e),
{
    lemma_way_has_cause(
        read_node,
        block_of,
        st,
        path,
        0,
        user.block_hash,
        root_ptr,
        path.len() + 1,
        e,
    );
}

// ---------------------------------------------------------------------------------------
// Copying
// ---------------------------------------------------------------------------------------
/// The lookups of a copying walk answer from any forest that holds what they give, and can be
/// called where each of them can.
pub proof fn law_copying_lookups_answer<
    T: MarfTrieId,
    N: Fn(&T, &TriePtr) -> Result<StoredNode, Error>,
    B: Fn(u32) -> Result<T, Error>,
    I: Fn(&T) -> Result<u32, Error>,
    H: Fn(&T) -> Option<u32>,
    V: Fn(&T, &ChunkRef, u32) -> Result<Option<MARFValue>, Error>,
    P: Fn(usize) -> Result<u32, Error>,
>(
    read_node: N,
    block_of: B,
    id_of: I,
    height_of: H,
    value_at_height: V,
    last_ptr: P,
    st: CowStore<T>,
)
    requires
        forall|block: T, ptr: TriePtr, n: StoredNode| #[trigger]
            read_node.ensures((&block, &ptr), Ok(n)) ==> (st.node)(block, ptr) == n,
        forall|id: u32, block: T| #[trigger]
            block_of.ensures((id,), Ok(block)) ==> (st.block)(id) == block,
        forall|block: T, id: u32| #[trigger]
            id_of.ensures((&block,), Ok(id)) ==> (st.id)(block) == id,
        forall|block: T, h: Option<u32>| #[trigger]
            height_of.ensures((&block,), h) ==> (st.height)(block) == h,
        forall|block: T, chunk: ChunkRef, h: u32, v: Option<MARFValue>| #[trigger]
            value_at_height.ensures((&block, &chunk, h), Ok(v)) ==> (st.history)(block, chunk, h)
                == v,
        forall|k: usize, p: u32| #[trigger]
            last_ptr.ensures((k,), Ok(p)) ==> (st.last_ptr)(k as nat) == p,
    ensures
        cow_answers(read_node, block_of, id_of, height_of, value_at_height, last_ptr, st),
        (forall|block: T, ptr: TriePtr| read_node.requires((&block, &ptr))) && (forall|id: u32|
            block_of.requires((id,))) && (forall|block: T| id_of.requires((&block,))) && (forall|
            block: T,
        | height_of.requires((&block,))) && (forall|block: T, chunk: ChunkRef, h: u32|
            value_at_height.requires((&block, &chunk, h))) && (forall|k: usize|
            last_ptr.requires((k,))) ==> cow_callable(
            read_node,
            block_of,
            id_of,
            height_of,
            value_at_height,
            last_ptr,
        ),
{
}

proof fn lemma_cow_has_cause<
    T: MarfTrieId,
    N: Fn(&T, &TriePtr) -> Result<StoredNode, Error>,
    B: Fn(u32) -> Result<T, Error>,
    I: Fn(&T) -> Result<u32, Error>,
    V: Fn(&T, &ChunkRef, u32) -> Result<Option<MARFValue>, Error>,
    P: Fn(usize) -> Result<u32, Error>,
>(
    read_node: N,
    block_of: B,
    id_of: I,
    value_at_height: V,
    last_ptr: P,
    st: CowStore<T>,
    path: Seq<u8>,
    index: int,
    block: T,
    node: NodeModel,
    k: nat,
    fuel: nat,
    e: Error,
)
    requires
        forall|block: T, ptr: TriePtr| !#[trigger] read_node.ensures((&block, &ptr), Err(e)),
        forall|id: u32| !#[trigger] block_of.ensures((id,), Err(e)),
        forall|block: T| !#[trigger] id_of.ensures((&block,), Err(e)),
        forall|block: T, chunk: ChunkRef, h: u32|
            !#[trigger] value_at_height.ensures((&block, &chunk, h), Err(e)),
        forall|k: usize| !#[trigger] last_ptr.ensures((k,), Err(e)),
    ensures
        !cow_failed_on_way(
            read_node,
            block_of,
            id_of,
            value_at_height,
            last_ptr,
            st,
            path,
            index,
            block,
            node,
            k,
            fuel,
            e,
        ),
    decreases fuel,
{
    if fuel > 0 {
        let s = crate::cursor::step(path, index, node.path, |c: u8| node.child(c));
        match s.outcome {
            Ok(Some(p)) => {
                lemma_cow_has_cause(
                    read_node,
                    block_of,
                    id_of,
                    value_at_height,
                    last_ptr,
                    st,
                    path,
                    s.index,
                    block,
                    walked((st.node)(block, p)),
                    k,
                    (fuel - 1) as nat,
                    e,
                );
            },
            Err(crate::error::CursorError::BackptrEncountered(p)) => {
                assert(!copy_failed(
                    read_node,
                    block_of,
                    id_of,
                    value_at_height,
                    last_ptr,
                    st,
                    p,
                    k,
                    e,
                ));
                if let Some(c) = copy_of(st, p, k) {
                    lemma_cow_has_cause(
                        read_node,
                        block_of,
                        id_of,
                        value_at_height,
                        last_ptr,
                        st,
                        path,
                        s.index,
                        block,
                        c.node,
                        k + 1,
                        (fuel - 1) as nat,
                        e,
                    );
                }
            },
            _ => {},
        }
    }
}

/// A copying walk, and the copy of one node, fail with an error only if one of the lookups does, or
/// for what the forest holds.
pub proof fn law_copying_fails_with_a_cause<
    T: MarfTrieId,
    N: Fn(&T, &TriePtr) -> Result<StoredNode, Error>,
    B: Fn(u32) -> Result<T, Error>,
    I: Fn(&T) -> Result<u32, Error>,
    V: Fn(&T, &ChunkRef, u32) -> Result<Option<MARFValue>, Error>,
    P: Fn(usize) -> Result<u32, Error>,
>(
    read_node: N,
    block_of: B,
    id_of: I,
    value_at_height: V,
    last_ptr: P,
    st: CowStore<T>,
    path: Seq<u8>,
    block: T,
    root_ptr: TriePtr,
    p: TriePtr,
    k: nat,
    e: Error,
)
    requires
        forall|block: T, ptr: TriePtr| !#[trigger] read_node.ensures((&block, &ptr), Err(e)),
        forall|id: u32| !#[trigger] block_of.ensures((id,), Err(e)),
        forall|block: T| !#[trigger] id_of.ensures((&block,), Err(e)),
        forall|block: T, chunk: ChunkRef, h: u32|
            !#[trigger] value_at_height.ensures((&block, &chunk, h), Err(e)),
        forall|k: usize| !#[trigger] last_ptr.ensures((k,), Err(e)),
    ensures
        !cow_walk_failed(
            read_node,
            block_of,
            id_of,
            value_at_height,
            last_ptr,
            st,
            path,
            block,
            root_ptr,
            e,
        ),
        !copy_failed(read_node, block_of, id_of, value_at_height, last_ptr, st, p, k, e),
{
    lemma_cow_has_cause(
        read_node,
        block_of,
        id_of,
        value_at_height,
        last_ptr,
        st,
        path,
        0,
        block,
        walked((st.node)(block, root_ptr)),
        0,
        33,
        e,
    );
}

// ---------------------------------------------------------------------------------------
// Heights
// ---------------------------------------------------------------------------------------
/// The lookups of heights answer from any forest that holds what they give, and can be called where
/// each of them can and gives values that hold a height, or a block, and nothing else.
pub proof fn law_height_lookups_answer<
    T: MarfTrieId,
    O: Fn(&T) -> Result<Option<u32>, Error>,
    G: Fn(&T, &str) -> Result<Option<MARFValue>, Error>,
>(squash_height: O, get: G, st: HeightStore<T>, block: T, current: T, height: u32)
    requires
        forall|t: T, h: Option<u32>| #[trigger]
            squash_height.ensures((&t,), Ok(h)) ==> (st.squash)(t) == h,
        forall|t: T| #[trigger]
            squash_height.ensures((&t,), Err(Error::NotFoundError)) ==> (st.squash)(t) is None,
        forall|t: T, key: &str, v: Option<MARFValue>| #[trigger]
            get.ensures((&t, key), Ok(v)) ==> (st.value)(t, key@) == v,
    ensures
        height_answers(squash_height, get, st),
        (forall|t: T| squash_height.requires((&t,))) && (forall|t: T, key: &str|
            get.requires((&t, key))) && (forall|t: T, key: &str, v: MARFValue| #[trigger]
            get.ensures((&t, key), Ok(Some(v))) ==> zero_from(v@, 4)) ==> height_callable(
            squash_height,
            get,
            block,
            current,
        ) && block_callable(squash_height, get, height, current),
{
}

/// Asking for the height of a block, or the block at a height, fails with an error only if one of
/// the lookups does.
pub proof fn law_height_lookups_fail_with_a_cause<
    T: MarfTrieId,
    O: Fn(&T) -> Result<Option<u32>, Error>,
    G: Fn(&T, &str) -> Result<Option<MARFValue>, Error>,
>(squash_height: O, get: G, st: HeightStore<T>, block: T, current: T, height: u32, e: Error)
    requires
        forall|t: T| !#[trigger] squash_height.ensures((&t,), Err(e)),
        forall|t: T, key: &str| !#[trigger] get.ensures((&t, key), Err(e)),
    ensures
        !height_failed(squash_height, get, st, block, current, e),
        !block_failed(squash_height, get, st, height, current, e),
{
}

// ---------------------------------------------------------------------------------------
// Lines of descent, files and exports
// ---------------------------------------------------------------------------------------
/// Lookups of parents and places answer from any store that holds what they give.
pub proof fn law_ancestry_lookups_answer<
    T: MarfTrieId,
    R: Fn(u32, u64) -> Result<Vec<u8>, Error>,
    L: Fn(&T) -> Result<TrieStorageLocation, Error>,
>(read_at: R, locate: L, st: AncestryStore<T>)
    requires
        forall|seq: u32, offset: u64, bytes: Vec<u8>|
            #[trigger] read_at.ensures((seq, offset), Ok(bytes)) && bytes@.len() >= 32
                ==> bytes@.take(32) == (st.parent)(seq, offset).id_bytes()@,
        forall|t: T, l: TrieStorageLocation|
            #[trigger] locate.ensures((&t,), Ok(l)) ==> (st.place)(t) == Some(l),
        forall|t: T|
            #[trigger] locate.ensures((&t,), Err(Error::NotFoundError)) ==> (st.place)(t) is None,
    ensures
        crate::orphan_closure::answers(read_at, locate, st),
{
}

/// Looking for ancestors fails only where a trie on the way is too short to be one, a read fails or
/// gives too few bytes, or the place of a parent cannot be told.
pub proof fn law_ancestry_fails_with_a_cause<
    T: MarfTrieId,
    R: Fn(u32, u64) -> Result<Vec<u8>, Error>,
    L: Fn(&T) -> Result<TrieStorageLocation, Error>,
>(read_at: R, locate: L, st: AncestryStore<T>, orphans: Seq<RetainedOrphanRow<T>>, e: Error)
    requires
        forall|row: (u32, u64, u64)| #[trigger] reached(st, orphans, row) ==> row.2 >= 36,
        forall|seq: u32, offset: u64| !#[trigger] read_at.ensures((seq, offset), Err(e)),
        forall|seq: u32, offset: u64, bytes: Vec<u8>| #[trigger]
            read_at.ensures((seq, offset), Ok(bytes)) ==> bytes@.len() >= 32,
        forall|t: T| !#[trigger] locate.ensures((&t,), Err(e)) || e is NotFoundError,
    ensures
        !closure_failed(read_at, locate, st, orphans, e),
{
}

/// All tries that are come to are long enough exactly if each has the hash of a parent and four
/// bytes more.
pub proof fn law_tries_are_long_enough<T: MarfTrieId>(
    st: AncestryStore<T>,
    orphans: Seq<RetainedOrphanRow<T>>,
)
    ensures
        long_enough(st, orphans) <==> forall|row: (u32, u64, u64)| #[trigger]
            reached(st, orphans, row) ==> row.2 >= 36,
{
}

/// A file reads some bytes exactly where each read gives the first of them; a read fails only with
/// an error of the file.
pub proof fn law_reads<R: Fn(usize, u64) -> Result<Vec<u8>, Error>>(
    read_at: R,
    offset: u64,
    data: Seq<u8>,
    n: int,
    e: Error,
)
    ensures
        (forall|n: usize, bytes: Vec<u8>| #[trigger]
            read_at.ensures((n, offset), Ok(bytes)) ==> bytes@ == at_most(data, n as int))
            ==> reads_from(read_at, offset, data),
        (forall|n: usize| !#[trigger] read_at.ensures((n, offset), Err(e))) ==> !read_failed(
            read_at,
            offset,
            e,
        ),
        0 <= n <= data.len() ==> at_most(data, n) == data.take(n),
        n > data.len() ==> at_most(data, n) == data,
{
    if n == data.len() {
        assert(data.take(n) =~= data);
    }
}

/// A database serves any table that holds what its lookups give, and an export ends with an error
/// only if one of them does.
pub proof fn law_export_lookups<
    U: Fn(u32) -> Result<bool, Error>,
    B: Fn(u32) -> Result<Vec<u8>, Error>,
>(is_unconfirmed: U, read_blob: B, table: BlobTable, id: u32, e: Error)
    ensures
        (forall|id: u32| #[trigger]
            is_unconfirmed.ensures((id,), Ok(true)) ==> !(table.confirmed)(id)) && (forall|id: u32|
            #[trigger]
            is_unconfirmed.ensures((id,), Err(Error::NotFoundError)) ==> !(table.confirmed)(id))
            && (forall|id: u32| #[trigger]
            is_unconfirmed.ensures((id,), Ok(false)) ==> (table.confirmed)(id)) && (forall|
            id: u32,
            bytes: Vec<u8>,
        | #[trigger]
            read_blob.ensures((id,), Ok(bytes)) ==> bytes@ == (table.blob)(id)) ==> serves(
            is_unconfirmed,
            read_blob,
            table,
        ),
        !is_unconfirmed.ensures((id,), Err(e)) && !read_blob.ensures((id,), Err(e))
            ==> !export_failed(is_unconfirmed, read_blob, id, e),
{
}

} // verus!
