//! What the results of lookups, reads and sweeps tell, where nothing fails.

use crate::cursor::{told, CursorModel, ReadTrieNodeCursorStep, StepModel, TrieCursorNode};
use crate::error::{CursorError, Error};
use crate::hash::TrieHash;
use crate::history_blob::ChunkRef;
use crate::hot_file::{committed_present, not_committed_to, HotFileSet};
use crate::hot_reclaim::{are_candidates, HotFileSweepCandidate, LiveHotRow};
use crate::hot_sweep::{
    adds_up, have_rows, height_failed, listing_failed, no_totals, tells_outcome, SweepStats,
    SweepTotals,
};
use crate::marf::{inserts, BatchInsert};
use crate::marf_below::Spot;
use crate::marf_leaves::{all_handled, refused_leaf, LeafModel};
use crate::marf_walk::{
    answers, is_value_of, lookup, lookup_failed, Lookup, MarfStore, OpenedBlock, StoredNode,
};
use crate::model::{indexes_valid, law_node_round_trip, NodeModel};
use crate::ptr::TriePtr;
use crate::read::BytesBacking;
use crate::trie_file::{read_failed, reads_from, told_by};
use crate::value::{MARFValue, MarfTrieId};
use vstd::prelude::*;

verus! {

/// The value of a key is that which a lookup finds, where no lookup fails: the value where it finds
/// one, none where it finds nothing, and corruption where the trie is broken.
pub proof fn law_get_gives_what_a_lookup_finds<
    T: MarfTrieId,
    N: Fn(&T, &TriePtr) -> Result<StoredNode, Error>,
    B: Fn(u32) -> Result<T, Error>,
    S: Fn(&T, u32) -> Option<u32>,
    V: Fn(&T, &ChunkRef, u32) -> Result<Option<MARFValue>, Error>,
>(
    user: OpenedBlock<T>,
    root_ptr: TriePtr,
    path: Seq<u8>,
    read_node: N,
    block_of: B,
    snapshot_height: S,
    value_at_height: V,
    st: MarfStore<T>,
    r: Result<Option<MARFValue>, Error>,
)
    requires
        is_value_of(
            user,
            root_ptr,
            path,
            read_node,
            block_of,
            snapshot_height,
            value_at_height,
            r,
        ),
        answers(read_node, block_of, snapshot_height, value_at_height, st),
        forall|e: Error|
            !#[trigger] lookup_failed(
                read_node,
                block_of,
                value_at_height,
                st,
                user,
                root_ptr,
                path,
                e,
            ),
    ensures
        match lookup(st, user, root_ptr, path) {
            Lookup::Found(_, v) => r == Ok::<Option<MARFValue>, Error>(Some(v)),
            Lookup::NotFound => r == Ok::<Option<MARFValue>, Error>(None),
            Lookup::Broken => r matches Err(e) && e is CorruptionError,
        },
{
}

/// What is read at a place of a file is what is expected of the bytes there: of those that are
/// mapped, or else of those that the file gives, where no read of it fails.
pub proof fn law_reading_tells_what_is_there<A, R: Fn(usize, u64) -> Result<Vec<u8>, Error>>(
    mapped: Option<Seq<u8>>,
    read_at: R,
    offset: u64,
    expected: spec_fn(Seq<u8>) -> Option<A>,
    r: Result<A, Error>,
    data: Seq<u8>,
)
    requires
        told_by(mapped, read_at, offset, expected, r),
        mapped is None ==> reads_from(read_at, offset, data) && forall|e: Error|
            !#[trigger] read_failed(read_at, offset, e),
        mapped is Some ==> data == mapped.unwrap(),
    ensures
        match expected(data) {
            Some(a) => r == Ok::<A, Error>(a),
            None => r matches Err(e) && e is CorruptionError,
        },
{
}

/// Bytes that hold a node spell it: borrowed ones with anything behind it, owned ones alone.
pub proof fn law_bytes_spell_the_node(node: BytesBacking<'_>, m: NodeModel, rest: Seq<u8>)
    requires
        m.shaped(),
        m.kind is Node48 ==> indexes_valid(m.ptrs, m.indexes),
        node.spec_node_type() == m.kind,
        node.spec_bytes() == m.bytes() + rest,
    ensures
        node is Borrowed ==> node.decoded() == Some(m),
        node is Owned ==> node.decoded() == if rest.len() == 0 {
            Some(m)
        } else {
            None
        },
{
    law_node_round_trip(m, rest);
}

/// A step leaves the cursor at the place that it came to, with the node behind it; where it leads to
/// a child, also with the pointer to that child and its block, and where it fails, with the error.
pub proof fn law_cursor_steps<T: MarfTrieId>(
    c: CursorModel<T>,
    s: StepModel,
    entry: TrieCursorNode<T>,
    block: T,
    ptr: TriePtr,
)
    ensures
        ({
            let n = c.stepped(s, entry, block);
            &&& n.path == c.path && n.index == s.index && n.node_path_index == s.node_path_index
            &&& n.nodes == c.nodes.push(entry)
            &&& s.outcome == Ok::<Option<TriePtr>, CursorError>(Some(ptr)) ==> n.node_ptrs
                == c.node_ptrs.push(ptr) && n.block_hashes == c.block_hashes.push(block)
                && n.last_error == c.last_error
            &&& s.outcome == Ok::<Option<TriePtr>, CursorError>(None) ==> n.node_ptrs
                == c.node_ptrs && n.block_hashes == c.block_hashes && n.last_error == c.last_error
            &&& s.outcome matches Err(e) ==> n.node_ptrs == c.node_ptrs && n.block_hashes
                == c.block_hashes && n.last_error == Some(e)
        }),
        ({
            let n = c.landed(ptr, block);
            &&& n.path == c.path && n.index == c.index && n.node_path_index == c.node_path_index
            &&& n.nodes == c.nodes
            &&& n.node_ptrs == c.node_ptrs.push(ptr)
            &&& n.block_hashes == c.block_hashes.push(block)
            &&& n.last_error is None
        }),
        told(Ok(Some(ptr)), true) == ReadTrieNodeCursorStep::Next(ptr),
        told(Ok(Some(ptr)), false) == ReadTrieNodeCursorStep::Next(ptr),
        told(Ok(None), true) == (ReadTrieNodeCursorStep::EndOfPath { is_leaf: true }),
        told(Ok(None), false) == (ReadTrieNodeCursorStep::EndOfPath { is_leaf: false }),
        forall|leaf: bool|
            #[trigger] told(Err(CursorError::PathDiverged), leaf)
                == ReadTrieNodeCursorStep::Diverged,
        forall|leaf: bool|
            #[trigger] told(Err(CursorError::ChrNotFound), leaf)
                == ReadTrieNodeCursorStep::ChrNotFound,
        forall|leaf: bool|
            #[trigger] told(Err(CursorError::BackptrEncountered(ptr)), leaf)
                == ReadTrieNodeCursorStep::FollowBackptr(ptr),
{
}

/// Every leaf that was taken was handed over, and a leaf is refused only where it was.
pub proof fn law_leaves_are_handed_over<T, F: Fn(TrieHash, MARFValue) -> Result<(), Error>>(
    handle_leaf: F,
    taken: Seq<(TrieHash, MARFValue)>,
    st: MarfStore<T>,
    root: Spot<T>,
    before: Seq<LeafModel>,
    e: Error,
)
    ensures
        all_handled(handle_leaf, taken) <==> forall|i: int|
            0 <= i < taken.len() ==> handle_leaf.ensures(
                ((#[trigger] taken[i]).0, taken[i].1),
                Ok(()),
            ),
        (forall|path: TrieHash, value: MARFValue|
            !#[trigger] handle_leaf.ensures((path, value), Err(e))) ==> !refused_leaf(
            handle_leaf,
            st,
            root,
            before,
            e,
        ),
{
}

/// An insertion goes to the path of its key, as a leaf with the value and no path of its own.
pub proof fn law_insertions(b: BatchInsert, key: Seq<char>, value: MARFValue, skiplist: bool)
    ensures
        inserts(b, key, value, skiplist) <==> b.path@ == crate::hash::sha512_256(
            vstd::utf8::encode_utf8(key),
        ) && b.leaf.path@.len() == 0 && b.leaf.data == value && b.update_skiplist == skiplist,
{
    if b.leaf.path@.len() == 0 {
        assert(b.leaf.path@ =~= Seq::<u8>::empty());
    }
}

// ---------------------------------------------------------------------------------------
// Hot files
// ---------------------------------------------------------------------------------------
/// What was committed is there exactly if every row has its file with at least as many bytes; it is
/// refused only for a row that does not.
pub proof fn law_committed(referenced: Seq<(u32, u64)>, files: Map<u32, u64>, e: Error)
    ensures
        committed_present(referenced, files) <==> forall|i: int|
            0 <= i < referenced.len() ==> files.contains_key((#[trigger] referenced[i]).0)
                && files[referenced[i].0] >= referenced[i].1,
        not_committed_to(referenced, files, e) ==> e is CorruptionError && exists|i: int|
            0 <= i < referenced.len() && !(files.contains_key((#[trigger] referenced[i]).0)
                && files[referenced[i].0] >= referenced[i].1),
{
}

/// The candidates of a sweep are all files but the active one, each once, in the order of their
/// numbers, and each with its own rows.
pub proof fn law_candidates<T: MarfTrieId, F: Fn(u32) -> Result<Vec<LiveHotRow<T>>, Error>>(
    set: HotFileSet,
    c: Seq<HotFileSweepCandidate<T>>,
    rows_of: F,
    seq: u32,
)
    requires
        are_candidates(set, c),
        have_rows(rows_of, c),
    ensures
        (exists|i: int| 0 <= i < c.len() && (#[trigger] c[i]).seq == seq) <==> set.lens().contains_key(
            seq,
        ) && seq != set.active_seq,
        forall|i: int, j: int|
            0 <= i < j < c.len() ==> (#[trigger] c[i]).seq < (#[trigger] c[j]).seq,
        forall|i: int|
            0 <= i < c.len() ==> rows_of.ensures(((#[trigger] c[i]).seq,), Ok(c[i].live_rows)),
{
}

/// A sweep is not prepared only where the rows of a file, or the height of one of them, cannot be
/// told.
pub proof fn law_sweep_fails_with_a_cause<
    T: MarfTrieId,
    F: Fn(u32) -> Result<Vec<LiveHotRow<T>>, Error>,
    H: Fn(&T) -> Result<Option<u32>, Error>,
>(
    set: HotFileSet,
    c: Seq<HotFileSweepCandidate<T>>,
    rows_of: F,
    height_lookup: H,
    e: Error,
)
    ensures
        (forall|seq: u32| !#[trigger] rows_of.ensures((seq,), Err(e))) ==> !listing_failed(
            set,
            rows_of,
            e,
        ),
        (forall|t: T| !#[trigger] height_lookup.ensures((&t,), Err(e))) ==> !height_failed(
            c,
            height_lookup,
            e,
        ),
{
}

/// What a sweep tells of itself are its totals, and the outcomes are those of its steps.
pub proof fn law_sweep_tells_its_totals<A: Fn(u32) -> Result<u64, Error>>(
    stats: SweepStats,
    all: SweepTotals,
    apply: A,
    outcome: spec_fn(u32) -> Option<nat>,
)
    ensures
        adds_up(stats, no_totals(), all) <==> stats.files_unlinked == all.unlinked
            && stats.files_deferred_for_quiesce == all.deferred && stats.files_blocked_by_closure
            == all.blocked && stats.files_retained_by_classifier == all.retained
            && stats.rows_deleted == all.rows_deleted,
        (forall|seq: u32, rows: u64| #[trigger]
            apply.ensures((seq,), Ok(rows)) ==> outcome(seq) == Some(rows as nat)) && (forall|
            seq: u32,
        | #[trigger]
            apply.ensures((seq,), Err(Error::InProgressError)) ==> outcome(seq) is None)
            ==> tells_outcome(apply, outcome),
{
}

} // verus!
