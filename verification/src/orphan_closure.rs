//! The hot files that hold ancestors of retained orphans.
//!
//! Every trie starts with the hash of its parent block. From each retained orphan the walk goes
//! from parent to parent, as long as the parent is itself stored in a hot file, and collects the
//! files it comes through. Those files must stay.

use crate::bytes::{array32, lemma_distinct_strings, lemma_push_unique, strings_of};
use crate::error::Error;
use crate::hot_reclaim::RetainedOrphanRow;
use crate::text::{number_text, push_number};
use crate::value::{same_id, MarfTrieId, SENTINEL_ARRAY};
use std::collections::HashSet;
use vstd::prelude::*;

verus! {

broadcast use vstd::std_specs::hash::group_hash_axioms;

/// Which zone a trie is stored in.
#[derive(Debug, Clone, Copy, PartialEq, Eq, Structural)]
pub enum StorageKind {
    Cold,
    Hot,
}

/// Where a trie is stored.
#[derive(Debug, Clone, Copy, PartialEq, Eq, Structural)]
pub struct TrieStorageLocation {
    pub kind: StorageKind,
    pub seq: u32,
    pub offset: u64,
    pub length: u64,
}

/// A trie is never shorter than the hash of its parent and four zero bytes.
pub const MIN_TRIE_BLOB_LEN: u64 = 36;

/// A trie in a hot file: file, offset and length.
pub type HotRow = (u32, u64, u64);

/// What is stored: the parent hash at the start of each trie in a hot file, and the place of
/// each block's trie.
#[verifier::reject_recursive_types(T)]
pub struct AncestryStore<T> {
    pub parent: spec_fn(u32, u64) -> T,
    pub place: spec_fn(T) -> Option<TrieStorageLocation>,
}

/// Does a walk stop at this parent? Two hashes stand for "no parent".
pub open spec fn no_parent(hash: Seq<u8>) -> bool {
    hash == Seq::new(32, |i: int| 0u8) || hash == SENTINEL_ARRAY@
}

/// The parent of a trie, where it is stored in a hot file too.
pub open spec fn parent_row<T: MarfTrieId>(st: AncestryStore<T>, row: HotRow) -> Option<HotRow> {
    let p = (st.parent)(row.0, row.1);
    if no_parent(p.id_bytes()@) {
        None
    } else {
        match (st.place)(p) {
            Some(l) => if l.kind == StorageKind::Hot {
                Some((l.seq, l.offset, l.length))
            } else {
                None
            },
            None => None,
        }
    }
}

/// The `k`-th ancestor of a trie, where all on the way are stored in hot files.
pub open spec fn ancestor<T: MarfTrieId>(st: AncestryStore<T>, row: HotRow, k: nat) -> Option<HotRow>
    decreases k,
{
    if k == 0 {
        Some(row)
    } else {
        match ancestor(st, row, (k - 1) as nat) {
            Some(r) => parent_row(st, r),
            None => None,
        }
    }
}

/// Where the trie of an orphan is.
pub open spec fn row_of<T: MarfTrieId>(o: RetainedOrphanRow<T>) -> HotRow {
    (o.seq, o.row.external_offset, o.row.external_length)
}

/// Is `row` the `k`-th ancestor of orphan `j`?
pub open spec fn comes_through<T: MarfTrieId>(
    st: AncestryStore<T>,
    orphans: Seq<RetainedOrphanRow<T>>,
    row: HotRow,
    j: int,
    k: nat,
) -> bool {
    0 <= j < orphans.len() && ancestor(st, row_of(orphans[j]), k) == Some(row)
}

/// Is `row` one of the orphans, or an ancestor of one?
pub open spec fn reached<T: MarfTrieId>(
    st: AncestryStore<T>,
    orphans: Seq<RetainedOrphanRow<T>>,
    row: HotRow,
) -> bool {
    exists|j: int, k: nat| comes_through(st, orphans, row, j, k)
}

/// Does file `seq` hold a proper ancestor of an orphan?
pub open spec fn holds_ancestor<T: MarfTrieId>(
    st: AncestryStore<T>,
    orphans: Seq<RetainedOrphanRow<T>>,
    seq: u32,
) -> bool {
    exists|row: HotRow, j: int, k: nat|
        k >= 1 && row.0 == seq && #[trigger] comes_through(st, orphans, row, j, k)
}

/// Do the two lookups answer from this store?
pub open spec fn answers<
    T: MarfTrieId,
    R: Fn(u32, u64) -> Result<Vec<u8>, Error>,
    L: Fn(&T) -> Result<TrieStorageLocation, Error>,
>(read_at: R, locate: L, st: AncestryStore<T>) -> bool {
    &&& forall|seq: u32, offset: u64, bytes: Vec<u8>|
        #[trigger] read_at.ensures((seq, offset), Ok(bytes)) && bytes@.len() >= 32
            ==> bytes@.take(32) == (st.parent)(seq, offset).id_bytes()@
    &&& forall|t: T, l: TrieStorageLocation|
        #[trigger] locate.ensures((&t,), Ok(l)) ==> (st.place)(t) == Some(l)
    &&& forall|t: T|
        #[trigger] locate.ensures((&t,), Err(Error::NotFoundError)) ==> (st.place)(t) is None
}

/// Are all tries that the walk comes through long enough to be tries?
pub open spec fn long_enough<T: MarfTrieId>(
    st: AncestryStore<T>,
    orphans: Seq<RetainedOrphanRow<T>>,
) -> bool {
    forall|row: HotRow| #[trigger] reached(st, orphans, row) ==> row.2 >= MIN_TRIE_BLOB_LEN
}

/// The message for a row that is too short to be a trie.
pub open spec fn short_row_message(row: HotRow) -> Seq<char> {
    "hot_reclaim closure: row at (seq="@ + number_text(row.0 as nat, 10, 0) + ", offset="@
        + number_text(row.1 as nat, 10, 0) + ") has length "@ + number_text(row.2 as nat, 10, 0)
        + " < 36; trie blob header (parent_hash + zero_id) would not fit"@
}

/// The message for a read that gave too few bytes.
pub open spec fn short_read_message(row: HotRow, n: nat) -> Seq<char> {
    "hot_reclaim closure: short read at (seq="@ + number_text(row.0 as nat, 10, 0) + ", offset="@
        + number_text(row.1 as nat, 10, 0) + "): got "@ + number_text(n, 10, 0) + " of 32 bytes"@
}

/// Is `e` what looking for the parent of `row` fails with: the row is too short to be a trie, the
/// read failed or gave too few bytes, or it could not be told where the parent is?
pub open spec fn step_failed<
    T: MarfTrieId,
    R: Fn(u32, u64) -> Result<Vec<u8>, Error>,
    L: Fn(&T) -> Result<TrieStorageLocation, Error>,
>(read_at: R, locate: L, st: AncestryStore<T>, row: HotRow, e: Error) -> bool {
    let p = (st.parent)(row.0, row.1);
    if row.2 < MIN_TRIE_BLOB_LEN {
        e matches Error::CorruptionError(m) && m@ == short_row_message(row)
    } else {
        ||| read_at.ensures((row.0, row.1), Err(e))
        ||| exists|bytes: Vec<u8>| #[trigger]
            read_at.ensures((row.0, row.1), Ok(bytes)) && bytes@.len() < 32 && (e
                matches Error::CorruptionError(m) && m@ == short_read_message(row, bytes@.len()))
        ||| !no_parent(p.id_bytes()@) && !(e is NotFoundError) && locate.ensures((&p,), Err(e))
    }
}

/// Is `e` what looking for the parent of an orphan, or of an ancestor of one, fails with?
pub open spec fn closure_failed<
    T: MarfTrieId,
    R: Fn(u32, u64) -> Result<Vec<u8>, Error>,
    L: Fn(&T) -> Result<TrieStorageLocation, Error>,
>(
    read_at: R,
    locate: L,
    st: AncestryStore<T>,
    orphans: Seq<RetainedOrphanRow<T>>,
    e: Error,
) -> bool {
    exists|row: HotRow| #[trigger]
        reached(st, orphans, row) && step_failed(read_at, locate, st, row, e)
}

/// Refuse a row that is too short to be a trie.
pub fn check_row_length(row: (u32, u64, u64)) -> (r: Result<(), Error>)
    ensures
        r is Ok <==> row.2 >= MIN_TRIE_BLOB_LEN,
        r matches Err(e) ==> (e matches Error::CorruptionError(m) && m@ == short_row_message(row)),
{
    if row.2 < MIN_TRIE_BLOB_LEN {
        let mut m = "hot_reclaim closure: row at (seq=".to_owned();
        push_number(&mut m, row.0 as u64, 10, 0);
        m.append(", offset=");
        push_number(&mut m, row.1, 10, 0);
        m.append(") has length ");
        push_number(&mut m, row.2, 10, 0);
        m.append(" < 36; trie blob header (parent_hash + zero_id) would not fit");
        return Err(Error::CorruptionError(m));
    }
    Ok(())
}

/// The parent hash at the start of a trie, of which `bytes` were read. `None` where it stands for
/// "no parent".
pub fn parent_from_bytes<T: MarfTrieId>(row: (u32, u64, u64), bytes: &[u8]) -> (r: Result<
    Option<T>,
    Error,
>)
    ensures
        match r {
            Ok(Some(p)) => bytes@.len() >= 32 && p.id_bytes()@ == bytes@.take(32) && !no_parent(
                bytes@.take(32),
            ),
            Ok(None) => bytes@.len() >= 32 && no_parent(bytes@.take(32)),
            Err(e) => bytes@.len() < 32 && (e matches Error::CorruptionError(m) && m@
                == short_read_message(row, bytes@.len())),
        },
{
    let n = bytes.len();
    if n < 32 {
        let mut m = "hot_reclaim closure: short read at (seq=".to_owned();
        push_number(&mut m, row.0 as u64, 10, 0);
        m.append(", offset=");
        push_number(&mut m, row.1, 10, 0);
        m.append("): got ");
        push_number(&mut m, n as u64, 10, 0);
        m.append(" of 32 bytes");
        return Err(Error::CorruptionError(m));
    }
    let head = vstd::slice::slice_subrange(bytes, 0, 32);
    assert(head@ =~= bytes@.take(32));
    let hash = array32(head);
    assert(hash@ =~= bytes@.take(32));
    if is_all(head, 0) {
        assert(hash@ =~= Seq::new(32, |i: int| 0u8));
        return Ok(None);
    }
    if is_all(head, 255) {
        assert(SENTINEL_ARRAY@ =~= Seq::new(32, |i: int| 255u8));
        assert(hash@ =~= SENTINEL_ARRAY@);
        return Ok(None);
    }
    proof {
        assert(SENTINEL_ARRAY@ =~= Seq::new(32, |i: int| 255u8));
        if no_parent(hash@) {
            if hash@ == SENTINEL_ARRAY@ {
                assert(forall|i: int| 0 <= i < head@.len() ==> head@[i] == 255);
            } else {
                assert(forall|i: int| 0 <= i < head@.len() ==> head@[i] == 0);
            }
        }
    }
    Ok(Some(T::from_bytes(hash)))
}

/// Is every byte `b`?
fn is_all(bytes: &[u8], b: u8) -> (r: bool)
    ensures
        r == forall|i: int| 0 <= i < bytes@.len() ==> bytes@[i] == b,
{
    let mut i: usize = 0;
    while i < bytes.len()
        invariant
            i <= bytes@.len(),
            forall|j: int| 0 <= j < i ==> bytes@[j] == b,
        decreases bytes@.len() - i,
    {
        if bytes[i] != b {
            return false;
        }
        i += 1;
    }
    true
}

/// Is `t` among `ids`?
fn is_among<T: MarfTrieId>(ids: &[T], t: &T) -> (r: bool)
    ensures
        r == ids@.contains(*t),
{
    let mut i: usize = 0;
    while i < ids.len()
        invariant
            i <= ids@.len(),
            forall|j: int| 0 <= j < i ==> ids@[j] != *t,
        decreases ids@.len() - i,
    {
        if same_id(&ids[i], t) {
            assert(ids@[i as int] == *t);
            return true;
        }
        i += 1;
    }
    false
}

// ---------------------------------------------------------------------------------------
// The walk
// ---------------------------------------------------------------------------------------
/// Has the walk looked at `row` and followed its parent?
spec fn followed<T: MarfTrieId>(st: AncestryStore<T>, visited: Seq<T>, row: HotRow) -> bool {
    let p = (st.parent)(row.0, row.1);
    row.2 >= MIN_TRIE_BLOB_LEN && (no_parent(p.id_bytes()@) || visited.contains(p))
}

/// What holds of the walk after `i` orphans were begun and `cur` is still to be looked at.
spec fn walk_inv<T: MarfTrieId>(
    st: AncestryStore<T>,
    orphans: Seq<RetainedOrphanRow<T>>,
    i: int,
    cur: Option<HotRow>,
    visited: Seq<T>,
    closure: Set<u32>,
) -> bool {
    &&& forall|s: u32| #[trigger] closure.contains(s) ==> holds_ancestor(st, orphans, s)
    &&& cur is Some ==> reached(st, orphans, cur.unwrap())
    &&& forall|v: int|
        0 <= v < visited.len() ==> {
            let p = #[trigger] visited[v];
            (st.place)(p) is Some && (st.place)(p).unwrap().kind == StorageKind::Hot ==> {
                let l = (st.place)(p).unwrap();
                let row: HotRow = (l.seq, l.offset, l.length);
                closure.contains(l.seq) && (cur == Some(row) || followed(st, visited, row))
            }
        }
    &&& forall|j: int|
        0 <= j < i && j < orphans.len() ==> cur == Some(row_of(#[trigger] orphans[j])) || followed(
            st,
            visited,
            row_of(orphans[j]),
        )
}

/// A step that found the parent of `cur` to be none, or visited before.
proof fn lemma_step_known<T: MarfTrieId>(
    st: AncestryStore<T>,
    orphans: Seq<RetainedOrphanRow<T>>,
    i: int,
    cur: HotRow,
    visited: Seq<T>,
    closure: Set<u32>,
)
    requires
        walk_inv(st, orphans, i, Some(cur), visited, closure),
        followed(st, visited, cur),
    ensures
        walk_inv(st, orphans, i, None, visited, closure),
{
}

/// A step that found a new parent.
proof fn lemma_step_new<T: MarfTrieId>(
    st: AncestryStore<T>,
    orphans: Seq<RetainedOrphanRow<T>>,
    i: int,
    cur: HotRow,
    visited: Seq<T>,
    closure: Set<u32>,
    p: T,
)
    requires
        walk_inv(st, orphans, i, Some(cur), visited, closure),
        p == (st.parent)(cur.0, cur.1),
        !no_parent(p.id_bytes()@),
        cur.2 >= MIN_TRIE_BLOB_LEN,
    ensures
        match parent_row(st, cur) {
            Some(row) => walk_inv(
                st,
                orphans,
                i,
                Some(row),
                visited.push(p),
                closure.insert(row.0),
            ),
            None => walk_inv(st, orphans, i, None, visited.push(p), closure),
        },
{
    let now = visited.push(p);
    assert(now[visited.len() as int] == p);
    assert(now.contains(p));
    assert forall|row: HotRow| followed(st, visited, row) implies followed(st, now, row) by {
        let q = (st.parent)(row.0, row.1);
        if visited.contains(q) {
            let k = choose|k: int| 0 <= k < visited.len() && visited[k] == q;
            assert(now[k] == q);
        }
    }
    assert(followed(st, now, cur));
    let next = parent_row(st, cur);
    let (j, k) = choose|j: int, k: nat| comes_through(st, orphans, cur, j, k);
    assert(ancestor(st, row_of(orphans[j]), k + 1) == next);
    if next is Some {
        assert(comes_through(st, orphans, next.unwrap(), j, k + 1));
        assert(holds_ancestor(st, orphans, next.unwrap().0));
    }
    let then_closure = match next {
        Some(row) => closure.insert(row.0),
        None => closure,
    };
    assert forall|v: int| 0 <= v < now.len() implies {
        let q = #[trigger] now[v];
        (st.place)(q) is Some && (st.place)(q).unwrap().kind == StorageKind::Hot ==> {
            let l = (st.place)(q).unwrap();
            let row: HotRow = (l.seq, l.offset, l.length);
            then_closure.contains(l.seq) && (next == Some(row) || followed(st, now, row))
        }
    } by {
        if v < visited.len() {
            assert(now[v] == visited[v]);
        }
    }
}

/// Starting with the next orphan.
proof fn lemma_begin<T: MarfTrieId>(
    st: AncestryStore<T>,
    orphans: Seq<RetainedOrphanRow<T>>,
    i: int,
    visited: Seq<T>,
    closure: Set<u32>,
)
    requires
        0 <= i < orphans.len(),
        walk_inv(st, orphans, i, None, visited, closure),
    ensures
        walk_inv(st, orphans, i + 1, Some(row_of(orphans[i])), visited, closure),
{
    assert(comes_through(st, orphans, row_of(orphans[i]), i, 0));
}

/// When the walk is over, every ancestor has been followed and its file collected.
proof fn lemma_complete<T: MarfTrieId>(
    st: AncestryStore<T>,
    orphans: Seq<RetainedOrphanRow<T>>,
    visited: Seq<T>,
    closure: Set<u32>,
    row: HotRow,
    j: int,
    k: nat,
)
    requires
        walk_inv(st, orphans, orphans.len() as int, None, visited, closure),
        comes_through(st, orphans, row, j, k),
    ensures
        followed(st, visited, row),
        k >= 1 ==> closure.contains(row.0),
    decreases k,
{
    if k > 0 {
        let before = ancestor(st, row_of(orphans[j]), (k - 1) as nat).unwrap();
        assert(comes_through(st, orphans, before, j, (k - 1) as nat));
        lemma_complete(st, orphans, visited, closure, before, j, (k - 1) as nat);
        let p = (st.parent)(before.0, before.1);
        let v = choose|v: int| 0 <= v < visited.len() && visited[v] == p;
        assert(visited[v] == p);
    }
}

/// There are only so many different identifiers.
proof fn lemma_ids_bounded<T: MarfTrieId>(ids: Seq<T>)
    requires
        ids.no_duplicates(),
    ensures
        ids.len() <= strings_of(32),
{
    let bytes = Seq::new(ids.len(), |i: int| ids[i].id_bytes()@);
    assert forall|i: int, j: int|
        0 <= i < bytes.len() && 0 <= j < bytes.len() && i != j implies bytes[i] != bytes[j] by {
        if bytes[i] == bytes[j] {
            T::lemma_id_bytes_determine(ids[i], ids[j]);
        }
    }
    lemma_distinct_strings(bytes, 32);
}

/// The hot files that hold a proper ancestor of a retained orphan.
///
/// `read_at` gives the bytes at the start of the trie at an offset of a hot file, `locate` the
/// place of a block's trie, with `NotFoundError` for a block that has none. A parent that is not
/// stored, or is in the cold zone, ends the walk. A row that is too short to be a trie, and a
/// short read, are corruption: it is better to fail than to miss an ancestor. Other errors of the
/// two lookups are passed on.
pub fn precompute_orphan_closure_seqs<
    T: MarfTrieId,
    R: Fn(u32, u64) -> Result<Vec<u8>, Error>,
    L: Fn(&T) -> Result<TrieStorageLocation, Error>,
>(retained_orphans: &[RetainedOrphanRow<T>], read_at: &R, locate: &L) -> (r: Result<
    HashSet<u32>,
    Error,
>)
    requires
        forall|seq: u32, offset: u64| read_at.requires((seq, offset)),
        forall|t: T| locate.requires((&t,)),
    ensures
        forall|st: AncestryStore<T>| #[trigger]
            answers(*read_at, *locate, st) ==> match r {
                Ok(closure) => {
                    &&& forall|s: u32| #[trigger]
                        closure@.contains(s) <==> holds_ancestor(st, retained_orphans@, s)
                    &&& long_enough(st, retained_orphans@)
                },
                Err(e) => closure_failed(*read_at, *locate, st, retained_orphans@, e),
            },
        retained_orphans@.len() == 0 ==> r is Ok,
{
    let ghost orphans = retained_orphans@;
    let mut closure: HashSet<u32> = HashSet::new();
    let mut visited: Vec<T> = Vec::new();
    let mut i: usize = 0;
    while i < retained_orphans.len()
        invariant
            forall|seq: u32, offset: u64| read_at.requires((seq, offset)),
            forall|t: T| locate.requires((&t,)),
            orphans == retained_orphans@,
            i <= orphans.len(),
            visited@.no_duplicates(),
            forall|st: AncestryStore<T>| #[trigger]
                answers(*read_at, *locate, st) ==> walk_inv(
                    st,
                    orphans,
                    i as int,
                    None,
                    visited@,
                    closure@,
                ),
        decreases orphans.len() - i,
    {
        let o = &retained_orphans[i];
        let mut cur: Option<(u32, u64, u64)> = Some(
            (o.seq, o.row.external_offset, o.row.external_length),
        );
        assert(cur == Some(row_of(orphans[i as int])));
        assert forall|st: AncestryStore<T>| #[trigger]
            answers(*read_at, *locate, st) implies walk_inv(
            st,
            orphans,
            i + 1,
            cur,
            visited@,
            closure@,
        ) by {
            lemma_begin(st, orphans, i as int, visited@, closure@);
        }
        i += 1;
        proof {
            lemma_ids_bounded(visited@);
        }
        while cur.is_some()
            invariant
                forall|seq: u32, offset: u64| read_at.requires((seq, offset)),
                forall|t: T| locate.requires((&t,)),
                orphans == retained_orphans@,
                0 < i <= orphans.len(),
                visited@.no_duplicates(),
                visited@.len() <= strings_of(32),
                forall|st: AncestryStore<T>| #[trigger]
                    answers(*read_at, *locate, st) ==> walk_inv(
                        st,
                        orphans,
                        i as int,
                        cur,
                        visited@,
                        closure@,
                    ),
            decreases
                    strings_of(32) - visited@.len(),
                    if cur is Some {
                        1int
                    } else {
                        0
                    },
        {
            let row = cur.unwrap();
            if let Err(e) = check_row_length(row) {
                assert forall|st: AncestryStore<T>| #[trigger]
                    answers(*read_at, *locate, st) implies closure_failed(
                    *read_at,
                    *locate,
                    st,
                    orphans,
                    e,
                ) by {
                    assert(reached(st, orphans, row) && step_failed(*read_at, *locate, st, row, e));
                }
                return Err(e);
            }
            let bytes = match read_at(row.0, row.1) {
                Ok(bytes) => bytes,
                Err(e) => {
                    assert forall|st: AncestryStore<T>| #[trigger]
                        answers(*read_at, *locate, st) implies closure_failed(
                        *read_at,
                        *locate,
                        st,
                        orphans,
                        e,
                    ) by {
                        assert(reached(st, orphans, row) && step_failed(*read_at, *locate, st, row, e));
                    }
                    return Err(e);
                },
            };
            let found: Option<T> = match parent_from_bytes(row, bytes.as_slice()) {
                Ok(found) => found,
                Err(e) => {
                    assert(read_at.ensures((row.0, row.1), Ok(bytes)));
                    assert forall|st: AncestryStore<T>| #[trigger]
                        answers(*read_at, *locate, st) implies closure_failed(
                        *read_at,
                        *locate,
                        st,
                        orphans,
                        e,
                    ) by {
                        assert(reached(st, orphans, row) && step_failed(*read_at, *locate, st, row, e));
                    }
                    return Err(e);
                },
            };
            let parent = match found {
                Some(p) => p,
                None => {
                    assert forall|st: AncestryStore<T>| #[trigger]
                        answers(*read_at, *locate, st) implies walk_inv(
                        st,
                        orphans,
                        i as int,
                        None,
                        visited@,
                        closure@,
                    ) by {
                        lemma_step_known(st, orphans, i as int, row, visited@, closure@);
                    }
                    cur = None;
                    continue ;
                },
            };
            assert forall|st: AncestryStore<T>| #[trigger]
                answers(*read_at, *locate, st) implies parent == (st.parent)(row.0, row.1) by {
                T::lemma_id_bytes_determine(parent, (st.parent)(row.0, row.1));
            }
            if is_among(visited.as_slice(), &parent) {
                assert forall|st: AncestryStore<T>| #[trigger]
                    answers(*read_at, *locate, st) implies walk_inv(
                    st,
                    orphans,
                    i as int,
                    None,
                    visited@,
                    closure@,
                ) by {
                    lemma_step_known(st, orphans, i as int, row, visited@, closure@);
                }
                cur = None;
                continue ;
            }
            let ghost seen = visited@;
            visited.push(parent);
            proof {
                lemma_push_unique(seen, parent);
                lemma_ids_bounded(visited@);
                assert forall|st: AncestryStore<T>| #[trigger]
                    answers(*read_at, *locate, st) implies match parent_row(st, row) {
                    Some(next) => walk_inv(
                        st,
                        orphans,
                        i as int,
                        Some(next),
                        visited@,
                        closure@.insert(next.0),
                    ),
                    None => walk_inv(st, orphans, i as int, None, visited@, closure@),
                } by {
                    lemma_step_new(st, orphans, i as int, row, seen, closure@, parent);
                }
            }
            match locate(&parent) {
                Ok(place) => match place.kind {
                    StorageKind::Cold => {
                        cur = None;
                    },
                    StorageKind::Hot => {
                        let _ = closure.insert(place.seq);
                        cur = Some((place.seq, place.offset, place.length));
                    },
                },
                Err(Error::NotFoundError) => {
                    cur = None;
                },
                Err(e) => {
                    assert(locate.ensures((&parent,), Err(e)));
                    assert forall|st: AncestryStore<T>| #[trigger]
                        answers(*read_at, *locate, st) implies closure_failed(
                        *read_at,
                        *locate,
                        st,
                        orphans,
                        e,
                    ) by {
                        assert(reached(st, orphans, row) && step_failed(*read_at, *locate, st, row, e));
                    }
                    return Err(e);
                },
            }
        }
    }
    assert forall|st: AncestryStore<T>| #[trigger]
        answers(*read_at, *locate, st) implies (forall|s: u32| #[trigger]
        closure@.contains(s) <==> holds_ancestor(st, orphans, s)) && long_enough(st, orphans) by {
        assert forall|row: HotRow| #[trigger] reached(st, orphans, row) implies row.2
            >= MIN_TRIE_BLOB_LEN by {
            let (j, k) = choose|j: int, k: nat| comes_through(st, orphans, row, j, k);
            lemma_complete(st, orphans, visited@, closure@, row, j, k);
        }
        assert forall|s: u32| #[trigger]
            closure@.contains(s) <==> holds_ancestor(st, orphans, s) by {
            if holds_ancestor(st, orphans, s) {
                let (row, j, k) = choose|row: HotRow, j: int, k: nat|
                    k >= 1 && row.0 == s && #[trigger] comes_through(st, orphans, row, j, k);
                lemma_complete(st, orphans, visited@, closure@, row, j, k);
            }
        }
    }
    Ok(closure)
}

} // verus!
