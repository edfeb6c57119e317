//! What is picked out of a list is picked for each of its items alone, and in the order of the list.

use crate::history_names::{is_tmp_name, parsed_name, BlobIdentity};
use crate::history_reconcile::{
    blobs_among, count_kept, count_removed, count_set, keeps, kept_valid, none_missing, row_for,
    tmp_among, ExpectedHistoryBlob, FoundHistoryBlob,
};
use crate::hot_file::{
    found_lens, hot_name_seq, hot_seqs_among, kept_rows, opened_lens, orphan_seqs,
};
use crate::hot_reclaim::HotFileTentativeVerdict;
use crate::hot_sweep::{lemma_next_advances, sweep_totals};
use crate::trie_ram::{exported, BlobTable};
use vstd::prelude::*;

verus! {

// ---------------------------------------------------------------------------------------
// Hot files
// ---------------------------------------------------------------------------------------
/// The hot files of a directory are those of its names that name one, in order.
pub proof fn law_hot_files_are_listed(stem: Seq<char>, names: Seq<String>)
    ensures
        hot_seqs_among(stem, names) == names.filter_map(|n: String| hot_name_seq(stem, n@)),
    decreases names.len(),
{
    let f = |n: String| hot_name_seq(stem, n@);
    if names.len() > 0 {
        law_hot_files_are_listed(stem, names.drop_last());
        let before = hot_seqs_among(stem, names.drop_last());
        if let Some(seq) = f(names.last()) {
            assert(before.push(seq) =~= before + seq![seq]);
        }
    } else {
        assert(hot_seqs_among(stem, names) =~= names.filter_map(f));
    }
}

/// The rows that are kept are those whose file is there, and the numbers that are given up those
/// of all others, each in order; so every row is either kept or given up.
pub proof fn law_rows_are_kept_or_given_up(referenced: Seq<(u32, u64)>, files: Map<u32, u64>)
    ensures
        kept_rows(referenced, files) == referenced.filter(
            |r: (u32, u64)| files.contains_key(r.0),
        ),
        orphan_seqs(referenced, files) == referenced.filter_map(
            |r: (u32, u64)|
                if files.contains_key(r.0) {
                    None
                } else {
                    Some(r.0)
                },
        ),
    decreases referenced.len(),
{
    let here = |r: (u32, u64)| files.contains_key(r.0);
    let gone = |r: (u32, u64)|
        if files.contains_key(r.0) {
            None
        } else {
            Some(r.0)
        };
    reveal(Seq::filter);
    if referenced.len() > 0 {
        let front = referenced.drop_last();
        law_rows_are_kept_or_given_up(front, files);
        assert(kept_rows(front, files) == front.filter(here));
        assert(orphan_seqs(front, files) == front.filter_map(gone));
        let before = orphan_seqs(front, files);
        let last = referenced.last().0;
        assert(before.push(last) =~= before + seq![last]);
    } else {
        assert(kept_rows(referenced, files) =~= referenced.filter(here));
        assert(orphan_seqs(referenced, files) =~= referenced.filter_map(gone));
    }
}

/// Each file that was found is known with the length that was found last, and no other file is;
/// but the active one, which is empty where it was not found.
pub proof fn law_found_files_are_opened(on_disk: Seq<(u32, u64)>, active_seq: u32, seq: u32, i: int)
    requires
        0 <= i < on_disk.len() ==> on_disk[i].0 == seq,
        0 <= i <= on_disk.len(),
        forall|j: int| i < j < on_disk.len() ==> (#[trigger] on_disk[j]).0 != seq,
        i == on_disk.len() ==> forall|j: int|
            0 <= j < on_disk.len() ==> (#[trigger] on_disk[j]).0 != seq,
    ensures
        i < on_disk.len() ==> found_lens(on_disk).contains_key(seq) && found_lens(on_disk)[seq]
            == on_disk[i].1,
        i == on_disk.len() ==> !found_lens(on_disk).contains_key(seq),
        i < on_disk.len() ==> opened_lens(on_disk, active_seq).contains_key(seq) && opened_lens(
            on_disk,
            active_seq,
        )[seq] == on_disk[i].1,
        i == on_disk.len() && seq == active_seq ==> opened_lens(on_disk, active_seq).contains_key(
            seq,
        ) && opened_lens(on_disk, active_seq)[seq] == 0,
        i == on_disk.len() && seq != active_seq ==> !opened_lens(on_disk, active_seq).contains_key(
            seq,
        ),
    decreases on_disk.len(),
{
    if on_disk.len() > 0 {
        let front = on_disk.drop_last();
        let n = front.len() as int;
        if i != n {
            let k = if i < n {
                i
            } else {
                n
            };
            assert(on_disk[n].0 != seq);
            assert forall|j: int| 0 <= j < front.len() implies front[j] == on_disk[j] by {}
            assert forall|j: int| k < j < front.len() implies (#[trigger] front[j]).0 != seq by {
                assert(on_disk[j].0 != seq);
            }
            if k == n {
                assert forall|j: int| 0 <= j < front.len() implies (#[trigger] front[j]).0 != seq by {
                    assert(on_disk[j].0 != seq);
                }
            }
            law_found_files_are_opened(front, active_seq, seq, k);
        }
    }
}

// ---------------------------------------------------------------------------------------
// History blobs
// ---------------------------------------------------------------------------------------
/// The history blobs of a directory are those of its names that name one, each with its place in
/// the list, in order.
pub proof fn law_history_blobs_are_listed(names: Seq<String>)
    ensures
        forall|i: int, id: BlobIdentity|
            0 <= i < names.len() && parsed_name((#[trigger] names[i])@) == Some(id)
                ==> #[trigger] blobs_among(names).contains((i, id)),
        forall|k: int|
            0 <= k < blobs_among(names).len() ==> {
                let (i, id) = #[trigger] blobs_among(names)[k];
                0 <= i < names.len() && parsed_name(names[i]@) == Some(id)
            },
        forall|k: int, l: int|
            0 <= k < l < blobs_among(names).len() ==> (#[trigger] blobs_among(names)[k]).0 < (
            #[trigger] blobs_among(names)[l]).0,
    decreases names.len(),
{
    let all = blobs_among(names);
    if names.len() > 0 {
        let front = names.drop_last();
        let n = front.len() as int;
        law_history_blobs_are_listed(front);
        let before = blobs_among(front);
        assert forall|i: int, id: BlobIdentity|
            0 <= i < names.len() && parsed_name((#[trigger] names[i])@) == Some(
                id,
            ) implies #[trigger] all.contains((i, id)) by {
            if i < n {
                assert(front[i] == names[i]);
                assert(before.contains((i, id)));
                let k = choose|k: int| 0 <= k < before.len() && before[k] == (i, id);
                assert(all[k] == (i, id));
            } else {
                assert(all[before.len() as int] == (i, id));
            }
        }
        assert forall|k: int| 0 <= k < all.len() implies {
            let (i, id) = #[trigger] all[k];
            0 <= i < names.len() && parsed_name(names[i]@) == Some(id)
        } by {
            if k < before.len() {
                assert(all[k] == before[k]);
                assert(front[before[k].0] == names[before[k].0]);
            }
        }
        assert forall|k: int, l: int| 0 <= k < l < all.len() implies (#[trigger] all[k]).0 < (
        #[trigger] all[l]).0 by {
            assert(all[k] == before[k]);
            if l < before.len() {
                assert(all[l] == before[l]);
            }
        }
    }
}

/// The files of unfinished writers in a directory are those of its names that name one, in order.
pub proof fn law_unfinished_blobs_are_listed(names: Seq<String>)
    ensures
        forall|i: int|
            0 <= i < names.len() && is_tmp_name((#[trigger] names[i])@) ==> tmp_among(
                names,
            ).contains(i),
        forall|k: int|
            0 <= k < tmp_among(names).len() ==> 0 <= #[trigger] tmp_among(names)[k] < names.len()
                && is_tmp_name(names[tmp_among(names)[k]]@),
        forall|k: int, l: int|
            0 <= k < l < tmp_among(names).len() ==> #[trigger] tmp_among(names)[k]
                < #[trigger] tmp_among(names)[l],
    decreases names.len(),
{
    let all = tmp_among(names);
    if names.len() > 0 {
        let front = names.drop_last();
        let n = front.len() as int;
        law_unfinished_blobs_are_listed(front);
        let before = tmp_among(front);
        assert forall|i: int|
            0 <= i < names.len() && is_tmp_name((#[trigger] names[i])@) implies all.contains(i) by {
            if i < n {
                assert(front[i] == names[i]);
                assert(before.contains(i));
                let k = choose|k: int| 0 <= k < before.len() && before[k] == i;
                assert(all[k] == i);
            } else {
                assert(all[before.len() as int] == i);
            }
        }
        assert forall|k: int| 0 <= k < all.len() implies 0 <= #[trigger] all[k] < names.len()
            && is_tmp_name(names[all[k]]@) by {
            if k < before.len() {
                assert(all[k] == before[k]);
                assert(front[before[k]] == names[before[k]]);
            }
        }
        assert forall|k: int, l: int| 0 <= k < l < all.len() implies #[trigger] all[k]
            < #[trigger] all[l] by {
            assert(all[k] == before[k]);
            if l < before.len() {
                assert(all[l] == before[l]);
            }
        }
    }
}

/// Is row `i` the last that is recorded for `id`?
pub open spec fn is_last_row(expected: Seq<ExpectedHistoryBlob>, id: BlobIdentity, i: int) -> bool {
    &&& 0 <= i < expected.len()
    &&& (expected[i].level_id, expected[i].min_height, expected[i].max_height, expected[i].blob_offset)
        == id
    &&& forall|j: int|
        i < j < expected.len() ==> ((#[trigger] expected[j]).level_id, expected[j].min_height, expected[j].max_height, expected[j].blob_offset)
            != id
}

proof fn lemma_row_for(expected: Seq<ExpectedHistoryBlob>, id: BlobIdentity) -> (i: int)
    ensures
        row_for(expected, id) is None ==> forall|j: int| !is_last_row(expected, id, j),
        row_for(expected, id) is Some ==> is_last_row(expected, id, i) && row_for(expected, id)
            == Some(expected[i]),
    decreases expected.len(),
{
    if expected.len() == 0 {
        0
    } else if expected.last().identity() == id {
        expected.len() - 1
    } else {
        let front = expected.drop_last();
        let i = lemma_row_for(front, id);
        if row_for(expected, id) is None {
            assert forall|j: int| !is_last_row(expected, id, j) by {
                if is_last_row(expected, id, j) {
                    assert(j < front.len());
                    assert forall|k: int| j < k < front.len() implies (
                    (#[trigger] front[k]).level_id, front[k].min_height, front[k].max_height, front[k].blob_offset)
                        != id by {
                        assert(front[k] == expected[k]);
                    }
                    assert(is_last_row(front, id, j));
                }
            }
        } else {
            assert forall|k: int| i < k < expected.len() implies (
            (#[trigger] expected[k]).level_id, expected[k].min_height, expected[k].max_height, expected[k].blob_offset)
                != id by {
                if k < front.len() {
                    assert(front[k] == expected[k]);
                }
            }
        }
        i
    }
}

/// A history blob file is kept exactly where the last row for its whole identity says that it is
/// present and was not trimmed.
pub proof fn law_last_row_decides(expected: Seq<ExpectedHistoryBlob>, id: BlobIdentity, i: int)
    ensures
        is_last_row(expected, id, i) ==> (keeps(expected, id) <==> expected[i].present
            && !expected[i].trimmed),
        (forall|j: int| !is_last_row(expected, id, j)) ==> !keeps(expected, id),
{
    let k = lemma_row_for(expected, id);
    if is_last_row(expected, id, i) {
        if i != k && row_for(expected, id) is Some {
            if i < k {
                assert(expected[k].identity() != id);
            } else {
                assert((expected[i].level_id, expected[i].min_height, expected[i].max_height, expected[i].blob_offset)
                    != id);
            }
        }
    }
}

/// What reconciling a directory counts is counted file by file.
pub proof fn law_reconciled_files_are_counted(
    expected: Seq<ExpectedHistoryBlob>,
    files: Seq<FoundHistoryBlob>,
    flags: Seq<bool>,
)
    ensures
        count_set(flags) == flags.filter(|b: bool| b).len(),
        count_kept(expected, files) == files.filter(
            |f: FoundHistoryBlob| keeps(expected, f.identity),
        ).len(),
        count_removed(expected, files) == files.filter(
            |f: FoundHistoryBlob| !keeps(expected, f.identity) && f.removed,
        ).len(),
    decreases files.len(), flags.len(),
{
    reveal(Seq::filter);
    let kept = |f: FoundHistoryBlob| keeps(expected, f.identity);
    let removed = |f: FoundHistoryBlob| !keeps(expected, f.identity) && f.removed;
    lemma_count_set(flags);
    if files.len() > 0 {
        law_reconciled_files_are_counted(expected, files.drop_last(), flags);
        assert(files.drop_last().filter(kept).len() == count_kept(expected, files.drop_last()));
        assert(files.drop_last().filter(removed).len() == count_removed(
            expected,
            files.drop_last(),
        ));
    } else {
        assert(files.filter(kept).len() == 0);
        assert(files.filter(removed).len() == 0);
    }
}

proof fn lemma_count_set(flags: Seq<bool>)
    ensures
        count_set(flags) == flags.filter(|b: bool| b).len(),
    decreases flags.len(),
{
    reveal(Seq::filter);
    let is_set = |b: bool| b;
    if flags.len() > 0 {
        lemma_count_set(flags.drop_last());
        assert(flags.drop_last().filter(is_set).len() == count_set(flags.drop_last()));
    } else {
        assert(flags.filter(is_set).len() == 0);
    }
}

/// Is every file whose last row says that its level is present a valid blob of that level?
pub open spec fn present_files_valid(
    expected: Seq<ExpectedHistoryBlob>,
    files: Seq<FoundHistoryBlob>,
) -> bool {
    forall|i: int, f: int|
        0 <= f < files.len() && is_last_row(expected, #[trigger] files[f].identity, i) && (
        #[trigger] expected[i]).present && !expected[i].trimmed ==> crate::history_blob::opened(
            files[f].bytes@,
            Some(files[f].identity.0),
        ) is Some
}

/// Is there a file for row `i`, and does the last row for its level say that it is present, too?
pub open spec fn row_served(
    expected: Seq<ExpectedHistoryBlob>,
    files: Seq<FoundHistoryBlob>,
    i: int,
) -> bool {
    let e = expected[i];
    let id = (e.level_id, e.min_height, e.max_height, e.blob_offset);
    &&& exists|f: int| 0 <= f < files.len() && (#[trigger] files[f]).identity == id
    &&& exists|l: int| #[trigger]
        is_last_row(expected, id, l) && expected[l].present && !expected[l].trimmed
}

/// A directory is in order exactly if each file that is to be kept is a valid blob of its level, and
/// each level that a row says is present has a file with its whole identity that is to be kept.
pub proof fn law_reconciled(expected: Seq<ExpectedHistoryBlob>, files: Seq<FoundHistoryBlob>)
    ensures
        kept_valid(expected, files) && none_missing(expected, files) <==> present_files_valid(
            expected,
            files,
        ) && forall|i: int|
            0 <= i < expected.len() && (#[trigger] expected[i]).present && !expected[i].trimmed
                ==> row_served(expected, files, i),
{
    let served = forall|i: int|
        0 <= i < expected.len() && (#[trigger] expected[i]).present && !expected[i].trimmed
            ==> row_served(expected, files, i);
    if kept_valid(expected, files) && none_missing(expected, files) {
        assert forall|i: int, f: int|
            0 <= f < files.len() && is_last_row(expected, #[trigger] files[f].identity, i) && (
            #[trigger] expected[i]).present && !expected[i].trimmed implies crate::history_blob::opened(
            files[f].bytes@,
            Some(files[f].identity.0),
        ) is Some by {
            law_last_row_decides(expected, files[f].identity, i);
        }
        assert forall|i: int|
            0 <= i < expected.len() && (#[trigger] expected[i]).present
                && !expected[i].trimmed implies row_served(expected, files, i) by {
            let id = expected[i].identity();
            assert(expected[i].required());
            let f = crate::history_reconcile::law_present_levels_served(expected, files, i);
            assert(files[f].identity == id);
            let l = lemma_row_for(expected, id);
            assert(is_last_row(expected, id, l));
        }
    }
    if present_files_valid(expected, files) && served {
        assert forall|f: int|
            0 <= f < files.len() && keeps(
                expected,
                (#[trigger] files[f]).identity,
            ) implies crate::history_blob::opened(files[f].bytes@, Some(files[f].identity.0)) is Some by {
            let l = lemma_row_for(expected, files[f].identity);
            assert(expected[l].present);
        }
        assert forall|i: int|
            0 <= i < expected.len() && (#[trigger] expected[i]).required() implies crate::history_reconcile::has_kept(
            expected,
            files,
            expected[i].identity(),
        ) by {
            assert(row_served(expected, files, i));
            let id = expected[i].identity();
            let l = choose|l: int| #[trigger]
                is_last_row(expected, id, l) && expected[l].present && !expected[l].trimmed;
            law_last_row_decides(expected, id, l);
        }
    }
}

// ---------------------------------------------------------------------------------------
// The sweep
// ---------------------------------------------------------------------------------------
/// The files from `at` to `stop` that hold no ancestor of a retained orphan, in order.
pub open spec fn handed_out(
    classified: Seq<(u32, HotFileTentativeVerdict)>,
    closure: Set<u32>,
    at: int,
    stop: int,
) -> Seq<u32> {
    classified.subrange(at, stop).filter_map(
        |c: (u32, HotFileTentativeVerdict)|
            if closure.contains(c.0) {
                None
            } else {
                Some(c.0)
            },
    )
}

proof fn lemma_filter_map_first<A, B>(s: Seq<A>, f: spec_fn(A) -> Option<B>)
    requires
        s.len() > 0,
    ensures
        s.filter_map(f) == match f(s[0]) {
            Some(b) => seq![b] + s.skip(1).filter_map(f),
            None => s.skip(1).filter_map(f),
        },
    decreases s.len(),
{
    reveal_with_fuel(Seq::filter_map, 2);
    if s.len() == 1 {
        assert(s.drop_last() =~= Seq::empty());
        assert(s.skip(1) =~= Seq::empty());
        assert(Seq::<A>::empty().filter_map(f) =~= Seq::empty());
        if let Some(b) = f(s[0]) {
            assert(s.filter_map(f) =~= seq![b]);
            assert(seq![b] + Seq::<B>::empty() =~= seq![b]);
        }
    } else {
        let front = s.drop_last();
        lemma_filter_map_first(front, f);
        assert(front.skip(1) =~= s.skip(1).drop_last());
        assert(front[0] == s[0]);
        assert(s.skip(1).last() == s.last());
        let rest = front.skip(1).filter_map(f);
        if let Some(b) = f(s[0]) {
            if let Some(c) = f(s.last()) {
                assert(seq![b] + rest + seq![c] =~= seq![b] + (rest + seq![c]));
            }
        }
    }
}

/// Every file before the first that must stay because of its rows is counted for what became of
/// it: as one that was unlinked, with its rows, as one that was deferred, or, where it holds an
/// ancestor of a retained orphan, as one that was blocked.
pub proof fn law_sweep_counts_each_file(
    classified: Seq<(u32, HotFileTentativeVerdict)>,
    closure: Set<u32>,
    at: int,
    stop: int,
    outcome: spec_fn(u32) -> Option<nat>,
)
    requires
        0 <= at <= stop <= classified.len(),
        forall|i: int|
            at <= i < stop ==> (#[trigger] classified[i]).1 == HotFileTentativeVerdict::Unlinkable,
        stop < classified.len() ==> classified[stop].1 != HotFileTentativeVerdict::Unlinkable,
    ensures
        ({
            let t = sweep_totals(classified, closure, at, outcome);
            let out = handed_out(classified, closure, at, stop);
            &&& t.unlinked == unlinked_among(out, outcome)
            &&& t.deferred == out.len() - unlinked_among(out, outcome)
            &&& t.blocked == stop - at - out.len()
            &&& t.rows_deleted == rows_among(out, outcome)
        }),
    decreases stop - at,
{
    let f = |c: (u32, HotFileTentativeVerdict)|
        if closure.contains(c.0) {
            None
        } else {
            Some(c.0)
        };
    let s = classified.subrange(at, stop);
    let out = handed_out(classified, closure, at, stop);
    if at < stop {
        law_sweep_counts_each_file(classified, closure, at + 1, stop, outcome);
        lemma_filter_map_first(s, f);
        assert(s.skip(1) =~= classified.subrange(at + 1, stop));
        let rest = handed_out(classified, closure, at + 1, stop);
        let seq = classified[at].0;
        assert(s[0] == classified[at]);
        if !closure.contains(seq) {
            assert(out == seq![seq] + rest);
            assert(out.skip(1) =~= rest);
            assert(out[0] == seq);
        } else {
            assert(out == rest);
            lemma_next_advances(classified, closure, at + 1);
        }
        lemma_next_advances(classified, closure, at);
    } else {
        assert(s =~= Seq::empty());
        assert(out =~= Seq::empty());
    }
}

/// How many of the files were unlinked.
pub open spec fn unlinked_among(files: Seq<u32>, outcome: spec_fn(u32) -> Option<nat>) -> nat
    decreases files.len(),
{
    if files.len() == 0 {
        0
    } else {
        unlinked_among(files.skip(1), outcome) + if outcome(files[0]) is Some {
            1nat
        } else {
            0
        }
    }
}

/// How many rows were deleted with the files.
pub open spec fn rows_among(files: Seq<u32>, outcome: spec_fn(u32) -> Option<nat>) -> nat
    decreases files.len(),
{
    if files.len() == 0 {
        0
    } else {
        rows_among(files.skip(1), outcome) + match outcome(files[0]) {
            Some(rows) => rows,
            None => 0,
        }
    }
}

// ---------------------------------------------------------------------------------------
// The export
// ---------------------------------------------------------------------------------------
/// An export is packed: the first trie starts where the storage ended, each starts where the one
/// before it ends, and the storage ends with the last; and blocks come in the order of their
/// numbers.
pub proof fn law_export_is_packed(table: BlobTable, data: Seq<u8>, n: nat)
    requires
        n <= 0x1_0000_0000,
        exported(table, data, n).0.len() <= u64::MAX,
    ensures
        ({
            let (now, rows) = exported(table, data, n);
            &&& rows.len() == 0 ==> now == data
            &&& rows.len() > 0 ==> rows[0].offset == data.len() && rows.last().offset
                + rows.last().length == now.len()
            &&& forall|i: int|
                0 < i < rows.len() ==> (#[trigger] rows[i]).offset == rows[i - 1].offset + rows[i
                    - 1].length && rows[i - 1].block_id < rows[i].block_id
            &&& rows.len() > 0 ==> rows.last().block_id < n
        }),
    decreases n,
{
    if n > 0 {
        let (before, had) = exported(table, data, (n - 1) as nat);
        law_export_is_packed(table, data, (n - 1) as nat);
        let (now, rows) = exported(table, data, n);
        assert forall|i: int| 0 < i < rows.len() implies (#[trigger] rows[i]).offset == rows[i
            - 1].offset + rows[i - 1].length && rows[i - 1].block_id < rows[i].block_id by {
            if i < had.len() {
                assert(rows[i] == had[i]);
                assert(rows[i - 1] == had[i - 1]);
            } else {
                assert(rows[i - 1] == had.last());
            }
        }
    }
}

} // verus!
