//! Reconciling the history blob files in a directory with the recorded squash levels.
//!
//! A file is kept exactly if its full identity (level, height range, blob offset) belongs to a
//! level that is recorded as present; every other history blob file is an orphan and goes. A
//! level that is recorded as present and has no file is corruption.

use crate::error::Error;
use crate::history_blob::{opened, HistoryBlobReader};
use crate::history_names::{
    history_blob_path, is_history_blob_tmp_name, is_tmp_name, parse_history_blob_filename,
    parsed_name, BlobIdentity,
};
use crate::text::push_number;
use vstd::prelude::*;

verus! {

/// What is recorded of one level's history blob.
#[derive(Debug, Clone, Copy, PartialEq, Eq, Structural)]
pub struct ExpectedHistoryBlob {
    pub level_id: u32,
    pub min_height: u32,
    pub max_height: u32,
    pub blob_offset: u64,
    /// The file must be present and pass validation.
    pub present: bool,
    /// The file must be absent; a leftover is removed.
    pub trimmed: bool,
}

impl ExpectedHistoryBlob {
    /// The identity that the file of this level has.
    pub open spec fn identity(&self) -> BlobIdentity {
        (self.level_id, self.min_height, self.max_height, self.blob_offset)
    }

    /// Must the file of this level be there?
    pub open spec fn required(&self) -> bool {
        self.present && !self.trimmed
    }
}

/// Outcome of [`reconcile_history_blobs`].
#[derive(Debug, Clone, Copy, PartialEq, Eq, Structural)]
pub struct HistoryBlobReconcileReport {
    /// Number of files from unfinished writers that were removed.
    pub tmp_orphans_deleted: usize,
    /// Number of orphan history blob files that were removed.
    pub dat_orphans_deleted: usize,
    /// Number of history blob files that were kept.
    pub dat_kept: usize,
}

impl Default for HistoryBlobReconcileReport {
    fn default() -> (r: HistoryBlobReconcileReport)
        ensures
            r == (HistoryBlobReconcileReport {
                tmp_orphans_deleted: 0,
                dat_orphans_deleted: 0,
                dat_kept: 0,
            }),
    {
        HistoryBlobReconcileReport { tmp_orphans_deleted: 0, dat_orphans_deleted: 0, dat_kept: 0 }
    }
}

/// What is to become of a history blob file.
#[derive(Debug, Clone, Copy, PartialEq, Eq, Structural)]
pub enum HistoryBlobAction {
    /// Validate the file and keep it.
    Keep,
    /// Remove the file.
    Remove,
}

/// A history blob file that was found in the directory.
#[derive(Debug, Clone, Copy)]
pub struct FoundHistoryBlob<'a> {
    pub identity: (u32, u32, u32, u64),
    /// Contents of a file to be kept. Not looked at for one to be removed.
    pub bytes: &'a [u8],
    /// Whether a file to be removed could be removed. Not looked at for one to be kept.
    pub removed: bool,
}

/// The last row that is recorded for `id`.
pub open spec fn row_for(expected: Seq<ExpectedHistoryBlob>, id: BlobIdentity) -> Option<
    ExpectedHistoryBlob,
>
    decreases expected.len(),
{
    if expected.len() == 0 {
        None
    } else if expected.last().identity() == id {
        Some(expected.last())
    } else {
        row_for(expected.drop_last(), id)
    }
}

/// Is a file with this identity kept?
pub open spec fn keeps(expected: Seq<ExpectedHistoryBlob>, id: BlobIdentity) -> bool {
    row_for(expected, id) matches Some(e) && e.required()
}

/// Is every file that is kept a valid blob of its level?
pub open spec fn kept_valid(expected: Seq<ExpectedHistoryBlob>, files: Seq<FoundHistoryBlob>) -> bool {
    forall|i: int|
        0 <= i < files.len() && keeps(expected, (#[trigger] files[i]).identity) ==> opened(
            files[i].bytes@,
            Some(files[i].identity.0),
        ) is Some
}

/// Is there a kept file with identity `id`?
pub open spec fn has_kept(
    expected: Seq<ExpectedHistoryBlob>,
    files: Seq<FoundHistoryBlob>,
    id: BlobIdentity,
) -> bool {
    keeps(expected, id) && exists|i: int|
        0 <= i < files.len() && (#[trigger] files[i]).identity == id
}

/// Does every required row have its file among those kept?
pub open spec fn none_missing(expected: Seq<ExpectedHistoryBlob>, files: Seq<FoundHistoryBlob>) -> bool {
    forall|i: int|
        0 <= i < expected.len() && (#[trigger] expected[i]).required() ==> has_kept(
            expected,
            files,
            expected[i].identity(),
        )
}

/// How many of the flags are set.
pub open spec fn count_set(flags: Seq<bool>) -> nat
    decreases flags.len(),
{
    if flags.len() == 0 {
        0
    } else {
        count_set(flags.drop_last()) + if flags.last() {
            1nat
        } else {
            0
        }
    }
}

/// How many of the files are kept.
pub open spec fn count_kept(expected: Seq<ExpectedHistoryBlob>, files: Seq<FoundHistoryBlob>) -> nat
    decreases files.len(),
{
    if files.len() == 0 {
        0
    } else {
        count_kept(expected, files.drop_last()) + if keeps(expected, files.last().identity) {
            1nat
        } else {
            0
        }
    }
}

/// How many of the files are orphans that could be removed.
pub open spec fn count_removed(
    expected: Seq<ExpectedHistoryBlob>,
    files: Seq<FoundHistoryBlob>,
) -> nat
    decreases files.len(),
{
    if files.len() == 0 {
        0
    } else {
        count_removed(expected, files.drop_last()) + if !keeps(expected, files.last().identity)
            && files.last().removed {
            1nat
        } else {
            0
        }
    }
}

fn same_identity(a: (u32, u32, u32, u64), b: (u32, u32, u32, u64)) -> (r: bool)
    ensures
        r == (a == b),
{
    a.0 == b.0 && a.1 == b.1 && a.2 == b.2 && a.3 == b.3
}

/// What is to become of the history blob file with this identity. Where a level is recorded
/// more than once, the last row decides.
pub fn history_blob_action(
    expected: &[ExpectedHistoryBlob],
    identity: (u32, u32, u32, u64),
) -> (r: HistoryBlobAction)
    ensures
        r == (if keeps(expected@, identity) {
            HistoryBlobAction::Keep
        } else {
            HistoryBlobAction::Remove
        }),
{
    let mut i: usize = expected.len();
    assert(expected@.take(i as int) =~= expected@);
    while i > 0
        invariant
            i <= expected@.len(),
            row_for(expected@, identity) == row_for(expected@.take(i as int), identity),
        decreases i,
    {
        let e = &expected[i - 1];
        assert(expected@.take(i as int).drop_last() =~= expected@.take(i - 1));
        if same_identity((e.level_id, e.min_height, e.max_height, e.blob_offset), identity) {
            if e.present && !e.trimmed {
                return HistoryBlobAction::Keep;
            }
            return HistoryBlobAction::Remove;
        }
        i -= 1;
    }
    HistoryBlobAction::Remove
}

/// Is there a file with identity `id` among `files`?
fn is_found(files: &[FoundHistoryBlob<'_>], id: (u32, u32, u32, u64)) -> (r: bool)
    ensures
        r == exists|i: int| 0 <= i < files@.len() && (#[trigger] files@[i]).identity == id,
{
    let mut i: usize = 0;
    while i < files.len()
        invariant
            i <= files@.len(),
            forall|j: int| 0 <= j < i ==> (#[trigger] files@[j]).identity != id,
        decreases files@.len() - i,
    {
        if same_identity(files[i].identity, id) {
            return true;
        }
        i += 1;
    }
    false
}

/// Reconcile the files of the directory `marf_dir` with the recorded levels.
///
/// `tmp_removed` tells of each file of an unfinished writer whether it could be removed, `files`
/// lists the history blob files in the order in which they were found. A kept file that is not a
/// valid blob of its level, or a present level whose file is not there, is corruption. A file
/// that merely looks like the missing one, with another height range, does not stand in for it.
pub fn reconcile_history_blobs(
    marf_dir: &str,
    tmp_removed: &[bool],
    files: &[FoundHistoryBlob<'_>],
    expected: &[ExpectedHistoryBlob],
) -> (r: Result<HistoryBlobReconcileReport, Error>)
    ensures
        r is Ok <==> kept_valid(expected@, files@) && none_missing(expected@, files@),
        r matches Ok(report) ==> {
            &&& report.tmp_orphans_deleted == count_set(tmp_removed@)
            &&& report.dat_kept == count_kept(expected@, files@)
            &&& report.dat_orphans_deleted == count_removed(expected@, files@)
        },
        r matches Err(e) ==> e is CorruptionError,
{
    let mut report = HistoryBlobReconcileReport::default();
    let mut i: usize = 0;
    while i < tmp_removed.len()
        invariant
            i <= tmp_removed@.len(),
            report.tmp_orphans_deleted == count_set(tmp_removed@.take(i as int)),
            report.tmp_orphans_deleted <= i,
            report.dat_kept == 0,
            report.dat_orphans_deleted == 0,
        decreases tmp_removed@.len() - i,
    {
        assert(tmp_removed@.take(i + 1).drop_last() =~= tmp_removed@.take(i as int));
        if tmp_removed[i] {
            report.tmp_orphans_deleted = report.tmp_orphans_deleted + 1;
        }
        i += 1;
    }
    assert(tmp_removed@.take(i as int) =~= tmp_removed@);
    i = 0;
    while i < files.len()
        invariant
            i <= files@.len(),
            report.tmp_orphans_deleted == count_set(tmp_removed@),
            report.dat_kept == count_kept(expected@, files@.take(i as int)),
            report.dat_orphans_deleted == count_removed(expected@, files@.take(i as int)),
            report.dat_kept <= i,
            report.dat_orphans_deleted <= i,
            forall|j: int|
                0 <= j < i && keeps(expected@, (#[trigger] files@[j]).identity) ==> opened(
                    files@[j].bytes@,
                    Some(files@[j].identity.0),
                ) is Some,
        decreases files@.len() - i,
    {
        assert(files@.take(i + 1).drop_last() =~= files@.take(i as int));
        let file = &files[i];
        match history_blob_action(expected, file.identity) {
            HistoryBlobAction::Keep => {
                if let Err(e) = HistoryBlobReader::open(file.bytes, Some(file.identity.0)) {
                    return Err(e);
                }
                report.dat_kept = report.dat_kept + 1;
            },
            HistoryBlobAction::Remove => {
                if file.removed {
                    report.dat_orphans_deleted = report.dat_orphans_deleted + 1;
                }
            },
        }
        i += 1;
    }
    assert(files@.take(i as int) =~= files@);
    i = 0;
    while i < expected.len()
        invariant
            i <= expected@.len(),
            forall|j: int|
                0 <= j < i && (#[trigger] expected@[j]).required() ==> has_kept(
                    expected@,
                    files@,
                    expected@[j].identity(),
                ),
        decreases expected@.len() - i,
    {
        let e = &expected[i];
        if e.present && !e.trimmed {
            let id = (e.level_id, e.min_height, e.max_height, e.blob_offset);
            let kept = history_blob_action(expected, id) == HistoryBlobAction::Keep && is_found(
                files,
                id,
            );
            if !kept {
                assert(!has_kept(expected@, files@, expected@[i as int].identity()));
                let path = history_blob_path(
                    marf_dir,
                    e.level_id,
                    e.min_height,
                    e.max_height,
                    e.blob_offset,
                );
                let mut m = "reconcile_history_blobs: SQL row says level_id=".to_owned();
                push_number(&mut m, e.level_id as u64, 10, 0);
                m.append(
                    " history_blob_state='present' but canonical history blob is missing at ",
                );
                m.append(path.as_str());
                return Err(Error::CorruptionError(m));
            }
        }
        i += 1;
    }
    Ok(report)
}

/// Which of the names in a directory are history blobs, with their identities, in order.
pub open spec fn blobs_among(names: Seq<String>) -> Seq<(int, BlobIdentity)>
    decreases names.len(),
{
    if names.len() == 0 {
        Seq::empty()
    } else {
        let before = blobs_among(names.drop_last());
        match parsed_name(names.last()@) {
            Some(id) => before.push((names.len() - 1, id)),
            None => before,
        }
    }
}

/// The history blobs among the names of a directory: the index of each with its identity.
pub fn enumerate_history_blobs(names: &[String]) -> (r: Vec<(usize, (u32, u32, u32, u64))>)
    ensures
        r@.len() == blobs_among(names@).len(),
        forall|i: int|
            0 <= i < r@.len() ==> (#[trigger] r@[i]).0 == blobs_among(names@)[i].0 && r@[i].1
                == blobs_among(names@)[i].1,
{
    let mut out: Vec<(usize, (u32, u32, u32, u64))> = Vec::new();
    let mut i: usize = 0;
    while i < names.len()
        invariant
            i <= names@.len(),
            out@.len() == blobs_among(names@.take(i as int)).len(),
            forall|j: int|
                0 <= j < out@.len() ==> (#[trigger] out@[j]).0 == blobs_among(
                    names@.take(i as int),
                )[j].0 && out@[j].1 == blobs_among(names@.take(i as int))[j].1,
        decreases names@.len() - i,
    {
        assert(names@.take(i + 1).drop_last() =~= names@.take(i as int));
        if let Some(id) = parse_history_blob_filename(names[i].as_str()) {
            out.push((i, id));
        }
        i += 1;
    }
    assert(names@.take(i as int) =~= names@);
    out
}

/// Which of the names in a directory belong to unfinished writers, in order.
pub open spec fn tmp_among(names: Seq<String>) -> Seq<int>
    decreases names.len(),
{
    if names.len() == 0 {
        Seq::empty()
    } else {
        let before = tmp_among(names.drop_last());
        if is_tmp_name(names.last()@) {
            before.push(names.len() - 1)
        } else {
            before
        }
    }
}

/// The files of unfinished writers among the names of a directory, by index.
pub fn enumerate_history_blob_tmp_files(names: &[String]) -> (r: Vec<usize>)
    ensures
        r@.len() == tmp_among(names@).len(),
        forall|i: int| 0 <= i < r@.len() ==> #[trigger] r@[i] == tmp_among(names@)[i],
{
    let mut out: Vec<usize> = Vec::new();
    let mut i: usize = 0;
    while i < names.len()
        invariant
            i <= names@.len(),
            out@.len() == tmp_among(names@.take(i as int)).len(),
            forall|j: int|
                0 <= j < out@.len() ==> #[trigger] out@[j] == tmp_among(names@.take(i as int))[j],
        decreases names@.len() - i,
    {
        assert(names@.take(i + 1).drop_last() =~= names@.take(i as int));
        if is_history_blob_tmp_name(names[i].as_str()) {
            out.push(i);
        }
        i += 1;
    }
    assert(names@.take(i as int) =~= names@);
    out
}

/// Once a directory is reconciled, every level that is recorded as present has a valid blob of
/// its own identity among the files that were kept.
pub proof fn law_present_levels_served(
    expected: Seq<ExpectedHistoryBlob>,
    files: Seq<FoundHistoryBlob>,
    row: int,
) -> (i: int)
    requires
        kept_valid(expected, files),
        none_missing(expected, files),
        0 <= row < expected.len(),
        expected[row].required(),
    ensures
        0 <= i < files.len(),
        files[i].identity == expected[row].identity(),
        keeps(expected, files[i].identity),
        opened(files[i].bytes@, Some(expected[row].level_id)) is Some,
{
    assert(has_kept(expected, files, expected[row].identity()));
    choose|i: int| 0 <= i < files.len() && (#[trigger] files[i]).identity == expected[row].identity()
}

} // verus!
