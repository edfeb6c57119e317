//! The sweep that reclaims hot files: classify every file, find out which hold ancestors of
//! retained orphans, and unlink what is left, oldest first.

use crate::error::{corruption_at, Error};
use crate::hot_file::{hot_path, HotFileSet};
use crate::hot_reclaim::{
    are_candidates, classify_hot_file_tentative, enumerate_hot_files_for_sweep, file_verdict,
    looked_up, retained_of, verdicts_of, HotFileSweepCandidate, HotFileTentativeVerdict,
    LiveHotRow, RetainedOrphanRow,
};
use crate::orphan_closure::{
    answers, closure_failed, holds_ancestor, long_enough, precompute_orphan_closure_seqs,
    AncestryStore, TrieStorageLocation,
};
use crate::text::number_text;
use crate::value::MarfTrieId;
use std::collections::{HashMap, HashSet};
use vstd::prelude::*;

verus! {

broadcast use vstd::std_specs::hash::group_hash_axioms;

// ---------------------------------------------------------------------------------------
// Unlinking one file
// ---------------------------------------------------------------------------------------
/// How long a writer waits for readers before it defers a file, in milliseconds.
pub const DEFAULT_APPLY_UNLINKABLE_QUIESCE_TIMEOUT_MS: u64 = 1_000;

/// The steps of unlinking one file, in order, and what may come of them.
#[derive(Debug, Clone, Copy, PartialEq, Eq, Structural)]
pub enum UnlinkStep {
    /// Raise the reader fence.
    RaiseFence,
    /// Wait until no reader is left.
    AwaitQuiesce,
    /// Delete the rows that reference the file.
    DeleteRows,
    /// Clear the reader fence.
    ClearFence,
    /// Drop the file from the set.
    DropEntry,
    /// Remove the file.
    RemoveFile,
    /// Clear the reader fence and give up.
    Abandon,
    /// Nothing is left to do: the file is gone.
    Done,
    /// Nothing is left to do: the first error is the outcome.
    Failed,
}

/// What follows a step that went well, or did not.
pub open spec fn next_unlink_step(step: UnlinkStep, ok: bool) -> UnlinkStep {
    match (step, ok) {
        (UnlinkStep::RaiseFence, true) => UnlinkStep::AwaitQuiesce,
        (UnlinkStep::AwaitQuiesce, true) => UnlinkStep::DeleteRows,
        (UnlinkStep::DeleteRows, true) => UnlinkStep::ClearFence,
        (UnlinkStep::ClearFence, true) => UnlinkStep::DropEntry,
        (UnlinkStep::DropEntry, true) => UnlinkStep::RemoveFile,
        (UnlinkStep::RemoveFile, true) => UnlinkStep::Done,
        (UnlinkStep::Done, _) => UnlinkStep::Done,
        (UnlinkStep::AwaitQuiesce, false) => UnlinkStep::Abandon,
        (UnlinkStep::DeleteRows, false) => UnlinkStep::Abandon,
        _ => UnlinkStep::Failed,
    }
}

impl UnlinkStep {
    /// What follows this step.
    pub fn next(self, ok: bool) -> (r: UnlinkStep)
        ensures
            r == next_unlink_step(self, ok),
    {
        match (self, ok) {
            (UnlinkStep::RaiseFence, true) => UnlinkStep::AwaitQuiesce,
            (UnlinkStep::AwaitQuiesce, true) => UnlinkStep::DeleteRows,
            (UnlinkStep::DeleteRows, true) => UnlinkStep::ClearFence,
            (UnlinkStep::ClearFence, true) => UnlinkStep::DropEntry,
            (UnlinkStep::DropEntry, true) => UnlinkStep::RemoveFile,
            (UnlinkStep::RemoveFile, true) => UnlinkStep::Done,
            (UnlinkStep::Done, _) => UnlinkStep::Done,
            (UnlinkStep::AwaitQuiesce, false) => UnlinkStep::Abandon,
            (UnlinkStep::DeleteRows, false) => UnlinkStep::Abandon,
            _ => UnlinkStep::Failed,
        }
    }
}

/// What has been done to one file.
pub struct UnlinkEffects {
    pub fence_raised: bool,
    pub rows_deleted: bool,
    pub entry_dropped: bool,
    pub file_removed: bool,
}

/// What a step does when it goes well. Giving up clears the fence whatever comes of it.
pub open spec fn step_effect(e: UnlinkEffects, step: UnlinkStep, ok: bool) -> UnlinkEffects {
    match step {
        UnlinkStep::RaiseFence => UnlinkEffects { fence_raised: ok, ..e },
        UnlinkStep::DeleteRows => UnlinkEffects { rows_deleted: ok, ..e },
        UnlinkStep::ClearFence => UnlinkEffects { fence_raised: !ok, ..e },
        UnlinkStep::Abandon => UnlinkEffects { fence_raised: false, ..e },
        UnlinkStep::DropEntry => UnlinkEffects { entry_dropped: ok, ..e },
        UnlinkStep::RemoveFile => UnlinkEffects { file_removed: ok, ..e },
        _ => e,
    }
}

/// The step and the effects after steps with these outcomes.
pub open spec fn unlink_run(outcomes: Seq<bool>) -> (UnlinkStep, UnlinkEffects)
    decreases outcomes.len(),
{
    if outcomes.len() == 0 {
        (
            UnlinkStep::RaiseFence,
            UnlinkEffects {
                fence_raised: false,
                rows_deleted: false,
                entry_dropped: false,
                file_removed: false,
            },
        )
    } else {
        let (step, effects) = unlink_run(outcomes.drop_last());
        (next_unlink_step(step, outcomes.last()), step_effect(effects, step, outcomes.last()))
    }
}

/// At every point of every run: a file is removed only after its rows are deleted and its entry
/// is dropped, so no row is ever left that points to a removed file; rows are deleted only while
/// the fence is up; and a run that is over has cleared the fence it raised, unless clearing it
/// failed.
pub proof fn law_unlink_order(outcomes: Seq<bool>)
    ensures
        ({
            let (step, e) = unlink_run(outcomes);
            &&& e.file_removed ==> e.rows_deleted && e.entry_dropped && step is Done
            &&& e.entry_dropped ==> e.rows_deleted
            &&& step is DeleteRows ==> e.fence_raised && !e.rows_deleted
            &&& step is RemoveFile ==> e.rows_deleted && e.entry_dropped && !e.fence_raised
            &&& step is Done ==> e.file_removed && !e.fence_raised
            &&& step is Failed && e.fence_raised ==> e.rows_deleted && !e.entry_dropped
            &&& step is Failed ==> !e.file_removed
        }),
    decreases outcomes.len(),
{
    lemma_unlink_state(outcomes);
}

/// What has been done is known from the step.
proof fn lemma_unlink_state(outcomes: Seq<bool>)
    ensures
        ({
            let (step, e) = unlink_run(outcomes);
            match step {
                UnlinkStep::RaiseFence => !e.fence_raised && !e.rows_deleted && !e.entry_dropped
                    && !e.file_removed,
                UnlinkStep::AwaitQuiesce | UnlinkStep::DeleteRows | UnlinkStep::Abandon =>
                    e.fence_raised && !e.rows_deleted && !e.entry_dropped && !e.file_removed,
                UnlinkStep::ClearFence => e.fence_raised && e.rows_deleted && !e.entry_dropped
                    && !e.file_removed,
                UnlinkStep::DropEntry => !e.fence_raised && e.rows_deleted && !e.entry_dropped
                    && !e.file_removed,
                UnlinkStep::RemoveFile => !e.fence_raised && e.rows_deleted && e.entry_dropped
                    && !e.file_removed,
                UnlinkStep::Done => !e.fence_raised && e.rows_deleted && e.entry_dropped
                    && e.file_removed,
                UnlinkStep::Failed => !e.file_removed && (e.entry_dropped ==> e.rows_deleted) && (
                e.fence_raised ==> e.rows_deleted && !e.entry_dropped),
            }
        }),
    decreases outcomes.len(),
{
    if outcomes.len() > 0 {
        lemma_unlink_state(outcomes.drop_last());
    }
}

/// A run of seven steps is over.
pub proof fn law_unlink_ends(outcomes: Seq<bool>)
    requires
        outcomes.len() >= 7,
    ensures
        unlink_run(outcomes).0 is Done || unlink_run(outcomes).0 is Failed,
{
    let a = outcomes.take(7);
    assert forall|k: int| 0 < k <= 7 implies #[trigger] outcomes.take(k).drop_last()
        == outcomes.take(k - 1) by {
        assert(outcomes.take(k).drop_last() =~= outcomes.take(k - 1));
    }
    reveal_with_fuel(unlink_run, 8);
    assert(unlink_run(outcomes.take(1)).0 is AwaitQuiesce || unlink_run(outcomes.take(1)).0
        is Failed);
    lemma_unlink_over(outcomes, 7);
    assert(outcomes.take(outcomes.len() as int) =~= outcomes);
}

proof fn lemma_unlink_over(outcomes: Seq<bool>, k: int)
    requires
        0 <= k <= outcomes.len(),
        unlink_run(outcomes.take(k)).0 is Done || unlink_run(outcomes.take(k)).0 is Failed,
    ensures
        unlink_run(outcomes).0 is Done || unlink_run(outcomes).0 is Failed,
    decreases outcomes.len() - k,
{
    if k == outcomes.len() {
        assert(outcomes.take(k) =~= outcomes);
    } else {
        assert(outcomes.take(k + 1).drop_last() =~= outcomes.take(k));
        lemma_unlink_over(outcomes, k + 1);
    }
}

/// A run whose first six steps all go well is done, and one in which a step before that does not is
/// never done.
pub proof fn law_unlink_is_done_if_all_goes_well(outcomes: Seq<bool>)
    ensures
        unlink_run(outcomes).0 is Done <==> outcomes.len() >= 6 && forall|k: int|
            0 <= k < 6 ==> outcomes[k],
{
    lemma_unlink_place(outcomes);
}

/// Where a run is, by how many of its steps went well.
proof fn lemma_unlink_place(outcomes: Seq<bool>)
    ensures
        ({
            let step = unlink_run(outcomes).0;
            let n = if outcomes.len() < 6 {
                outcomes.len() as int
            } else {
                6
            };
            if forall|k: int| 0 <= k < n ==> outcomes[k] {
                step == if n == 0 {
                    UnlinkStep::RaiseFence
                } else if n == 1 {
                    UnlinkStep::AwaitQuiesce
                } else if n == 2 {
                    UnlinkStep::DeleteRows
                } else if n == 3 {
                    UnlinkStep::ClearFence
                } else if n == 4 {
                    UnlinkStep::DropEntry
                } else if n == 5 {
                    UnlinkStep::RemoveFile
                } else {
                    UnlinkStep::Done
                }
            } else {
                step is Abandon || step is Failed
            }
        }),
    decreases outcomes.len(),
{
    if outcomes.len() > 0 {
        let front = outcomes.drop_last();
        lemma_unlink_place(front);
        let last = front.len() as int;
        assert(forall|k: int| 0 <= k < last ==> front[k] == outcomes[k]);
        let m = if last < 6 {
            last
        } else {
            6
        };
        let n = if outcomes.len() < 6 {
            outcomes.len() as int
        } else {
            6
        };
        if forall|k: int| 0 <= k < m ==> front[k] {
            if forall|k: int| 0 <= k < n ==> outcomes[k] {
                if last < 6 {
                    assert(outcomes[last]);
                }
            } else {
                let bad = choose|k: int| 0 <= k < n && !outcomes[k];
                if bad < m {
                    assert(front[bad]);
                }
                assert(bad == last);
            }
        } else {
            let bad = choose|k: int| 0 <= k < m && !front[k];
            assert(!outcomes[bad]);
        }
    }
}

/// Begin to unlink a file: its path, which is needed after its entry is gone. The active file is
/// refused, and so is one that is not in the set.
pub fn begin_unlink(hot_files: &HotFileSet, seq: u32) -> (r: Result<(String, UnlinkStep), Error>)
    requires
        hot_files.wf(),
    ensures
        match r {
            Ok((path, step)) => {
                &&& seq != hot_files.active_seq
                &&& hot_files.lens().contains_key(seq)
                &&& path@ == hot_path(hot_files.db_path@, seq)
                &&& step is RaiseFence
            },
            Err(e) => {
                &&& seq == hot_files.active_seq || !hot_files.lens().contains_key(seq)
                &&& e matches Error::CorruptionError(m) && m@ == if seq == hot_files.active_seq {
                    "hot_reclaim apply_unlinkable: refusing to unlink the active hot seq="@
                        + number_text(seq as nat, 10, 0)
                        + "; this is a sweep-routing bug — C1 enumeration must filter the active seq"@
                } else {
                    "hot_file: path_for_seq for seq="@ + number_text(seq as nat, 10, 0)
                        + " but file not in set"@
                }
            },
        },
{
    if seq == hot_files.active_seq() {
        return Err(
            corruption_at(
                "hot_reclaim apply_unlinkable: refusing to unlink the active hot seq=",
                seq as u64,
                "; this is a sweep-routing bug — C1 enumeration must filter the active seq",
            ),
        );
    }
    match hot_files.path_for_seq(seq) {
        Ok(path) => Ok((path.to_owned(), UnlinkStep::RaiseFence)),
        Err(e) => Err(e),
    }
}

// ---------------------------------------------------------------------------------------
// The sweep
// ---------------------------------------------------------------------------------------
/// What a sweep has done.
#[derive(Debug, Clone, Copy, PartialEq, Eq, Structural)]
pub struct SweepStats {
    /// Files that were unlinked.
    pub files_unlinked: u32,
    /// Rows that were deleted with them.
    pub rows_deleted: u64,
    /// Files that must stay because of their own rows. The sweep ends at the first.
    pub files_retained_by_classifier: u32,
    /// Files that must stay because they hold an ancestor of a retained orphan.
    pub files_blocked_by_closure: u32,
    /// Files that readers did not leave in time.
    pub files_deferred_for_quiesce: u32,
}

impl Default for SweepStats {
    fn default() -> (r: SweepStats)
        ensures
            r == no_stats(),
    {
        SweepStats {
            files_unlinked: 0,
            rows_deleted: 0,
            files_retained_by_classifier: 0,
            files_blocked_by_closure: 0,
            files_deferred_for_quiesce: 0,
        }
    }
}

/// A sweep that has done nothing.
pub open spec fn no_stats() -> SweepStats {
    SweepStats {
        files_unlinked: 0,
        rows_deleted: 0,
        files_retained_by_classifier: 0,
        files_blocked_by_closure: 0,
        files_deferred_for_quiesce: 0,
    }
}

impl SweepStats {
    /// Did the sweep unlink or delete anything?
    pub fn made_progress(&self) -> (r: bool)
        ensures
            r == (self.files_unlinked > 0 || self.rows_deleted > 0),
    {
        self.files_unlinked > 0 || self.rows_deleted > 0
    }

    /// Is there anything to tell of the sweep, be it only what held it up?
    pub fn is_noteworthy(&self) -> (r: bool)
        ensures
            r == (*self != no_stats()),
    {
        *self != SweepStats::default()
    }
}

/// Is `retained` and `verdict` what the rows of `candidate` amount to, with some heights that
/// `lookup` gave?
pub open spec fn classified_by<T: MarfTrieId, H: Fn(&T) -> Result<Option<u32>, Error>>(
    candidate: HotFileSweepCandidate<T>,
    canonical: Map<u32, T>,
    horizon: Option<u32>,
    lookup: H,
    verdict: HotFileTentativeVerdict,
    retained: Seq<RetainedOrphanRow<T>>,
) -> bool {
    exists|heights: Seq<Option<u32>>|
        {
            &&& #[trigger] looked_up(lookup, candidate.live_rows@, heights)
            &&& verdict == file_verdict(
                verdicts_of(candidate.live_rows@, canonical, horizon, heights),
            )
            &&& retained == retained_of(
                candidate.seq,
                candidate.live_rows@,
                canonical,
                horizon,
                heights,
            )
        }
}

/// All lists, one after the other.
pub open spec fn joined_lists<A>(lists: Seq<Seq<A>>) -> Seq<A>
    decreases lists.len(),
{
    if lists.len() == 0 {
        Seq::empty()
    } else {
        joined_lists(lists.drop_last()) + lists.last()
    }
}

/// A sweep that is under way.
#[derive(Debug)]
pub struct HotSweep {
    /// The files, oldest first, with what their rows say of them.
    pub classified: Vec<(u32, HotFileTentativeVerdict)>,
    /// The files that hold ancestors of retained orphans.
    pub closure: HashSet<u32>,
    /// How many files have been dealt with.
    pub at: usize,
    pub stats: SweepStats,
}

/// Where a sweep is.
#[verifier::ext_equal]
pub struct SweepModel {
    pub at: int,
    pub retained: int,
    pub blocked: int,
    pub file: Option<u32>,
}

/// The next file to unlink from position `at` on. Files that hold ancestors are passed over; the
/// first that must stay because of its rows ends the sweep.
pub open spec fn sweep_next(
    classified: Seq<(u32, HotFileTentativeVerdict)>,
    closure: Set<u32>,
    at: int,
) -> SweepModel
    decreases classified.len() - at,
{
    if at < 0 || at >= classified.len() {
        SweepModel { at, retained: 0, blocked: 0, file: None }
    } else if classified[at].1 != HotFileTentativeVerdict::Unlinkable {
        SweepModel { at: classified.len() as int, retained: 1, blocked: 0, file: None }
    } else if closure.contains(classified[at].0) {
        let m = sweep_next(classified, closure, at + 1);
        SweepModel { blocked: m.blocked + 1, ..m }
    } else {
        SweepModel { at: at + 1, retained: 0, blocked: 0, file: Some(classified[at].0) }
    }
}

impl HotSweep {
    /// Are the counts those of different files, and are there no more files than numbers for
    /// them?
    pub open spec fn wf(&self) -> bool {
        &&& self.classified@.len() <= u32::MAX
        &&& self.at <= self.classified@.len()
        &&& self.stats.files_unlinked + self.stats.files_deferred_for_quiesce
            + self.stats.files_blocked_by_closure + self.stats.files_retained_by_classifier
            <= self.at
    }

    /// A sweep over classified files.
    pub fn new(
        classified: Vec<(u32, HotFileTentativeVerdict)>,
        closure: HashSet<u32>,
    ) -> (r: HotSweep)
        requires
            classified@.len() <= u32::MAX,
        ensures
            r.wf(),
            r.classified == classified,
            r.closure == closure,
            r.at == 0,
            r.stats == no_stats(),
    {
        HotSweep { classified, closure, at: 0, stats: SweepStats::default() }
    }

    /// The next file to unlink, or `None` when the sweep is over.
    pub fn next_file(&mut self) -> (r: Option<u32>)
        requires
            old(self).wf(),
        ensures
            ({
                let m = sweep_next(old(self).classified@, old(self).closure@, old(self).at as int);
                &&& r == m.file
                &&& final(self).at == m.at
                &&& final(self).stats == SweepStats {
                    files_retained_by_classifier: (old(self).stats.files_retained_by_classifier
                        + m.retained) as u32,
                    files_blocked_by_closure: (old(self).stats.files_blocked_by_closure
                        + m.blocked) as u32,
                    ..old(self).stats
                }
            }),
            final(self).classified == old(self).classified,
            final(self).closure == old(self).closure,
            final(self).wf(),
            r is Some ==> final(self).stats.files_unlinked
                + final(self).stats.files_deferred_for_quiesce
                + final(self).stats.files_blocked_by_closure
                + final(self).stats.files_retained_by_classifier < final(self).at,
    {
        let ghost all = self.classified@;
        let ghost first = self.stats;
        let ghost m = sweep_next(all, self.closure@, self.at as int);
        let ghost mut passed: int = 0;
        while self.at < self.classified.len()
            invariant
                all == old(self).classified@,
                self.classified == old(self).classified,
                self.closure == old(self).closure,
                self.wf(),
                first == old(self).stats,
                m == sweep_next(old(self).classified@, old(self).closure@, old(self).at as int),
                0 <= passed,
                m == (SweepModel {
                    blocked: sweep_next(all, self.closure@, self.at as int).blocked + passed,
                    ..sweep_next(all, self.closure@, self.at as int)
                }),
                first.files_blocked_by_closure + passed <= u32::MAX,
                self.stats == (SweepStats {
                    files_blocked_by_closure: (first.files_blocked_by_closure + passed) as u32,
                    ..first
                }),
            decreases self.classified@.len() - self.at,
        {
            let (seq, verdict) = self.classified[self.at];
            match verdict {
                HotFileTentativeVerdict::NotUnlinkable { .. } => {
                    self.stats.files_retained_by_classifier =
                    self.stats.files_retained_by_classifier + 1;
                    self.at = self.classified.len();
                    return None;
                },
                HotFileTentativeVerdict::Unlinkable => {
                    self.at = self.at + 1;
                    if self.closure.contains(&seq) {
                        self.stats.files_blocked_by_closure = self.stats.files_blocked_by_closure
                            + 1;
                        proof {
                            passed = passed + 1;
                        }
                    } else {
                        return Some(seq);
                    }
                },
            }
        }
        None
    }

    /// The file that was handed out last has been dealt with. Readers that did not leave in time
    /// defer it to another sweep; any other error ends this one, and so does a count of rows that
    /// has no room.
    pub fn applied(&mut self, outcome: Result<u64, Error>) -> (r: Result<(), Error>)
        requires
            old(self).wf(),
            old(self).stats.files_unlinked + old(self).stats.files_deferred_for_quiesce + old(
                self,
            ).stats.files_blocked_by_closure + old(self).stats.files_retained_by_classifier < old(
                self,
            ).at,
        ensures
            final(self).wf(),
            final(self).classified == old(self).classified,
            final(self).closure == old(self).closure,
            final(self).at == old(self).at,
            match outcome {
                Ok(rows) => if old(self).stats.rows_deleted + rows > u64::MAX {
                    r == Err::<(), Error>(Error::OverflowError) && final(self).stats == old(
                        self,
                    ).stats
                } else {
                    r is Ok && final(self).stats == (SweepStats {
                        files_unlinked: (old(self).stats.files_unlinked + 1) as u32,
                        rows_deleted: (old(self).stats.rows_deleted + rows) as u64,
                        ..old(self).stats
                    })
                },
                Err(Error::InProgressError) => r is Ok && final(self).stats == (SweepStats {
                    files_deferred_for_quiesce: (old(self).stats.files_deferred_for_quiesce
                        + 1) as u32,
                    ..old(self).stats
                }),
                Err(e) => r == Err::<(), Error>(e) && final(self).stats == old(self).stats,
            },
    {
        match outcome {
            Ok(rows) => match self.stats.rows_deleted.checked_add(rows) {
                Some(sum) => {
                    self.stats.files_unlinked = self.stats.files_unlinked + 1;
                    self.stats.rows_deleted = sum;
                    Ok(())
                },
                None => Err(Error::OverflowError),
            },
            Err(Error::InProgressError) => {
                self.stats.files_deferred_for_quiesce = self.stats.files_deferred_for_quiesce + 1;
                Ok(())
            },
            Err(e) => Err(e),
        }
    }

    /// What the sweep has done.
    pub fn stats(&self) -> (r: SweepStats)
        ensures
            r == self.stats,
    {
        self.stats
    }
}

/// A file that a sweep hands out was classified as unlinkable and holds no ancestor of a retained
/// orphan, and so were, or did, all files before it.
pub proof fn law_swept_files_may_go(
    classified: Seq<(u32, HotFileTentativeVerdict)>,
    closure: Set<u32>,
    at: int,
)
    requires
        0 <= at <= classified.len(),
    ensures
        sweep_next(classified, closure, at).file matches Some(seq) ==> {
            let k = sweep_next(classified, closure, at).at - 1;
            &&& at <= k < classified.len()
            &&& classified[k] == (seq, HotFileTentativeVerdict::Unlinkable)
            &&& !closure.contains(seq)
            &&& forall|i: int|
                at <= i < k ==> (#[trigger] classified[i]).1 == HotFileTentativeVerdict::Unlinkable
                    && closure.contains(classified[i].0)
        },
    decreases classified.len() - at,
{
    if at < classified.len() {
        law_swept_files_may_go(classified, closure, at + 1);
    }
}

/// Nothing younger than the first file that must stay because of its rows is handed out.
pub proof fn law_sweep_stops_at_first_retained(
    classified: Seq<(u32, HotFileTentativeVerdict)>,
    closure: Set<u32>,
    at: int,
    stop: int,
)
    requires
        0 <= at <= stop < classified.len(),
        classified[stop].1 != HotFileTentativeVerdict::Unlinkable,
    ensures
        ({
            let m = sweep_next(classified, closure, at);
            &&& m.file is Some ==> m.at <= stop
            &&& m.file is None ==> m.at == classified.len() && m.retained == 1
        }),
    decreases classified.len() - at,
{
    if classified[at].1 == HotFileTentativeVerdict::Unlinkable {
        law_sweep_stops_at_first_retained(classified, closure, at + 1, stop);
    }
}

/// What a whole sweep has done.
pub struct SweepTotals {
    pub unlinked: nat,
    pub deferred: nat,
    pub blocked: nat,
    pub retained: nat,
    pub rows_deleted: nat,
}

/// What a sweep from position `at` on does. `outcome` gives for each file how many rows were deleted
/// with it, or `None` where its readers did not leave in time.
pub open spec fn sweep_totals(
    classified: Seq<(u32, HotFileTentativeVerdict)>,
    closure: Set<u32>,
    at: int,
    outcome: spec_fn(u32) -> Option<nat>,
) -> SweepTotals
    decreases classified.len() - at,
    when 0 <= at <= classified.len()
{
    let m = sweep_next(classified, closure, at);
    match m.file {
        None => SweepTotals {
            unlinked: 0,
            deferred: 0,
            blocked: m.blocked as nat,
            retained: m.retained as nat,
            rows_deleted: 0,
        },
        Some(seq) => if at < m.at <= classified.len() {
            let then = sweep_totals(classified, closure, m.at, outcome);
            let blocked = (then.blocked + m.blocked) as nat;
            match outcome(seq) {
                Some(rows) => SweepTotals {
                    unlinked: then.unlinked + 1,
                    blocked,
                    rows_deleted: then.rows_deleted + rows,
                    ..then
                },
                None => SweepTotals { deferred: then.deferred + 1, blocked, ..then },
            }
        } else {
            arbitrary()
        },
    }
}

/// Does `apply` end like this, for every file?
pub open spec fn tells_outcome<A: Fn(u32) -> Result<u64, Error>>(
    apply: A,
    outcome: spec_fn(u32) -> Option<nat>,
) -> bool {
    &&& forall|seq: u32, rows: u64| #[trigger]
        apply.ensures((seq,), Ok(rows)) ==> outcome(seq) == Some(rows as nat)
    &&& forall|seq: u32| #[trigger]
        apply.ensures((seq,), Err(Error::InProgressError)) ==> outcome(seq) is None
}

/// Are these the totals `all`, once `t` is added?
pub open spec fn adds_up(stats: SweepStats, t: SweepTotals, all: SweepTotals) -> bool {
    &&& stats.files_unlinked + t.unlinked == all.unlinked
    &&& stats.files_deferred_for_quiesce + t.deferred == all.deferred
    &&& stats.files_blocked_by_closure + t.blocked == all.blocked
    &&& stats.files_retained_by_classifier + t.retained == all.retained
    &&& stats.rows_deleted + t.rows_deleted == all.rows_deleted
}

/// Nothing.
pub open spec fn no_totals() -> SweepTotals {
    SweepTotals { unlinked: 0, deferred: 0, blocked: 0, retained: 0, rows_deleted: 0 }
}

impl HotSweep {
    /// Sweep to the end. `apply` unlinks a file and tells how many rows were deleted with it. Where
    /// its readers did not leave in time, the file is left to another sweep; any other error ends
    /// this one, and so does a count of rows that has no room.
    pub fn run<A: Fn(u32) -> Result<u64, Error>>(self, apply: A) -> (r: Result<SweepStats, Error>)
        requires
            self.wf(),
            self.at == 0,
            self.stats == no_stats(),
            forall|seq: u32| apply.requires((seq,)),
        ensures
            r matches Ok(stats) ==> forall|outcome: spec_fn(u32) -> Option<nat>| #[trigger]
                tells_outcome(apply, outcome) ==> adds_up(
                    stats,
                    no_totals(),
                    sweep_totals(self.classified@, self.closure@, 0, outcome),
                ),
            r matches Err(e) ==> {
                ||| !(e is InProgressError) && exists|i: int|
                    0 <= i < self.classified@.len() && (#[trigger] self.classified@[i]).1
                        == HotFileTentativeVerdict::Unlinkable && !self.closure@.contains(
                        self.classified@[i].0,
                    ) && apply.ensures((self.classified@[i].0,), Err(e))
                ||| e is OverflowError && forall|outcome: spec_fn(u32) -> Option<nat>| #[trigger]
                    tells_outcome(apply, outcome) ==> sweep_totals(
                        self.classified@,
                        self.closure@,
                        0,
                        outcome,
                    ).rows_deleted > u64::MAX
            },
    {
        let mut sweep = self;
        let ghost all = self.classified@;
        let ghost closure = self.closure@;
        loop
            invariant
                forall|seq: u32| apply.requires((seq,)),
                all == self.classified@,
                closure == self.closure@,
                sweep.classified == self.classified,
                sweep.closure == self.closure,
                sweep.wf(),
                forall|outcome: spec_fn(u32) -> Option<nat>| #[trigger]
                    tells_outcome(apply, outcome) ==> adds_up(
                        sweep.stats,
                        sweep_totals(all, closure, sweep.at as int, outcome),
                        sweep_totals(all, closure, 0, outcome),
                    ),
            decreases all.len() - sweep.at,
        {
            let ghost at = sweep.at as int;
            proof {
                lemma_next_advances(all, closure, at);
                law_swept_files_may_go(all, closure, at);
            }
            let ghost before = sweep.stats;
            let seq = match sweep.next_file() {
                Some(seq) => seq,
                None => {
                    return Ok(sweep.stats());
                },
            };
            let ghost m = sweep_next(all, closure, at);
            assert(all[m.at - 1] == (seq, HotFileTentativeVerdict::Unlinkable));
            let outcome = apply(seq);
            let ghost ended = outcome;
            assert(apply.ensures((seq,), outcome));
            match sweep.applied(outcome) {
                Ok(_) => {},
                Err(e) => {
                    proof {
                        if let Ok(rows) = ended {
                            assert forall|told: spec_fn(u32) -> Option<nat>| #[trigger]
                                tells_outcome(apply, told) implies sweep_totals(
                                all,
                                closure,
                                0,
                                told,
                            ).rows_deleted > u64::MAX by {
                                assert(adds_up(
                                    before,
                                    sweep_totals(all, closure, at, told),
                                    sweep_totals(all, closure, 0, told),
                                ));
                                assert(apply.ensures((seq,), Ok(rows)));
                                assert(told(seq) == Some(rows as nat));
                            }
                        }
                    }
                    return Err(e);
                },
            }
            assert forall|told: spec_fn(u32) -> Option<nat>| #[trigger]
                tells_outcome(apply, told) implies adds_up(
                sweep.stats,
                sweep_totals(all, closure, sweep.at as int, told),
                sweep_totals(all, closure, 0, told),
            ) by {
                assert(adds_up(
                    before,
                    sweep_totals(all, closure, at, told),
                    sweep_totals(all, closure, 0, told),
                ));
                match ended {
                    Ok(rows) => {
                        assert(apply.ensures((seq,), Ok(rows)));
                        assert(told(seq) == Some(rows as nat));
                    },
                    Err(e) => {
                        assert(e == Error::InProgressError);
                        assert(apply.ensures((seq,), Err(Error::InProgressError)));
                        assert(told(seq) is None);
                    },
                }
            }
        }
    }
}

/// How many of the files from `at` to `stop` hold ancestors of retained orphans.
pub open spec fn count_blocked(
    classified: Seq<(u32, HotFileTentativeVerdict)>,
    closure: Set<u32>,
    at: int,
    stop: int,
) -> nat
    decreases stop - at,
{
    if at >= stop {
        0
    } else {
        count_blocked(classified, closure, at + 1, stop) + if closure.contains(classified[at].0) {
            1nat
        } else {
            0
        }
    }
}

/// A sweep deals with every file before the first that must stay because of its rows: those that
/// hold ancestors of retained orphans are passed over, and each of the others is unlinked or
/// deferred. That first file is counted, and nothing after it is touched.
pub proof fn law_sweep_totals(
    classified: Seq<(u32, HotFileTentativeVerdict)>,
    closure: Set<u32>,
    at: int,
    stop: int,
    outcome: spec_fn(u32) -> Option<nat>,
)
    requires
        0 <= at <= stop <= classified.len(),
        forall|i: int|
            at <= i < stop ==> (#[trigger] classified[i]).1 == HotFileTentativeVerdict::Unlinkable,
        stop < classified.len() ==> classified[stop].1 != HotFileTentativeVerdict::Unlinkable,
    ensures
        ({
            let t = sweep_totals(classified, closure, at, outcome);
            &&& t.blocked == count_blocked(classified, closure, at, stop)
            &&& t.unlinked + t.deferred + t.blocked == stop - at
            &&& t.retained == if stop < classified.len() {
                1nat
            } else {
                0
            }
        }),
    decreases stop - at,
{
    if at < stop {
        law_sweep_totals(classified, closure, at + 1, stop, outcome);
        lemma_next_advances(classified, closure, at);
        lemma_next_advances(classified, closure, at + 1);
    }
}

/// The next file lies ahead.
pub proof fn lemma_next_advances(
    classified: Seq<(u32, HotFileTentativeVerdict)>,
    closure: Set<u32>,
    at: int,
)
    requires
        0 <= at <= classified.len(),
    ensures
        ({
            let m = sweep_next(classified, closure, at);
            &&& m.file is Some ==> at < m.at <= classified.len() && m.retained == 0
            &&& m.blocked >= 0 && m.retained >= 0
            &&& m.blocked + m.retained <= m.at - at
            &&& m.at <= classified.len()
        }),
    decreases classified.len() - at,
{
    if at < classified.len() {
        lemma_next_advances(classified, closure, at + 1);
    }
}

/// Is `sweep` the beginning of a sweep over `candidates`: each classified by its own rows, and
/// the closure that of all retained orphans together?
pub open spec fn prepared<
    T: MarfTrieId,
    H: Fn(&T) -> Result<Option<u32>, Error>,
    R: Fn(u32, u64) -> Result<Vec<u8>, Error>,
    L: Fn(&T) -> Result<TrieStorageLocation, Error>,
>(
    candidates: Seq<HotFileSweepCandidate<T>>,
    lists: Seq<Seq<RetainedOrphanRow<T>>>,
    canonical: Map<u32, T>,
    horizon: Option<u32>,
    height_lookup: H,
    read_at: R,
    locate: L,
    sweep: HotSweep,
) -> bool {
    &&& lists.len() == candidates.len()
    &&& sweep.classified@.len() == candidates.len()
    &&& forall|i: int|
        0 <= i < candidates.len() ==> (#[trigger] sweep.classified@[i]).0 == candidates[i].seq
            && classified_by(
            candidates[i],
            canonical,
            horizon,
            height_lookup,
            sweep.classified@[i].1,
            lists[i],
        )
    &&& forall|st: AncestryStore<T>| #[trigger]
        answers(read_at, locate, st) ==> long_enough(st, joined_lists(lists)) && forall|s: u32|
            #[trigger]
            sweep.closure@.contains(s) <==> holds_ancestor(st, joined_lists(lists), s)
}

/// Do the candidates have the rows that `rows_of` gives for them?
pub open spec fn have_rows<T: MarfTrieId, F: Fn(u32) -> Result<Vec<LiveHotRow<T>>, Error>>(
    rows_of: F,
    candidates: Seq<HotFileSweepCandidate<T>>,
) -> bool {
    forall|i: int|
        0 <= i < candidates.len() ==> rows_of.ensures(
            ((#[trigger] candidates[i]).seq,),
            Ok(candidates[i].live_rows),
        )
}

/// Is `e` what the rows of a file that is not active could not be listed for?
pub open spec fn listing_failed<T: MarfTrieId, F: Fn(u32) -> Result<Vec<LiveHotRow<T>>, Error>>(
    hot_files: HotFileSet,
    rows_of: F,
    e: Error,
) -> bool {
    exists|seq: u32|
        hot_files.lens().contains_key(seq) && seq != hot_files.active_seq
            && #[trigger] rows_of.ensures((seq,), Err(e))
}

/// Is `e` what the height of a candidate's row could not be looked up for?
pub open spec fn height_failed<T: MarfTrieId, H: Fn(&T) -> Result<Option<u32>, Error>>(
    candidates: Seq<HotFileSweepCandidate<T>>,
    height_lookup: H,
    e: Error,
) -> bool {
    exists|i: int, j: int|
        0 <= i < candidates.len() && 0 <= j < candidates[i].live_rows@.len()
            && height_lookup.ensures(
            (&(#[trigger] candidates[i].live_rows@[j]).block_hash,),
            Err(e),
        )
}

/// Are these the retained orphans of a candidate, by its rows?
pub open spec fn retains<T: MarfTrieId, H: Fn(&T) -> Result<Option<u32>, Error>>(
    candidate: HotFileSweepCandidate<T>,
    list: Seq<RetainedOrphanRow<T>>,
    canonical: Map<u32, T>,
    horizon: Option<u32>,
    height_lookup: H,
) -> bool {
    exists|v: HotFileTentativeVerdict| #[trigger]
        classified_by(candidate, canonical, horizon, height_lookup, v, list)
}

/// Are these the retained orphans of the candidates, each by its own rows?
pub open spec fn retained_lists<T: MarfTrieId, H: Fn(&T) -> Result<Option<u32>, Error>>(
    candidates: Seq<HotFileSweepCandidate<T>>,
    lists: Seq<Seq<RetainedOrphanRow<T>>>,
    canonical: Map<u32, T>,
    horizon: Option<u32>,
    height_lookup: H,
) -> bool {
    &&& lists.len() == candidates.len()
    &&& forall|i: int|
        0 <= i < candidates.len() ==> #[trigger] retains(
            candidates[i],
            lists[i],
            canonical,
            horizon,
            height_lookup,
        )
}

/// Is `e` what looking for the ancestors of the retained orphans failed with?
pub open spec fn ancestry_failed<
    T: MarfTrieId,
    R: Fn(u32, u64) -> Result<Vec<u8>, Error>,
    L: Fn(&T) -> Result<TrieStorageLocation, Error>,
>(lists: Seq<Seq<RetainedOrphanRow<T>>>, read_at: R, locate: L, e: Error) -> bool {
    forall|st: AncestryStore<T>| #[trigger]
        answers(read_at, locate, st) ==> closure_failed(
            read_at,
            locate,
            st,
            joined_lists(lists),
            e,
        )
}

/// Prepare a sweep: find the files that are not active, classify all of them, and find the files
/// that hold ancestors of any retained orphan. Younger files are classified too where an older
/// one must stay, as an orphan in a younger file may have ancestors in an older one.
///
/// [`HotSweep::run`] then unlinks the files that may go.
pub fn sweep_unlinkable_hot_files<
    T: MarfTrieId,
    F: Fn(u32) -> Result<Vec<LiveHotRow<T>>, Error>,
    H: Fn(&T) -> Result<Option<u32>, Error>,
    R: Fn(u32, u64) -> Result<Vec<u8>, Error>,
    L: Fn(&T) -> Result<TrieStorageLocation, Error>,
>(
    hot_files: &HotFileSet,
    rows_of: F,
    canonical_chain: &HashMap<u32, T>,
    horizon_max_height: Option<u32>,
    height_lookup: &H,
    read_at: &R,
    locate: &L,
) -> (r: Result<HotSweep, Error>)
    requires
        forall|seq: u32| rows_of.requires((seq,)),
        forall|t: T| height_lookup.requires((&t,)),
        forall|seq: u32, offset: u64| read_at.requires((seq, offset)),
        forall|t: T| locate.requires((&t,)),
        hot_files.lens().contains_key(hot_files.active_seq),
    ensures
        r matches Ok(sweep) ==> {
            &&& sweep.wf()
            &&& sweep.at == 0
            &&& sweep.stats == no_stats()
            &&& exists|
                candidates: Seq<HotFileSweepCandidate<T>>,
                lists: Seq<Seq<RetainedOrphanRow<T>>>,
            |
                are_candidates(*hot_files, candidates) && have_rows(rows_of, candidates)
                    && #[trigger] prepared(
                    candidates,
                    lists,
                    canonical_chain@,
                    horizon_max_height,
                    *height_lookup,
                    *read_at,
                    *locate,
                    sweep,
                )
        },
        r matches Err(e) ==> {
            ||| listing_failed(*hot_files, rows_of, e)
            ||| exists|candidates: Seq<HotFileSweepCandidate<T>>|
                are_candidates(*hot_files, candidates) && have_rows(rows_of, candidates)
                    && #[trigger] height_failed(candidates, *height_lookup, e)
            ||| exists|
                candidates: Seq<HotFileSweepCandidate<T>>,
                lists: Seq<Seq<RetainedOrphanRow<T>>>,
            |
                are_candidates(*hot_files, candidates) && have_rows(rows_of, candidates)
                    && #[trigger] retained_lists(
                    candidates,
                    lists,
                    canonical_chain@,
                    horizon_max_height,
                    *height_lookup,
                ) && ancestry_failed(lists, *read_at, *locate, e)
        },
{
    let candidates = match enumerate_hot_files_for_sweep(hot_files, rows_of) {
        Ok(c) => c,
        Err(e) => {
            return Err(e);
        },
    };
    let mut classified: Vec<(u32, HotFileTentativeVerdict)> = Vec::new();
    let mut orphans: Vec<RetainedOrphanRow<T>> = Vec::new();
    let ghost mut lists: Seq<Seq<RetainedOrphanRow<T>>> = Seq::empty();
    let mut i: usize = 0;
    while i < candidates.len()
        invariant
            forall|t: T| height_lookup.requires((&t,)),
            are_candidates(*hot_files, candidates@),
            have_rows(rows_of, candidates@),
            i <= candidates@.len(),
            classified@.len() == i,
            lists.len() == i,
            orphans@ == joined_lists(lists),
            forall|j: int|
                0 <= j < i ==> (#[trigger] classified@[j]).0 == candidates@[j].seq && classified_by(
                    candidates@[j],
                    canonical_chain@,
                    horizon_max_height,
                    *height_lookup,
                    classified@[j].1,
                    lists[j],
                ),
        decreases candidates@.len() - i,
    {
        match classify_hot_file_tentative(
            &candidates[i],
            canonical_chain,
            horizon_max_height,
            height_lookup,
        ) {
            Err(e) => {
                assert(height_failed(candidates@, *height_lookup, e));
                return Err(e);
            },
            Ok((verdict, retained)) => {
                let ghost more = lists.push(retained@);
                assert(more.drop_last() =~= lists);
                push_orphans(&mut orphans, retained.as_slice());
                classified.push((candidates[i].seq, verdict));
                proof {
                    lists = more;
                }
            },
        }
        i += 1;
    }
    let closure = match precompute_orphan_closure_seqs(orphans.as_slice(), read_at, locate) {
        Ok(c) => c,
        Err(e) => {
            proof {
                assert forall|j: int| 0 <= j < candidates@.len() implies #[trigger] retains(
                    candidates@[j],
                    lists[j],
                    canonical_chain@,
                    horizon_max_height,
                    *height_lookup,
                ) by {
                    assert(classified@[j].0 == candidates@[j].seq);
                }
                assert(retained_lists(
                    candidates@,
                    lists,
                    canonical_chain@,
                    horizon_max_height,
                    *height_lookup,
                ));
                assert(ancestry_failed(lists, *read_at, *locate, e));
            }
            return Err(e);
        },
    };
    proof {
        lemma_candidates_bounded(*hot_files, candidates@);
    }
    let sweep = HotSweep::new(classified, closure);
    assert(prepared(
        candidates@,
        lists,
        canonical_chain@,
        horizon_max_height,
        *height_lookup,
        *read_at,
        *locate,
        sweep,
    ));
    Ok(sweep)
}

/// Different files have different numbers, and the active one has a number too.
proof fn lemma_candidates_bounded<T: MarfTrieId>(
    set: HotFileSet,
    c: Seq<HotFileSweepCandidate<T>>,
)
    requires
        are_candidates(set, c),
    ensures
        c.len() <= u32::MAX,
{
    let nums = Seq::new(c.len(), |i: int| c[i].seq as int);
    let max = u32::MAX + 1;
    assert forall|i: int, j: int| 0 <= i < nums.len() && 0 <= j < nums.len() && i != j implies nums[i]
        != nums[j] by {
        if i < j {
            assert(c[i].seq < c[j].seq);
        } else {
            assert(c[j].seq < c[i].seq);
        }
    }
    let others = nums.push(set.active_seq as int);
    assert forall|i: int, j: int|
        0 <= i < others.len() && 0 <= j < others.len() && i != j implies others[i] != others[j] by {
        if i < nums.len() {
            assert(c[i].seq != set.active_seq);
        }
        if j < nums.len() {
            assert(c[j].seq != set.active_seq);
        }
    }
    others.unique_seq_to_set();
    vstd::set_lib::lemma_int_range(0, max);
    assert(others.to_set().subset_of(vstd::set_lib::set_int_range(0, max)));
    vstd::set_lib::lemma_len_subset(others.to_set(), vstd::set_lib::set_int_range(0, max));
}

fn push_orphans<T: MarfTrieId>(
    out: &mut Vec<RetainedOrphanRow<T>>,
    more: &[RetainedOrphanRow<T>],
)
    ensures
        final(out)@ == old(out)@ + more@,
{
    let mut i: usize = 0;
    assert(out@ =~= old(out)@ + more@.take(0));
    while i < more.len()
        invariant
            i <= more@.len(),
            out@ == old(out)@ + more@.take(i as int),
        decreases more@.len() - i,
    {
        out.push(more[i]);
        i += 1;
        assert(out@ =~= old(out)@ + more@.take(i as int));
    }
    assert(more@.take(i as int) =~= more@);
}

} // verus!
