//! Which hot files can go: classification of their rows against the canonical chain, and the
//! files that hold ancestors of blocks that must be retained.
//!
//! A hot file may be unlinked only if every block in it is an orphan that is past the reorg
//! horizon, and if it holds no ancestor of an orphan that is retained elsewhere.

use crate::error::Error;
use crate::hot_file::HotFileSet;
use crate::sweep_law::{above_horizon, entry_of, law_every_retained_orphan_is_listed};
use crate::value::{same_id, MarfTrieId};
use std::collections::HashMap;
use vstd::prelude::*;

verus! {

broadcast use vstd::std_specs::hash::group_hash_axioms;

/// A block whose trie is stored in a hot file.
#[derive(Debug, Copy, PartialEq, Eq)]
pub struct LiveHotRow<T: MarfTrieId> {
    pub block_hash: T,
    /// Where the trie starts in its file.
    pub external_offset: u64,
    /// How many bytes it has.
    pub external_length: u64,
}

impl<T: MarfTrieId> Clone for LiveHotRow<T> {
    fn clone(&self) -> (r: LiveHotRow<T>)
        ensures
            r == *self,
    {
        *self
    }
}

/// A hot file that is not active, with the rows that still reference it. One without rows has
/// been promoted as a whole.
#[derive(Debug)]
pub struct HotFileSweepCandidate<T: MarfTrieId> {
    pub seq: u32,
    pub live_rows: Vec<LiveHotRow<T>>,
}

/// What is known of one row.
#[derive(Debug, Clone, Copy, PartialEq, Eq, Structural)]
pub enum RowVerdict {
    /// The block is on the canonical chain.
    Canonical,
    /// The block is an orphan at or below the horizon. Its bytes are reclaimable.
    OrphanPastHorizon,
    /// The block is an orphan above the horizon, or there is no horizon yet.
    OrphanRetained,
    /// Neither is known: the height of the block, or the canonical block at that height, is not
    /// recorded.
    UnknownSkip,
}

/// Why a hot file must stay.
#[derive(Debug, Clone, Copy, PartialEq, Eq, Structural)]
pub enum NotUnlinkableReason {
    HasCanonicalRow,
    HasRetainedOrphan,
    HasUnknownAncestryRow,
}

/// What the rows of a hot file say of it. Whether it really can go depends on the other files.
#[derive(Debug, Clone, Copy, PartialEq, Eq, Structural)]
pub enum HotFileTentativeVerdict {
    Unlinkable,
    NotUnlinkable { reason: NotUnlinkableReason },
}

/// An orphan that is retained, whose ancestors must stay as well.
#[derive(Debug, Copy, PartialEq, Eq)]
pub struct RetainedOrphanRow<T: MarfTrieId> {
    /// The hot file it is in.
    pub seq: u32,
    /// Its height.
    pub height: u32,
    pub row: LiveHotRow<T>,
}

impl<T: MarfTrieId> Clone for RetainedOrphanRow<T> {
    fn clone(&self) -> (r: RetainedOrphanRow<T>)
        ensures
            r == *self,
    {
        *self
    }
}

// ---------------------------------------------------------------------------------------
// Candidates
// ---------------------------------------------------------------------------------------
/// Are these the non-active files of the set, oldest first?
pub open spec fn are_candidates<T: MarfTrieId>(set: HotFileSet, c: Seq<HotFileSweepCandidate<T>>) -> bool {
    &&& forall|i: int, j: int| 0 <= i < j < c.len() ==> (#[trigger] c[i]).seq < (#[trigger] c[j]).seq
    &&& forall|i: int|
        0 <= i < c.len() ==> set.lens().contains_key((#[trigger] c[i]).seq) && c[i].seq
            != set.active_seq
    &&& forall|s: u32|
        #![trigger set.lens().contains_key(s)]
        set.lens().contains_key(s) && s != set.active_seq ==> exists|i: int|
            0 <= i < c.len() && (#[trigger] c[i]).seq == s
}

/// The hot files that are not active, oldest first, each with the rows that reference it. A file
/// without rows is there too. `rows_of` looks the rows of a file up.
pub fn enumerate_hot_files_for_sweep<T: MarfTrieId, F: Fn(u32) -> Result<Vec<LiveHotRow<T>>, Error>>(
    hot_files: &HotFileSet,
    rows_of: F,
) -> (r: Result<Vec<HotFileSweepCandidate<T>>, Error>)
    requires
        forall|seq: u32| rows_of.requires((seq,)),
    ensures
        r matches Ok(c) ==> are_candidates(*hot_files, c@) && forall|i: int|
            0 <= i < c@.len() ==> rows_of.ensures(
                ((#[trigger] c@[i]).seq,),
                Ok(c@[i].live_rows),
            ),
        r matches Err(e) ==> exists|seq: u32|
            hot_files.lens().contains_key(seq) && seq != hot_files.active_seq
                && #[trigger] rows_of.ensures((seq,), Err(e)),
{
    let seqs = hot_files.seqs();
    let active = hot_files.active_seq();
    let mut out: Vec<HotFileSweepCandidate<T>> = Vec::new();
    let mut i: usize = 0;
    while i < seqs.len()
        invariant
            forall|seq: u32| rows_of.requires((seq,)),
            crate::hot_file::ascending(seqs@),
            forall|s: u32| seqs@.contains(s) <==> hot_files.lens().contains_key(s),
            active == hot_files.active_seq,
            i <= seqs@.len(),
            forall|a: int, b: int|
                0 <= a < b < out@.len() ==> (#[trigger] out@[a]).seq < (#[trigger] out@[b]).seq,
            forall|a: int|
                0 <= a < out@.len() ==> hot_files.lens().contains_key((#[trigger] out@[a]).seq)
                    && out@[a].seq != active && rows_of.ensures(
                    (out@[a].seq,),
                    Ok(out@[a].live_rows),
                ),
            forall|a: int, b: int|
                0 <= a < out@.len() && i <= b < seqs@.len() ==> (#[trigger] out@[a]).seq
                    < #[trigger] seqs@[b],
            forall|b: int|
                0 <= b < i && #[trigger] seqs@[b] != active ==> exists|a: int|
                    0 <= a < out@.len() && (#[trigger] out@[a]).seq == seqs@[b],
        decreases seqs@.len() - i,
    {
        let seq = seqs[i];
        assert(seqs@.contains(seq));
        if seq != active {
            let live_rows = match rows_of(seq) {
                Ok(rows) => rows,
                Err(e) => {
                    return Err(e);
                },
            };
            let ghost before = out@;
            out.push(HotFileSweepCandidate { seq, live_rows });
            assert forall|b: int|
                0 <= b < i + 1 && #[trigger] seqs@[b] != active implies exists|a: int|
                0 <= a < out@.len() && (#[trigger] out@[a]).seq == seqs@[b] by {
                if b < i {
                    let a = choose|a: int| 0 <= a < before.len() && (#[trigger] before[a]).seq == seqs@[b];
                    assert(out@[a].seq == seqs@[b]);
                } else {
                    assert(out@[out@.len() - 1].seq == seqs@[b]);
                }
            }
        }
        i += 1;
    }
    assert forall|s: u32|
        #![trigger hot_files.lens().contains_key(s)]
        hot_files.lens().contains_key(s) && s != hot_files.active_seq implies exists|a: int|
        0 <= a < out@.len() && (#[trigger] out@[a]).seq == s by {
        assert(seqs@.contains(s));
        let b = choose|b: int| 0 <= b < seqs@.len() && seqs@[b] == s;
        assert(seqs@[b] != active);
    }
    Ok(out)
}

// ---------------------------------------------------------------------------------------
// Classification
// ---------------------------------------------------------------------------------------
/// What is known of a block with this hash and height. A height at which the canonical block is
/// not known says nothing: that is never an orphan.
pub open spec fn verdict_of<T>(
    hash: T,
    canonical: Map<u32, T>,
    horizon: Option<u32>,
    height: Option<u32>,
) -> RowVerdict {
    match height {
        None => RowVerdict::UnknownSkip,
        Some(h) => if !canonical.contains_key(h) {
            RowVerdict::UnknownSkip
        } else if canonical[h] == hash {
            RowVerdict::Canonical
        } else if horizon is Some && h <= horizon.unwrap() {
            RowVerdict::OrphanPastHorizon
        } else {
            RowVerdict::OrphanRetained
        },
    }
}

/// What the rows of a file say of it together. One canonical row outweighs everything else, and
/// a retained orphan outweighs a row of which nothing is known.
pub open spec fn file_verdict(verdicts: Seq<RowVerdict>) -> HotFileTentativeVerdict {
    if verdicts.contains(RowVerdict::Canonical) {
        HotFileTentativeVerdict::NotUnlinkable { reason: NotUnlinkableReason::HasCanonicalRow }
    } else if verdicts.contains(RowVerdict::OrphanRetained) {
        HotFileTentativeVerdict::NotUnlinkable { reason: NotUnlinkableReason::HasRetainedOrphan }
    } else if verdicts.contains(RowVerdict::UnknownSkip) {
        HotFileTentativeVerdict::NotUnlinkable {
            reason: NotUnlinkableReason::HasUnknownAncestryRow,
        }
    } else {
        HotFileTentativeVerdict::Unlinkable
    }
}

/// The verdicts on all rows.
pub open spec fn verdicts_of<T: MarfTrieId>(
    rows: Seq<LiveHotRow<T>>,
    canonical: Map<u32, T>,
    horizon: Option<u32>,
    heights: Seq<Option<u32>>,
) -> Seq<RowVerdict> {
    Seq::new(
        rows.len(),
        |i: int| verdict_of(rows[i].block_hash, canonical, horizon, heights[i]),
    )
}

/// The retained orphans among the rows, in order.
pub open spec fn retained_of<T: MarfTrieId>(
    seq: u32,
    rows: Seq<LiveHotRow<T>>,
    canonical: Map<u32, T>,
    horizon: Option<u32>,
    heights: Seq<Option<u32>>,
) -> Seq<RetainedOrphanRow<T>>
    decreases rows.len(),
{
    if rows.len() == 0 {
        Seq::empty()
    } else {
        let n = rows.len() - 1;
        let before = retained_of(seq, rows.drop_last(), canonical, horizon, heights);
        if verdict_of(rows[n].block_hash, canonical, horizon, heights[n])
            == RowVerdict::OrphanRetained {
            before.push(RetainedOrphanRow { seq, height: heights[n].unwrap(), row: rows[n] })
        } else {
            before
        }
    }
}

/// Are these the heights that `lookup` gives for the rows?
pub open spec fn looked_up<T: MarfTrieId, H: Fn(&T) -> Result<Option<u32>, Error>>(
    lookup: H,
    rows: Seq<LiveHotRow<T>>,
    heights: Seq<Option<u32>>,
) -> bool {
    &&& heights.len() == rows.len()
    &&& forall|i: int|
        0 <= i < rows.len() ==> lookup.ensures((&(#[trigger] rows[i]).block_hash,), Ok(heights[i]))
}

/// Classify a row whose height has been looked up.
pub fn row_verdict<T: MarfTrieId>(
    row: &LiveHotRow<T>,
    canonical_chain: &HashMap<u32, T>,
    horizon_max_height: Option<u32>,
    height: Option<u32>,
) -> (r: RowVerdict)
    ensures
        r == verdict_of(row.block_hash, canonical_chain@, horizon_max_height, height),
{
    let h = match height {
        Some(h) => h,
        None => {
            return RowVerdict::UnknownSkip;
        },
    };
    match canonical_chain.get(&h) {
        None => RowVerdict::UnknownSkip,
        Some(canonical) => {
            if same_id(canonical, &row.block_hash) {
                RowVerdict::Canonical
            } else {
                match horizon_max_height {
                    Some(max) => if h <= max {
                        RowVerdict::OrphanPastHorizon
                    } else {
                        RowVerdict::OrphanRetained
                    },
                    None => RowVerdict::OrphanRetained,
                }
            }
        },
    }
}

/// Classify a single row against the canonical chain and the horizon. `height_lookup` gives the
/// height of a block, or `None` for one that is not recorded.
pub fn classify_row<T: MarfTrieId, H: Fn(&T) -> Result<Option<u32>, Error>>(
    row: &LiveHotRow<T>,
    canonical_chain: &HashMap<u32, T>,
    horizon_max_height: Option<u32>,
    height_lookup: H,
) -> (r: Result<(RowVerdict, Option<u32>), Error>)
    requires
        height_lookup.requires((&row.block_hash,)),
    ensures
        match r {
            Ok((verdict, height)) => height_lookup.ensures((&row.block_hash,), Ok(height))
                && verdict == verdict_of(
                row.block_hash,
                canonical_chain@,
                horizon_max_height,
                height,
            ),
            Err(e) => height_lookup.ensures((&row.block_hash,), Err(e)),
        },
{
    match height_lookup(&row.block_hash) {
        Ok(height) => Ok(
            (row_verdict(row, canonical_chain, horizon_max_height, height), height),
        ),
        Err(e) => Err(e),
    }
}

/// Classify a file whose rows' heights have been looked up. Every row is looked at, so that all
/// retained orphans are found.
pub fn classify_rows<T: MarfTrieId>(
    candidate: &HotFileSweepCandidate<T>,
    canonical_chain: &HashMap<u32, T>,
    horizon_max_height: Option<u32>,
    heights: &[Option<u32>],
) -> (r: (HotFileTentativeVerdict, Vec<RetainedOrphanRow<T>>))
    requires
        heights@.len() == candidate.live_rows@.len(),
    ensures
        r.0 == file_verdict(
            verdicts_of(candidate.live_rows@, canonical_chain@, horizon_max_height, heights@),
        ),
        r.1@ == retained_of(
            candidate.seq,
            candidate.live_rows@,
            canonical_chain@,
            horizon_max_height,
            heights@,
        ),
        forall|i: int|
            0 <= i < candidate.live_rows@.len() && above_horizon(
                (#[trigger] candidate.live_rows@[i]).block_hash,
                canonical_chain@,
                horizon_max_height,
                heights@[i],
            ) ==> r.1@.contains(entry_of(candidate.seq, candidate.live_rows@, heights@, i)),
{
    let ghost rows = candidate.live_rows@;
    let ghost chain = canonical_chain@;
    let ghost verdicts = verdicts_of(rows, chain, horizon_max_height, heights@);
    let mut retained: Vec<RetainedOrphanRow<T>> = Vec::new();
    let mut has_canonical = false;
    let mut has_retained_orphan = false;
    let mut has_unknown = false;
    let mut i: usize = 0;
    assert(retained@ =~= retained_of(
        candidate.seq,
        rows.take(0),
        chain,
        horizon_max_height,
        heights@,
    ));
    while i < candidate.live_rows.len()
        invariant
            i <= rows.len(),
            rows == candidate.live_rows@,
            chain == canonical_chain@,
            heights@.len() == rows.len(),
            verdicts == verdicts_of(rows, chain, horizon_max_height, heights@),
            has_canonical == verdicts.take(i as int).contains(RowVerdict::Canonical),
            has_retained_orphan == verdicts.take(i as int).contains(RowVerdict::OrphanRetained),
            has_unknown == verdicts.take(i as int).contains(RowVerdict::UnknownSkip),
            retained@ == retained_of(
                candidate.seq,
                rows.take(i as int),
                chain,
                horizon_max_height,
                heights@,
            ),
        decreases rows.len() - i,
    {
        let row = candidate.live_rows[i];
        let height = heights[i];
        let verdict = row_verdict(&row, canonical_chain, horizon_max_height, height);
        proof {
            assert(rows.take(i + 1).drop_last() =~= rows.take(i as int));
            assert(verdicts.take(i + 1) =~= verdicts.take(i as int).push(verdict));
            lemma_push_verdict(verdicts.take(i as int), verdict);
        }
        match verdict {
            RowVerdict::Canonical => {
                has_canonical = true;
            },
            RowVerdict::OrphanPastHorizon => {},
            RowVerdict::OrphanRetained => {
                has_retained_orphan = true;
                if let Some(height) = height {
                    retained.push(RetainedOrphanRow { seq: candidate.seq, height, row });
                }
            },
            RowVerdict::UnknownSkip => {
                has_unknown = true;
            },
        }
        i += 1;
    }
    assert(rows.take(i as int) =~= rows);
    assert(verdicts.take(i as int) =~= verdicts);
    proof {
        law_every_retained_orphan_is_listed(
            candidate.seq,
            rows,
            chain,
            horizon_max_height,
            heights@,
        );
    }
    let verdict = if has_canonical {
        HotFileTentativeVerdict::NotUnlinkable { reason: NotUnlinkableReason::HasCanonicalRow }
    } else if has_retained_orphan {
        HotFileTentativeVerdict::NotUnlinkable { reason: NotUnlinkableReason::HasRetainedOrphan }
    } else if has_unknown {
        HotFileTentativeVerdict::NotUnlinkable {
            reason: NotUnlinkableReason::HasUnknownAncestryRow,
        }
    } else {
        HotFileTentativeVerdict::Unlinkable
    };
    (verdict, retained)
}

proof fn lemma_push_verdict(s: Seq<RowVerdict>, v: RowVerdict)
    ensures
        forall|w: RowVerdict| #[trigger] s.push(v).contains(w) <==> s.contains(w) || w == v,
{
    assert forall|w: RowVerdict| #[trigger] s.push(v).contains(w) <==> s.contains(w) || w == v by {
        if s.contains(w) {
            let k = choose|k: int| 0 <= k < s.len() && s[k] == w;
            assert(s.push(v)[k] == w);
        }
        if w == v {
            assert(s.push(v)[s.len() as int] == w);
        }
    }
}

/// Classify a file: look the heights of all rows up and put the verdicts together. Errors of the
/// lookup are passed on.
pub fn classify_hot_file_tentative<T: MarfTrieId, H: Fn(&T) -> Result<Option<u32>, Error>>(
    candidate: &HotFileSweepCandidate<T>,
    canonical_chain: &HashMap<u32, T>,
    horizon_max_height: Option<u32>,
    height_lookup: &H,
) -> (r: Result<(HotFileTentativeVerdict, Vec<RetainedOrphanRow<T>>), Error>)
    requires
        forall|t: T| height_lookup.requires((&t,)),
    ensures
        r matches Ok((verdict, retained)) ==> exists|heights: Seq<Option<u32>>|
            {
                &&& #[trigger] looked_up(*height_lookup, candidate.live_rows@, heights)
                &&& verdict == file_verdict(
                    verdicts_of(
                        candidate.live_rows@,
                        canonical_chain@,
                        horizon_max_height,
                        heights,
                    ),
                )
                &&& retained@ == retained_of(
                    candidate.seq,
                    candidate.live_rows@,
                    canonical_chain@,
                    horizon_max_height,
                    heights,
                )
            },
        r matches Err(e) ==> exists|i: int|
            0 <= i < candidate.live_rows@.len() && height_lookup.ensures(
                (&(#[trigger] candidate.live_rows@[i]).block_hash,),
                Err(e),
            ),
{
    let mut heights: Vec<Option<u32>> = Vec::new();
    let mut i: usize = 0;
    while i < candidate.live_rows.len()
        invariant
            forall|t: T| height_lookup.requires((&t,)),
            i <= candidate.live_rows@.len(),
            heights@.len() == i,
            forall|j: int|
                0 <= j < i ==> height_lookup.ensures(
                    (&(#[trigger] candidate.live_rows@[j]).block_hash,),
                    Ok(heights@[j]),
                ),
        decreases candidate.live_rows@.len() - i,
    {
        match height_lookup(&candidate.live_rows[i].block_hash) {
            Ok(height) => {
                heights.push(height);
            },
            Err(e) => {
                assert(height_lookup.ensures(
                    (&candidate.live_rows@[i as int].block_hash,),
                    Err(e),
                ));
                return Err(e);
            },
        }
        i += 1;
    }
    assert(looked_up(*height_lookup, candidate.live_rows@, heights@));
    Ok(classify_rows(candidate, canonical_chain, horizon_max_height, heights.as_slice()))
}

/// Is a block with this hash and height known to be off the canonical chain, at or below the
/// horizon?
pub open spec fn past_horizon<T>(
    hash: T,
    canonical: Map<u32, T>,
    horizon: Option<u32>,
    height: Option<u32>,
) -> bool {
    &&& height is Some
    &&& canonical.contains_key(height.unwrap())
    &&& canonical[height.unwrap()] != hash
    &&& horizon is Some
    &&& height.unwrap() <= horizon.unwrap()
}

/// A file can go only if each of its rows is an orphan past the horizon. In particular no row on
/// the canonical chain, and none of which too little is known, is ever given up.
pub proof fn law_unlinkable_rows_are_past_horizon<T: MarfTrieId>(
    rows: Seq<LiveHotRow<T>>,
    canonical: Map<u32, T>,
    horizon: Option<u32>,
    heights: Seq<Option<u32>>,
)
    requires
        heights.len() == rows.len(),
    ensures
        file_verdict(verdicts_of(rows, canonical, horizon, heights))
            == HotFileTentativeVerdict::Unlinkable <==> forall|i: int|
            0 <= i < rows.len() ==> past_horizon(
                (#[trigger] rows[i]).block_hash,
                canonical,
                horizon,
                heights[i],
            ),
{
    let vs = verdicts_of(rows, canonical, horizon, heights);
    assert forall|i: int| 0 <= i < rows.len() implies (vs[i] == RowVerdict::OrphanPastHorizon
        <==> past_horizon((#[trigger] rows[i]).block_hash, canonical, horizon, heights[i])) by {}
    if file_verdict(vs) == HotFileTentativeVerdict::Unlinkable {
        assert forall|i: int| 0 <= i < rows.len() implies past_horizon(
            (#[trigger] rows[i]).block_hash,
            canonical,
            horizon,
            heights[i],
        ) by {
            assert(vs.contains(vs[i]));
        }
    } else {
        let w = if vs.contains(RowVerdict::Canonical) {
            RowVerdict::Canonical
        } else if vs.contains(RowVerdict::OrphanRetained) {
            RowVerdict::OrphanRetained
        } else {
            RowVerdict::UnknownSkip
        };
        let i = choose|i: int| 0 <= i < vs.len() && vs[i] == w;
        assert(!past_horizon(rows[i].block_hash, canonical, horizon, heights[i]));
    }
}

} // verus!
