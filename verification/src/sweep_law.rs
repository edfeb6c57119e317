//! What a sweep of hot files spares: told by the rows of the files and by the lines of descent that
//! lead from block to parent.

use crate::error::Error;
use crate::hot_reclaim::{
    law_unlinkable_rows_are_past_horizon, looked_up, past_horizon, retained_of, verdict_of,
    HotFileSweepCandidate, LiveHotRow, RetainedOrphanRow,
};
use crate::hot_sweep::{
    joined_lists, law_swept_files_may_go, prepared, sweep_next, HotSweep,
};
use crate::orphan_closure::{
    ancestor, answers, comes_through, holds_ancestor, no_parent, parent_row, row_of, AncestryStore,
    HotRow, TrieStorageLocation,
};
use crate::value::{MarfTrieId, SENTINEL_ARRAY};
use vstd::prelude::*;

verus! {

/// Is a block with this hash and height known to be off the canonical chain, above the horizon or
/// without one?
pub open spec fn above_horizon<T>(
    hash: T,
    canonical: Map<u32, T>,
    horizon: Option<u32>,
    height: Option<u32>,
) -> bool {
    &&& height is Some
    &&& canonical.contains_key(height.unwrap())
    &&& canonical[height.unwrap()] != hash
    &&& horizon is None || height.unwrap() > horizon.unwrap()
}

/// Each verdict is given for its own reason, and for no other: a block at whose height the
/// canonical block is known is canonical where it is that block, and else an orphan, retained above
/// the horizon and given up at or below it; of any other block nothing is known.
pub proof fn law_verdicts<T>(
    hash: T,
    canonical: Map<u32, T>,
    horizon: Option<u32>,
    height: Option<u32>,
)
    ensures
        verdict_of(hash, canonical, horizon, height) is OrphanRetained <==> above_horizon(
            hash,
            canonical,
            horizon,
            height,
        ),
        verdict_of(hash, canonical, horizon, height) is OrphanPastHorizon <==> past_horizon(
            hash,
            canonical,
            horizon,
            height,
        ),
        verdict_of(hash, canonical, horizon, height) is Canonical <==> (height matches Some(h)
            && canonical.contains_key(h) && canonical[h] == hash),
        verdict_of(hash, canonical, horizon, height) is UnknownSkip <==> !(height matches Some(h)
            && canonical.contains_key(h)),
{
}

/// The entry of row `i` among the retained orphans.
pub open spec fn entry_of<T: MarfTrieId>(
    seq: u32,
    rows: Seq<LiveHotRow<T>>,
    heights: Seq<Option<u32>>,
    i: int,
) -> RetainedOrphanRow<T> {
    RetainedOrphanRow { seq, height: heights[i].unwrap(), row: rows[i] }
}

/// The retained orphans of a file are all of its rows that are orphans above the horizon, each with
/// its file, its height and its row, and none of the others.
pub proof fn law_every_retained_orphan_is_listed<T: MarfTrieId>(
    seq: u32,
    rows: Seq<LiveHotRow<T>>,
    canonical: Map<u32, T>,
    horizon: Option<u32>,
    heights: Seq<Option<u32>>,
)
    requires
        heights.len() == rows.len(),
    ensures
        forall|i: int|
            0 <= i < rows.len() && above_horizon(
                (#[trigger] rows[i]).block_hash,
                canonical,
                horizon,
                heights[i],
            ) ==> retained_of(seq, rows, canonical, horizon, heights).contains(
                entry_of(seq, rows, heights, i),
            ),
        forall|o: RetainedOrphanRow<T>| #[trigger]
            retained_of(seq, rows, canonical, horizon, heights).contains(o) ==> exists|i: int|
                0 <= i < rows.len() && above_horizon(
                    (#[trigger] rows[i]).block_hash,
                    canonical,
                    horizon,
                    heights[i],
                ) && o == entry_of(seq, rows, heights, i),
{
    lemma_retained_listed(seq, rows, canonical, horizon, heights);
}

proof fn lemma_retained_listed<T: MarfTrieId>(
    seq: u32,
    rows: Seq<LiveHotRow<T>>,
    canonical: Map<u32, T>,
    horizon: Option<u32>,
    heights: Seq<Option<u32>>,
)
    requires
        rows.len() <= heights.len(),
    ensures
        forall|i: int|
            0 <= i < rows.len() && above_horizon(
                (#[trigger] rows[i]).block_hash,
                canonical,
                horizon,
                heights[i],
            ) ==> retained_of(seq, rows, canonical, horizon, heights).contains(
                entry_of(seq, rows, heights, i),
            ),
        forall|o: RetainedOrphanRow<T>| #[trigger]
            retained_of(seq, rows, canonical, horizon, heights).contains(o) ==> exists|i: int|
                0 <= i < rows.len() && above_horizon(
                    (#[trigger] rows[i]).block_hash,
                    canonical,
                    horizon,
                    heights[i],
                ) && o == entry_of(seq, rows, heights, i),
    decreases rows.len(),
{
    let all = retained_of(seq, rows, canonical, horizon, heights);
    if rows.len() > 0 {
        let n = rows.len() - 1;
        let front = rows.drop_last();
        lemma_retained_listed(seq, front, canonical, horizon, heights);
        let before = retained_of(seq, front, canonical, horizon, heights);
        assert forall|i: int|
            0 <= i < rows.len() && above_horizon(
                (#[trigger] rows[i]).block_hash,
                canonical,
                horizon,
                heights[i],
            ) implies all.contains(entry_of(seq, rows, heights, i)) by {
            let o = entry_of(seq, rows, heights, i);
            if i < n {
                assert(front[i] == rows[i]);
                assert(before.contains(entry_of(seq, front, heights, i)));
                let k = choose|k: int| 0 <= k < before.len() && before[k] == o;
                assert(all[k] == o);
            } else {
                assert(all.last() == o);
                assert(all[all.len() - 1] == o);
            }
        }
        assert forall|o: RetainedOrphanRow<T>| #[trigger] all.contains(o) implies exists|i: int|
            0 <= i < rows.len() && above_horizon(
                (#[trigger] rows[i]).block_hash,
                canonical,
                horizon,
                heights[i],
            ) && o == entry_of(seq, rows, heights, i) by {
            let k = choose|k: int| 0 <= k < all.len() && all[k] == o;
            if k < before.len() {
                assert(before[k] == o);
                assert(before.contains(o));
                let i = choose|i: int|
                    0 <= i < front.len() && above_horizon(
                        (#[trigger] front[i]).block_hash,
                        canonical,
                        horizon,
                        heights[i],
                    ) && o == entry_of(seq, front, heights, i);
                assert(front[i] == rows[i]);
                assert(o == entry_of(seq, rows, heights, i));
            } else {
                assert(o == entry_of(seq, rows, heights, n as int));
                assert(above_horizon(rows[n as int].block_hash, canonical, horizon, heights[n as int]));
            }
        }
    }
}

// ---------------------------------------------------------------------------------------
// Lines of descent
// ---------------------------------------------------------------------------------------
/// Does a trie name a parent, with a hash that is neither all zeros nor all ones?
pub open spec fn names_parent<T: MarfTrieId>(parent: T) -> bool {
    &&& exists|i: int| 0 <= i < 32 && #[trigger] parent.id_bytes()@[i] != 0
    &&& exists|i: int| 0 <= i < 32 && #[trigger] parent.id_bytes()@[i] != 255
}

/// Is the trie at `k + 1` of the line, in a hot file, the parent of that at `k`?
pub open spec fn parent_at<T: MarfTrieId>(st: AncestryStore<T>, line: Seq<HotRow>, k: int) -> bool {
    let p = (st.parent)(line[k].0, line[k].1);
    names_parent(p) && ((st.place)(p) matches Some(l) && l.kind is Hot && line[k + 1] == (
        l.seq,
        l.offset,
        l.length,
    ))
}

/// Is this a line of descent, from a trie to its parent and on?
pub open spec fn is_line<T: MarfTrieId>(st: AncestryStore<T>, line: Seq<HotRow>) -> bool {
    forall|k: int| 0 <= k < line.len() - 1 ==> #[trigger] parent_at(st, line, k)
}

proof fn lemma_names_parent<T: MarfTrieId>(p: T)
    ensures
        names_parent(p) <==> !no_parent(p.id_bytes()@),
{
    let s = p.id_bytes()@;
    let zeros = Seq::new(32, |i: int| 0u8);
    let ones = Seq::new(32, |i: int| 255u8);
    assert(SENTINEL_ARRAY@ =~= ones);
    assert(s.len() == 32);
    if !names_parent(p) {
        assert(s =~= zeros || s =~= ones);
    }
    if s == zeros || s == ones {
        assert(forall|i: int| 0 <= i < 32 ==> #[trigger] s[i] == 0 || s == ones);
    }
}

proof fn lemma_line_ancestor<T: MarfTrieId>(st: AncestryStore<T>, line: Seq<HotRow>, k: nat)
    requires
        is_line(st, line),
        k < line.len(),
    ensures
        ancestor(st, line[0], k) == Some(line[k as int]),
    decreases k,
{
    if k > 0 {
        lemma_line_ancestor(st, line, (k - 1) as nat);
        assert(parent_at(st, line, k - 1));
        let r = line[k - 1];
        lemma_names_parent((st.parent)(r.0, r.1));
    }
}

proof fn lemma_ancestor_line<T: MarfTrieId>(st: AncestryStore<T>, row: HotRow, k: nat) -> (line: Seq<
    HotRow,
>)
    requires
        ancestor(st, row, k) is Some,
    ensures
        is_line(st, line),
        line.len() == k + 1,
        line[0] == row,
        line.last() == ancestor(st, row, k).unwrap(),
    decreases k,
{
    if k == 0 {
        seq![row]
    } else {
        let front = lemma_ancestor_line(st, row, (k - 1) as nat);
        let r = front.last();
        let next = ancestor(st, row, k).unwrap();
        let line = front.push(next);
        lemma_names_parent((st.parent)(r.0, r.1));
        assert(parent_row(st, r) == Some(next));
        assert forall|i: int| 0 <= i < line.len() - 1 implies #[trigger] parent_at(st, line, i) by {
            if i < front.len() - 1 {
                assert(parent_at(st, front, i));
            }
        }
        line
    }
}

/// Does a line of descent from this orphan come, after the orphan itself, to a trie in file `seq`?
pub open spec fn descends_from_file<T: MarfTrieId>(
    st: AncestryStore<T>,
    o: RetainedOrphanRow<T>,
    line: Seq<HotRow>,
    seq: u32,
) -> bool {
    &&& line.len() >= 2
    &&& is_line(st, line)
    &&& line[0] == (o.seq, o.row.external_offset, o.row.external_length)
    &&& line.last().0 == seq
}

/// A file holds an ancestor of an orphan exactly if a line of descent from the orphan comes to it.
pub proof fn law_ancestors_are_lines_of_descent<T: MarfTrieId>(
    st: AncestryStore<T>,
    orphans: Seq<RetainedOrphanRow<T>>,
    seq: u32,
)
    ensures
        holds_ancestor(st, orphans, seq) <==> exists|j: int, line: Seq<HotRow>|
            0 <= j < orphans.len() && #[trigger] descends_from_file(st, orphans[j], line, seq),
{
    if holds_ancestor(st, orphans, seq) {
        let (row, j, k) = choose|row: HotRow, j: int, k: nat|
            k >= 1 && row.0 == seq && #[trigger] comes_through(st, orphans, row, j, k);
        let line = lemma_ancestor_line(st, row_of(orphans[j]), k);
        assert(descends_from_file(st, orphans[j], line, seq));
    }
    if exists|j: int, line: Seq<HotRow>|
        0 <= j < orphans.len() && #[trigger] descends_from_file(st, orphans[j], line, seq) {
        let (j, line) = choose|j: int, line: Seq<HotRow>|
            0 <= j < orphans.len() && #[trigger] descends_from_file(st, orphans[j], line, seq);
        let k = (line.len() - 1) as nat;
        lemma_line_ancestor(st, line, k);
        assert(comes_through(st, orphans, line.last(), j, k));
    }
}

// ---------------------------------------------------------------------------------------
// The sweep
// ---------------------------------------------------------------------------------------
proof fn lemma_joined_contains<A>(lists: Seq<Seq<A>>, i: int, x: A) -> (j: int)
    requires
        0 <= i < lists.len(),
        lists[i].contains(x),
    ensures
        0 <= j < joined_lists(lists).len(),
        joined_lists(lists)[j] == x,
    decreases lists.len(),
{
    let front = lists.drop_last();
    let before = joined_lists(front);
    if i < front.len() {
        assert(front[i] == lists[i]);
        lemma_joined_contains(front, i, x)
    } else {
        let k = choose|k: int| 0 <= k < lists[i].len() && lists[i][k] == x;
        before.len() + k
    }
}

proof fn lemma_joined_from<A>(lists: Seq<Seq<A>>, j: int) -> (i: int)
    requires
        0 <= j < joined_lists(lists).len(),
    ensures
        0 <= i < lists.len(),
        lists[i].contains(joined_lists(lists)[j]),
    decreases lists.len(),
{
    let front = lists.drop_last();
    let before = joined_lists(front);
    if j < before.len() {
        lemma_joined_from(front, j)
    } else {
        assert(lists.last()[j - before.len()] == joined_lists(lists)[j]);
        lists.len() - 1
    }
}

/// Does `lookup` give these heights?
pub open spec fn tells_heights<T: MarfTrieId, H: Fn(&T) -> Result<Option<u32>, Error>>(
    lookup: H,
    height: spec_fn(T) -> Option<u32>,
) -> bool {
    forall|t: T, h: Option<u32>| #[trigger] lookup.ensures((&t,), Ok(h)) ==> height(t) == h
}

/// Is row `j` of candidate `i` an orphan above the horizon, from which a line of descent comes to a
/// trie in file `seq`?
pub open spec fn row_needs<T: MarfTrieId>(
    candidates: Seq<HotFileSweepCandidate<T>>,
    canonical: Map<u32, T>,
    horizon: Option<u32>,
    height: spec_fn(T) -> Option<u32>,
    st: AncestryStore<T>,
    i: int,
    j: int,
    line: Seq<HotRow>,
    seq: u32,
) -> bool {
    &&& 0 <= i < candidates.len()
    &&& 0 <= j < candidates[i].live_rows@.len()
    &&& ({
        let row = candidates[i].live_rows@[j];
        &&& above_horizon(row.block_hash, canonical, horizon, height(row.block_hash))
        &&& line.len() >= 2
        &&& is_line(st, line)
        &&& line[0] == (candidates[i].seq, row.external_offset, row.external_length)
        &&& line.last().0 == seq
    })
}

/// The files that a prepared sweep spares are exactly those that a line of descent comes to from a
/// row, in whichever file, that is an orphan above the horizon. None of them is ever handed out.
pub proof fn law_sweep_spares_ancestors<
    T: MarfTrieId,
    H: Fn(&T) -> Result<Option<u32>, Error>,
    R: Fn(u32, u64) -> Result<Vec<u8>, Error>,
    L: Fn(&T) -> Result<TrieStorageLocation, Error>,
>(
    candidates: Seq<HotFileSweepCandidate<T>>,
    lists: Seq<Seq<RetainedOrphanRow<T>>>,
    canonical: Map<u32, T>,
    horizon: Option<u32>,
    height_lookup: H,
    read_at: R,
    locate: L,
    sweep: HotSweep,
    height: spec_fn(T) -> Option<u32>,
    st: AncestryStore<T>,
    seq: u32,
)
    requires
        prepared(
            candidates,
            lists,
            canonical,
            horizon,
            height_lookup,
            read_at,
            locate,
            sweep,
        ),
        tells_heights(height_lookup, height),
        answers(read_at, locate, st),
    ensures
        sweep.closure@.contains(seq) <==> exists|i: int, j: int, line: Seq<HotRow>| #[trigger]
            row_needs(candidates, canonical, horizon, height, st, i, j, line, seq),
        forall|i: int, j: int, line: Seq<HotRow>, at: int|
            0 <= at <= sweep.classified@.len() && #[trigger] row_needs(
                candidates,
                canonical,
                horizon,
                height,
                st,
                i,
                j,
                line,
                seq,
            ) ==> (#[trigger] sweep_next(sweep.classified@, sweep.closure@, at)).file != Some(seq),
{
    let orphans = joined_lists(lists);
    law_ancestors_are_lines_of_descent(st, orphans, seq);
    assert forall|i: int, j: int, line: Seq<HotRow>| #[trigger]
        row_needs(candidates, canonical, horizon, height, st, i, j, line, seq) implies sweep.closure@.contains(
        seq,
    ) by {
        let c = candidates[i];
        assert(sweep.classified@[i].0 == c.seq);
        let heights = lemma_heights(c, canonical, horizon, height_lookup, sweep, lists, i);
        law_every_retained_orphan_is_listed(c.seq, c.live_rows@, canonical, horizon, heights);
        let row = c.live_rows@[j];
        assert(height_lookup.ensures((&row.block_hash,), Ok(heights[j])));
        let o = entry_of(c.seq, c.live_rows@, heights, j);
        assert(lists[i].contains(o));
        let k = lemma_joined_contains(lists, i, o);
        assert(descends_from_file(st, orphans[k], line, seq));
    }
    if sweep.closure@.contains(seq) {
        let (k, line) = choose|k: int, line: Seq<HotRow>|
            0 <= k < orphans.len() && #[trigger] descends_from_file(st, orphans[k], line, seq);
        let i = lemma_joined_from(lists, k);
        let o = orphans[k];
        let c = candidates[i];
        assert(sweep.classified@[i].0 == c.seq);
        let heights = lemma_heights(c, canonical, horizon, height_lookup, sweep, lists, i);
        law_every_retained_orphan_is_listed(c.seq, c.live_rows@, canonical, horizon, heights);
        let j = choose|j: int|
            0 <= j < c.live_rows@.len() && above_horizon(
                (#[trigger] c.live_rows@[j]).block_hash,
                canonical,
                horizon,
                heights[j],
            ) && o == entry_of(c.seq, c.live_rows@, heights, j);
        assert(height_lookup.ensures((&c.live_rows@[j].block_hash,), Ok(heights[j])));
        assert(row_needs(candidates, canonical, horizon, height, st, i, j, line, seq));
    }
    assert forall|i: int, j: int, line: Seq<HotRow>, at: int|
        0 <= at <= sweep.classified@.len() && #[trigger] row_needs(
            candidates,
            canonical,
            horizon,
            height,
            st,
            i,
            j,
            line,
            seq,
        ) implies (#[trigger] sweep_next(sweep.classified@, sweep.closure@, at)).file != Some(seq) by {
        law_swept_files_may_go(sweep.classified@, sweep.closure@, at);
    }
}

/// The heights by which a candidate was classified.
proof fn lemma_heights<T: MarfTrieId, H: Fn(&T) -> Result<Option<u32>, Error>>(
    c: HotFileSweepCandidate<T>,
    canonical: Map<u32, T>,
    horizon: Option<u32>,
    height_lookup: H,
    sweep: HotSweep,
    lists: Seq<Seq<RetainedOrphanRow<T>>>,
    i: int,
) -> (heights: Seq<Option<u32>>)
    requires
        crate::hot_sweep::classified_by(
            c,
            canonical,
            horizon,
            height_lookup,
            sweep.classified@[i].1,
            lists[i],
        ),
    ensures
        looked_up(height_lookup, c.live_rows@, heights),
        lists[i] == retained_of(c.seq, c.live_rows@, canonical, horizon, heights),
        sweep.classified@[i].1 == crate::hot_reclaim::file_verdict(
            crate::hot_reclaim::verdicts_of(c.live_rows@, canonical, horizon, heights),
        ),
{
    choose|heights: Seq<Option<u32>>|
        {
            &&& #[trigger] looked_up(height_lookup, c.live_rows@, heights)
            &&& sweep.classified@[i].1 == crate::hot_reclaim::file_verdict(
                crate::hot_reclaim::verdicts_of(c.live_rows@, canonical, horizon, heights),
            )
            &&& lists[i] == retained_of(c.seq, c.live_rows@, canonical, horizon, heights)
        }
}

/// Every row of a file that a prepared sweep hands out is an orphan at or below the horizon.
pub proof fn law_swept_rows_are_past_horizon<
    T: MarfTrieId,
    H: Fn(&T) -> Result<Option<u32>, Error>,
    R: Fn(u32, u64) -> Result<Vec<u8>, Error>,
    L: Fn(&T) -> Result<TrieStorageLocation, Error>,
>(
    candidates: Seq<HotFileSweepCandidate<T>>,
    lists: Seq<Seq<RetainedOrphanRow<T>>>,
    canonical: Map<u32, T>,
    horizon: Option<u32>,
    height_lookup: H,
    read_at: R,
    locate: L,
    sweep: HotSweep,
    height: spec_fn(T) -> Option<u32>,
    at: int,
)
    requires
        prepared(
            candidates,
            lists,
            canonical,
            horizon,
            height_lookup,
            read_at,
            locate,
            sweep,
        ),
        tells_heights(height_lookup, height),
        0 <= at <= sweep.classified@.len(),
    ensures
        sweep_next(sweep.classified@, sweep.closure@, at).file matches Some(seq) ==> exists|i: int|
            {
                &&& 0 <= i < candidates.len()
                &&& (#[trigger] candidates[i]).seq == seq
                &&& forall|j: int|
                    0 <= j < candidates[i].live_rows@.len() ==> past_horizon(
                        (#[trigger] candidates[i].live_rows@[j]).block_hash,
                        canonical,
                        horizon,
                        height(candidates[i].live_rows@[j].block_hash),
                    )
            },
{
    law_swept_files_may_go(sweep.classified@, sweep.closure@, at);
    if let Some(seq) = sweep_next(sweep.classified@, sweep.closure@, at).file {
        let i = sweep_next(sweep.classified@, sweep.closure@, at).at - 1;
        let c = candidates[i];
        assert(sweep.classified@[i].0 == c.seq);
        let heights = lemma_heights(c, canonical, horizon, height_lookup, sweep, lists, i);
        law_unlinkable_rows_are_past_horizon(c.live_rows@, canonical, horizon, heights);
        assert forall|j: int| 0 <= j < c.live_rows@.len() implies past_horizon(
            (#[trigger] c.live_rows@[j]).block_hash,
            canonical,
            horizon,
            height(c.live_rows@[j].block_hash),
        ) by {
            assert(height_lookup.ensures((&c.live_rows@[j].block_hash,), Ok(heights[j])));
        }
        assert(candidates[i].seq == seq);
    }
}

} // verus!
