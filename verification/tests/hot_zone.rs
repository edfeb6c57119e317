use marf_index::error::Error;
use marf_index::hot_file::{
    hot_file_path, hot_file_seq, read_mapped, scan_hot_files, HotFile, HotFileSet,
    DEFAULT_HOT_FILE_ROTATION_THRESHOLD_BYTES, HOT_FILE_PREFIX,
};
use marf_index::hot_reclaim::{
    classify_hot_file_tentative, classify_row, enumerate_hot_files_for_sweep,
    HotFileSweepCandidate, HotFileTentativeVerdict, LiveHotRow, NotUnlinkableReason,
    RetainedOrphanRow, RowVerdict,
};
use marf_index::hot_sweep::{
    begin_unlink, sweep_unlinkable_hot_files, HotSweep, SweepStats, UnlinkStep,
};
use marf_index::orphan_closure::{
    check_row_length, parent_from_bytes, precompute_orphan_closure_seqs, StorageKind,
    TrieStorageLocation,
};
use marf_index::reader_fence::{
    next_reader_nap, quiesce_step, reader_should_warn, HotFileReadGuard, QuiesceStep, ReaderFence,
};
use marf_index::value::{BlockHeaderHash, SENTINEL_ARRAY};
use std::cell::RefCell;
use std::collections::{HashMap, HashSet};

const STEM: &str = "dir/marf.sqlite";

fn bhh(byte: u8) -> BlockHeaderHash {
    let mut bytes = [0u8; 32];
    bytes[31] = byte;
    BlockHeaderHash(bytes)
}

#[derive(Clone, Copy)]
struct Row {
    hash: BlockHeaderHash,
    seq: u32,
    offset: u64,
    length: u64,
    hot: bool,
}

/// A hot zone held in memory: the set, what the files hold, their fences, and the rows that
/// reference them.
struct Zone {
    set: HotFileSet,
    contents: HashMap<u32, Vec<u8>>,
    fences: HashMap<u32, ReaderFence>,
    rows: Vec<Row>,
}

impl Zone {
    fn new(threshold: u64) -> Zone {
        let (set, orphans) = open_set(STEM, 1, false, threshold, false, &[], &[]).unwrap();
        assert!(orphans.is_empty());
        let mut contents = HashMap::new();
        contents.insert(1, Vec::new());
        let mut fences = HashMap::new();
        fences.insert(1, ReaderFence::new());
        Zone {
            set,
            contents,
            fences,
            rows: Vec::new(),
        }
    }

    fn append(&mut self, buf: &[u8]) -> (u32, u64) {
        let (seq, offset) = self.set.append_to_active(buf).unwrap();
        let file = self.contents.get_mut(&seq).unwrap();
        assert_eq!(file.len() as u64, offset);
        file.extend_from_slice(buf);
        (seq, offset)
    }

    fn rotate(&mut self) -> u32 {
        let seq = self.set.rotate(0).unwrap();
        self.contents.insert(seq, Vec::new());
        self.fences.insert(seq, ReaderFence::new());
        seq
    }

    fn read(&self, seq: u32, buf: &mut [u8], offset: u64) -> Option<usize> {
        read_mapped(&self.contents[&seq], buf, offset)
    }

    fn append_blob_with_parent(&mut self, parent: &BlockHeaderHash) -> (u32, u64, u64) {
        let mut blob = parent.0.to_vec();
        blob.extend_from_slice(&[0u8; 4]);
        let len = blob.len() as u64;
        let (seq, offset) = self.append(&blob);
        (seq, offset, len)
    }

    fn insert_row(&mut self, hash: BlockHeaderHash, at: (u32, u64, u64), hot: bool) {
        self.rows.push(Row {
            hash,
            seq: at.0,
            offset: at.1,
            length: at.2,
            hot,
        });
    }

    fn rows_of(&self, seq: u32) -> Vec<LiveHotRow<BlockHeaderHash>> {
        self.rows
            .iter()
            .filter(|r| r.hot && r.seq == seq)
            .map(|r| LiveHotRow {
                block_hash: r.hash,
                external_offset: r.offset,
                external_length: r.length,
            })
            .collect()
    }

    fn read_at(&self, seq: u32, offset: u64) -> Result<Vec<u8>, Error> {
        let mut buf = vec![0u8; 32];
        match self.contents.get(&seq) {
            None => Err(Error::CorruptionError("no such file".to_string())),
            Some(file) => {
                let n = read_mapped(file, &mut buf, offset).unwrap_or(0);
                buf.truncate(n);
                Ok(buf)
            }
        }
    }

    fn locate(&self, hash: &BlockHeaderHash) -> Result<TrieStorageLocation, Error> {
        match self.rows.iter().find(|r| r.hash == *hash) {
            None => Err(Error::NotFoundError),
            Some(r) => Ok(TrieStorageLocation {
                kind: if r.hot {
                    StorageKind::Hot
                } else {
                    StorageKind::Cold
                },
                seq: r.seq,
                offset: r.offset,
                length: r.length,
            }),
        }
    }

    fn closure(
        &self,
        orphans: &[RetainedOrphanRow<BlockHeaderHash>],
    ) -> Result<HashSet<u32>, Error> {
        precompute_orphan_closure_seqs(
            orphans,
            &|seq, offset| self.read_at(seq, offset),
            &|hash: &BlockHeaderHash| self.locate(hash),
        )
    }

    fn apply_unlinkable(&mut self, seq: u32) -> Result<u64, Error> {
        let (path, mut step) = begin_unlink(&self.set, seq)?;
        assert_eq!(path, hot_file_path(STEM, seq));
        let mut rows_deleted = 0;
        let mut error = None;
        loop {
            let ok = match step {
                UnlinkStep::RaiseFence => {
                    self.fences.get_mut(&seq).unwrap().set_mutate_pending(true);
                    true
                }
                UnlinkStep::AwaitQuiesce => {
                    let quiet = quiesce_step(&self.fences[&seq], true, 50) == QuiesceStep::Quiet;
                    if !quiet {
                        error = Some(Error::InProgressError);
                    }
                    quiet
                }
                UnlinkStep::DeleteRows => {
                    let before = self.rows.len();
                    self.rows.retain(|r| !(r.hot && r.seq == seq));
                    rows_deleted = (before - self.rows.len()) as u64;
                    true
                }
                UnlinkStep::ClearFence | UnlinkStep::Abandon => {
                    self.fences.get_mut(&seq).unwrap().set_mutate_pending(false);
                    true
                }
                UnlinkStep::DropEntry => {
                    self.set.drop_seq(seq);
                    true
                }
                UnlinkStep::RemoveFile => self.contents.remove(&seq).is_some(),
                UnlinkStep::Done => return Ok(rows_deleted),
                UnlinkStep::Failed => return Err(error.unwrap()),
            };
            step = step.next(ok);
        }
    }

    fn sweep(
        &mut self,
        canonical: &HashMap<u32, BlockHeaderHash>,
        horizon: Option<u32>,
        heights: &[(BlockHeaderHash, u32)],
    ) -> Result<SweepStats, Error> {
        let mut sweep = sweep_unlinkable_hot_files(
            &self.set,
            |seq| Ok(self.rows_of(seq)),
            canonical,
            horizon,
            &|hash: &BlockHeaderHash| Ok(height_of(heights, hash)),
            &|seq, offset| self.read_at(seq, offset),
            &|hash: &BlockHeaderHash| self.locate(hash),
        )?;
        while let Some(seq) = sweep.next_file() {
            let outcome = self.apply_unlinkable(seq);
            sweep.applied(outcome)?;
        }
        Ok(sweep.stats())
    }

    fn count_rows(&self, seq: u32) -> usize {
        self.rows_of(seq).len()
    }
}

fn height_of(pairs: &[(BlockHeaderHash, u32)], hash: &BlockHeaderHash) -> Option<u32> {
    pairs.iter().find(|p| p.0 == *hash).map(|p| p.1)
}

fn live_row(byte: u8, offset: u64, length: u64) -> LiveHotRow<BlockHeaderHash> {
    LiveHotRow {
        block_hash: bhh(byte),
        external_offset: offset,
        external_length: length,
    }
}

fn retained_orphan(
    height: u32,
    hash: BlockHeaderHash,
    at: (u32, u64, u64),
) -> RetainedOrphanRow<BlockHeaderHash> {
    RetainedOrphanRow {
        seq: at.0,
        height,
        row: LiveHotRow {
            block_hash: hash,
            external_offset: at.1,
            external_length: at.2,
        },
    }
}

/// Open a set. The rows that go are the ones that are returned.
fn open_set(
    db_path: &str,
    active_seq: u32,
    mmap: bool,
    threshold: u64,
    readonly: bool,
    on_disk: &[(u32, u64)],
    referenced: &[(u32, u64)],
) -> Result<(HotFileSet, Vec<u32>), Error> {
    let dropped = RefCell::new(Vec::new());
    let drop_rows = |seq: u32| {
        dropped.borrow_mut().push(seq);
        Ok(())
    };
    let opened = HotFileSet::open(
        db_path, active_seq, mmap, threshold, readonly, on_disk, referenced, drop_rows,
    );
    if let Ok((_, orphans)) = &opened {
        assert_eq!(*orphans, *dropped.borrow());
    }
    opened
}

fn corruption_message(e: Error) -> String {
    match e {
        Error::CorruptionError(m) => m,
        other => panic!("expected corruption, got {:?}", other),
    }
}

// ---- hot files ----

#[test]
fn hot_file_names() {
    assert_eq!(HOT_FILE_PREFIX, ".hot.");
    assert_eq!(DEFAULT_HOT_FILE_ROTATION_THRESHOLD_BYTES, 1_073_741_824);
    assert_eq!(hot_file_path("a/db", 7), "a/db.hot.00000007");
    assert_eq!(hot_file_path("db", u32::MAX), "db.hot.4294967295");
    assert_eq!(hot_file_seq("db", "db.hot.00000007"), Some(7));
    assert_eq!(hot_file_seq("db", "db.hot.7"), Some(7));
    assert_eq!(hot_file_seq("db", "db.hot.4294967296"), None);
    assert_eq!(hot_file_seq("db", "db.hot."), None);
    assert_eq!(hot_file_seq("db", "dc.hot.00000007"), None);
    assert_eq!(hot_file_seq("db", "db"), None);
    let names = vec![
        "db.hot.00000002".to_string(),
        "db.blobs".to_string(),
        "db.hot.00000001".to_string(),
    ];
    assert_eq!(scan_hot_files("db", &names), vec![2, 1]);
}

#[test]
fn hot_file_set_open_creates_active_file_on_fresh_db() {
    let (set, orphans) = open_set(STEM, 1, false, 1 << 20, false, &[], &[]).unwrap();
    assert_eq!(set.active_seq(), 1);
    assert_eq!(set.file_count(), 1);
    assert!(orphans.is_empty());
    assert_eq!(set.path_for_seq(1).unwrap(), hot_file_path(STEM, 1));
    assert_eq!(set.active_len().unwrap(), 0);
    // a reader must not make one up
    let m = corruption_message(
        open_set(STEM, 1, false, 1 << 20, true, &[], &[]).unwrap_err(),
    );
    assert!(m.contains("readonly") && m.contains("seq=1"));
}

#[test]
fn hot_file_append_then_read_round_trips_bytes() {
    let mut zone = Zone::new(1 << 20);
    let payload = b"hello hot zone";
    let (seq, offset) = zone.append(payload);
    assert_eq!(seq, 1);
    assert_eq!(offset, 0, "first append starts at offset 0");

    let mut buf = vec![0u8; payload.len()];
    let n = zone.read(seq, &mut buf, offset).unwrap();
    assert_eq!(n, payload.len());
    assert_eq!(buf, payload);

    // A second append lands immediately after the first.
    let payload2 = b"second";
    let (seq2, offset2) = zone.append(payload2);
    assert_eq!(seq2, 1);
    assert_eq!(offset2, payload.len() as u64);
    let mut buf2 = vec![0u8; payload2.len()];
    zone.read(seq2, &mut buf2, offset2).unwrap();
    assert_eq!(buf2, payload2);
}

#[test]
fn read_mapped_edges() {
    let mut buf = [9u8; 4];
    assert_eq!(read_mapped(&[1, 2, 3], &mut buf, 1), Some(2));
    assert_eq!(buf, [2, 3, 9, 9]);
    assert_eq!(read_mapped(&[1, 2, 3], &mut buf, 3), Some(0));
    assert_eq!(read_mapped(&[1, 2, 3], &mut buf, 4), None);
    assert_eq!(buf, [2, 3, 9, 9]);
}

#[test]
fn hot_file_rotate_bumps_seq_and_starts_fresh_offset() {
    // 32-byte rotation threshold: easy to cross.
    let mut zone = Zone::new(32);
    zone.append(&[0xab; 31]);
    assert!(!zone.set.should_rotate().unwrap());
    zone.append(&[0xab; 2]);
    assert!(zone.set.should_rotate().unwrap(), "33 bytes > 32-byte threshold");

    let new_seq = zone.rotate();
    assert_eq!(new_seq, 2);
    assert_eq!(zone.set.active_seq(), 2);
    // Both files are tracked in the set.
    assert_eq!(zone.set.file_count(), 2);

    // Append after rotate lands at offset 0 of seq=2.
    let (seq, offset) = zone.append(b"post-rotate");
    assert_eq!(seq, 2);
    assert_eq!(offset, 0);
    zone.set.set_rotation_threshold_bytes(11);
    assert_eq!(zone.set.rotation_threshold_bytes(), 11);
    assert!(zone.set.should_rotate().unwrap());
}

#[test]
fn rotation_ends_with_the_last_number() {
    let (mut set, _) = open_set(STEM, u32::MAX, false, 16, false, &[], &[]).unwrap();
    assert!(matches!(
        set.rotate(0).unwrap_err(),
        Error::CorruptionError(_)
    ));
    assert_eq!(set.active_seq(), u32::MAX);
}

#[test]
fn hot_file_set_open_picks_up_existing_files() {
    let (set, _) =
        open_set(STEM, 2, false, 16, false, &[(1, 17), (2, 2)], &[]).unwrap();
    assert_eq!(
        set.file_count(),
        2,
        "directory scan should find both rotated and active files"
    );
    assert_eq!(set.active_seq(), 2, "active_seq comes from what is recorded");
    assert_eq!(set.active_len().unwrap(), 2);
    assert_eq!(set.seqs(), vec![1, 2]);
}

#[test]
fn hot_file_read_guard_increments_and_decrements() {
    let mut fence = ReaderFence::new();
    assert_eq!(fence.active_reads, 0);
    let guard = HotFileReadGuard::try_from_fence(&mut fence, 1).unwrap();
    assert_eq!(guard.seq(), 1);
    assert_eq!(fence.active_reads, 1);
    let guard2 = guard.clone_guard(&mut fence);
    assert_eq!(fence.active_reads, 2);
    guard.release(&mut fence);
    assert_eq!(fence.active_reads, 1);
    guard2.release(&mut fence);
    assert_eq!(fence.active_reads, 0);
}

#[test]
fn hot_file_read_guard_per_file_isolation() {
    let mut zone = Zone::new(16);
    zone.append(&[0u8; 17]);
    zone.rotate();
    let g1 = HotFileReadGuard::try_from_fence(zone.fences.get_mut(&1).unwrap(), 1).unwrap();
    let _g2 = HotFileReadGuard::try_from_fence(zone.fences.get_mut(&2).unwrap(), 2).unwrap();
    assert_eq!(zone.fences[&2].active_reads, 1);
    g1.release(zone.fences.get_mut(&1).unwrap());
    assert_eq!(
        zone.fences[&2].active_reads, 1,
        "dropping a guard on seq=1 must not decrement seq=2's counter"
    );
}

#[test]
fn hot_file_truncate_active_clips_to_new_len() {
    let mut zone = Zone::new(1 << 20);
    zone.append(&[0xcd; 100]);
    assert_eq!(zone.set.active_len().unwrap(), 100);

    zone.set.truncate_active(40).unwrap();
    assert_eq!(zone.set.active_len().unwrap(), 40);
}

#[test]
fn single_hot_file() {
    let mut f = HotFile::new("p".to_string(), 3, 10);
    assert_eq!((f.path(), f.seq(), f.len()), ("p", 3, 10));
    assert_eq!(f.append(&[0; 5]), 10);
    assert_eq!(f.len(), 15);
    f.truncate(1);
    assert_eq!(f.len(), 1);
}

#[test]
fn set_without_its_active_file() {
    let mut zone = Zone::new(16);
    zone.set.drop_seq(1);
    assert_eq!(zone.set.file_count(), 0);
    assert!(zone.set.active_len().is_err());
    assert!(zone.set.should_rotate().is_err());
    assert!(zone.set.append_to_active(&[1]).is_err());
    assert!(zone.set.truncate_active(0).is_err());
}

#[test]
fn reader_fence_blocks_when_mutate_pending_is_set() {
    let mut fence = ReaderFence::new();
    let g = HotFileReadGuard::try_from_fence(&mut fence, 1).unwrap();
    g.release(&mut fence);

    fence.set_mutate_pending(true);
    assert!(
        HotFileReadGuard::try_from_fence(&mut fence, 1).is_none(),
        "reader must back off when mutate_pending is set"
    );
    assert_eq!(fence.active_reads, 0);

    fence.set_mutate_pending(false);
    let g = HotFileReadGuard::try_from_fence(&mut fence, 1).unwrap();
    assert_eq!(fence.active_reads, 1);
    g.release(&mut fence);
    assert_eq!(fence.active_reads, 0);
}

#[test]
fn reader_that_lost_the_race_backs_off() {
    let mut fence = ReaderFence::new();
    fence.announce();
    fence.set_mutate_pending(true);
    assert!(!fence.is_quiet());
    assert!(!fence.settle());
    assert!(fence.is_quiet());
}

#[test]
fn writer_quiesce_drains_active_reads_before_proceeding() {
    let mut fence = ReaderFence::new();
    assert_eq!(quiesce_step(&fence, false, 50), QuiesceStep::Quiet);
    let g = HotFileReadGuard::try_from_fence(&mut fence, 1).unwrap();
    assert_eq!(quiesce_step(&fence, false, 50), QuiesceStep::Nap(100));
    assert_eq!(quiesce_step(&fence, false, 4_000), QuiesceStep::Nap(5_000));
    assert_eq!(
        quiesce_step(&fence, true, 50),
        QuiesceStep::TimedOut,
        "quiesce must time out while a reader is active"
    );
    g.release(&mut fence);
    assert_eq!(quiesce_step(&fence, true, 50), QuiesceStep::Quiet);
}

#[test]
fn reader_naps() {
    assert_eq!(next_reader_nap(100), 200);
    assert_eq!(next_reader_nap(6_400), 10_000);
    assert_eq!(next_reader_nap(u64::MAX), 10_000);
    assert!(!reader_should_warn(false, 1_999_999));
    assert!(reader_should_warn(false, 2_000_000));
    assert!(!reader_should_warn(true, 2_000_000));
}

#[test]
fn c5_passes_through_post_promotion_pre_sweep_file() {
    for readonly in [false, true] {
        let (set, orphans) =
            open_set(STEM, 2, false, 32, readonly, &[(1, 33), (2, 0)], &[]).unwrap();
        assert!(orphans.is_empty());
        assert!(set.seqs().contains(&1), "rotated seq still in the set");
    }
}

#[test]
fn c5_rw_reconcile_deletes_orphan_marf_data_rows() {
    let (set, orphans) =
        open_set(STEM, 1, false, 1 << 20, false, &[(1, 0)], &[(99, 64)]).unwrap();
    assert_eq!(orphans, vec![99], "orphan rows must be deleted");
    assert!(set.check_committed(&[]).is_ok());
    assert!(set.check_committed(&[(99, 64)]).is_err());
}

#[test]
fn c5_readonly_observes_orphan_marf_data_rows_returns_corruption_error() {
    let msg = corruption_message(
        open_set(STEM, 1, false, 1 << 20, true, &[(1, 0)], &[(99, 64)]).unwrap_err(),
    );
    assert!(msg.contains("readonly"), "message must call out readonly: {}", msg);
    assert!(msg.contains("orphan_seqs"), "message must name the orphan: {}", msg);
    assert_eq!(
        msg,
        "hot_file: readonly open observed missing referenced hot file(s) (orphan_seqs=[99]); \
         reopen RW to reconcile"
    );
}

#[test]
fn c5_rw_reconcile_handles_multiple_orphan_seqs_and_passes_through_unswept() {
    let (set, orphans) = open_set(
        STEM,
        2,
        false,
        32,
        false,
        &[(1, 33), (2, 0)],
        &[(98, 64), (99, 128)],
    )
    .unwrap();
    assert_eq!(orphans, vec![98, 99]);
    assert!(set.seqs().contains(&1));
    let msg = corruption_message(
        open_set(STEM, 2, false, 32, true, &[(2, 0)], &[(98, 64), (99, 128)]).unwrap_err(),
    );
    assert!(msg.contains("[98, 99]"));
}

#[test]
fn opening_checks_what_was_committed_and_passes_errors_on() {
    let msg = corruption_message(
        open_set(STEM, 1, false, 32, false, &[(1, 33)], &[(1, 34), (9, 5)]).unwrap_err(),
    );
    assert!(msg.contains("shorter than committed extent (on_disk=33, committed=34)"));
    let fails = |seq: u32| match seq {
        9 => Err(Error::BadSeekValue),
        _ => Ok(()),
    };
    assert!(matches!(
        HotFileSet::open(STEM, 1, false, 32, false, &[(1, 33)], &[(8, 5), (9, 5)], fails),
        Err(Error::BadSeekValue)
    ));
}

#[test]
fn committed_extent_is_checked() {
    let (set, _) = open_set(STEM, 1, false, 32, false, &[(1, 33)], &[(1, 33)]).unwrap();
    assert!(set.check_committed(&[(1, 33)]).is_ok());
    let msg = corruption_message(set.check_committed(&[(1, 34)]).unwrap_err());
    assert_eq!(
        msg,
        "hot_file: <db>.hot.00000001 is shorter than committed extent \
         (on_disk=33, committed=34)"
    );
    let msg = corruption_message(set.check_committed(&[(1, 33), (7, 1)]).unwrap_err());
    assert_eq!(
        msg,
        "hot_file: <db>.hot.00000007 is referenced by marf_data but not present on disk"
    );
}

#[test]
fn a_reader_names_the_active_file_it_misses() {
    let msg = corruption_message(
        open_set("/x/index.sqlite", 3, false, 32, true, &[], &[]).unwrap_err(),
    );
    assert_eq!(
        msg,
        "hot_file: readonly open: active hot file (seq=3) is missing from disk at \
         /x/index.sqlite.hot.00000003; refusing to synthesize"
    );
}

// ---- candidates ----

#[test]
fn enumerate_includes_fully_promoted_file_with_zero_rows() {
    let mut zone = Zone::new(32);
    zone.append(&[0xab; 33]);
    zone.rotate();
    let candidates =
        enumerate_hot_files_for_sweep(&zone.set, |seq| Ok(zone.rows_of(seq))).unwrap();
    assert_eq!(candidates.len(), 1, "expected only the rotated file");
    assert_eq!(candidates[0].seq, 1);
    assert!(candidates[0].live_rows.is_empty());
}

#[test]
fn enumerate_attaches_live_rows_to_mixed_file() {
    let mut zone = Zone::new(32);
    zone.append(&[0xab; 33]);
    zone.rotate();
    zone.insert_row(bhh(1), (1, 0, 16), true);
    zone.insert_row(bhh(2), (1, 16, 17), true);
    let candidates =
        enumerate_hot_files_for_sweep(&zone.set, |seq| Ok(zone.rows_of(seq))).unwrap();
    assert_eq!(candidates.len(), 1);
    let cand = &candidates[0];
    assert_eq!(cand.seq, 1);
    assert_eq!(cand.live_rows.len(), 2);
    assert_eq!(cand.live_rows[0].external_offset, 0);
    assert_eq!(cand.live_rows[0].external_length, 16);
    assert_eq!(cand.live_rows[1].external_offset, 16);
    assert_eq!(cand.live_rows[1].external_length, 17);
}

#[test]
fn enumerate_excludes_active_file_unconditionally() {
    let mut zone = Zone::new(1 << 20);
    zone.insert_row(bhh(1), (1, 0, 32), true);
    let candidates =
        enumerate_hot_files_for_sweep(&zone.set, |seq| Ok(zone.rows_of(seq))).unwrap();
    assert!(
        candidates.is_empty(),
        "active file must never appear as a sweep candidate"
    );
}

#[test]
fn enumerate_sorts_oldest_to_newest_by_seq() {
    let mut zone = Zone::new(16);
    for _ in 0..3 {
        zone.append(&[0xcd; 17]);
        zone.rotate();
    }
    assert_eq!(zone.set.active_seq(), 4);
    zone.insert_row(bhh(1), (2, 0, 8), true);
    let candidates =
        enumerate_hot_files_for_sweep(&zone.set, |seq| Ok(zone.rows_of(seq))).unwrap();
    assert_eq!(candidates.len(), 3, "active file (4) excluded");
    let seqs: Vec<u32> = candidates.iter().map(|c| c.seq).collect();
    assert_eq!(seqs, vec![1, 2, 3], "oldest-to-newest order");
    assert!(candidates[0].live_rows.is_empty());
    assert_eq!(candidates[1].live_rows.len(), 1);
    assert!(candidates[2].live_rows.is_empty());
}

#[test]
fn enumerate_passes_errors_on() {
    let mut zone = Zone::new(16);
    zone.rotate();
    let r = enumerate_hot_files_for_sweep::<BlockHeaderHash, _>(&zone.set, |_| {
        Err(Error::InProgressError)
    });
    assert!(matches!(r.unwrap_err(), Error::InProgressError));
}

// ---- classification ----

fn classify(
    candidate: &HotFileSweepCandidate<BlockHeaderHash>,
    canonical: &[(u32, BlockHeaderHash)],
    horizon: Option<u32>,
    heights: &[(BlockHeaderHash, u32)],
) -> (
    HotFileTentativeVerdict,
    Vec<RetainedOrphanRow<BlockHeaderHash>>,
) {
    let canonical: HashMap<u32, BlockHeaderHash> = canonical.iter().cloned().collect();
    classify_hot_file_tentative(candidate, &canonical, horizon, &|hash: &BlockHeaderHash| {
        Ok(height_of(heights, hash))
    })
    .unwrap()
}

fn stays(reason: NotUnlinkableReason) -> HotFileTentativeVerdict {
    HotFileTentativeVerdict::NotUnlinkable { reason }
}

#[test]
fn classify_empty_live_rows_returns_unlinkable() {
    let candidate: HotFileSweepCandidate<BlockHeaderHash> = HotFileSweepCandidate {
        seq: 7,
        live_rows: Vec::new(),
    };
    let canonical = HashMap::<u32, BlockHeaderHash>::new();
    let (verdict, retained) = classify_hot_file_tentative(
        &candidate,
        &canonical,
        Some(100),
        // Lookup should never be called for an empty file; this would trip if it were.
        &|_: &BlockHeaderHash| -> Result<Option<u32>, Error> {
            panic!("height_lookup must not be called when live_rows is empty");
        },
    )
    .unwrap();
    assert_eq!(verdict, HotFileTentativeVerdict::Unlinkable);
    assert!(retained.is_empty());
}

#[test]
fn classify_all_canonical_returns_not_unlinkable() {
    let candidate = HotFileSweepCandidate {
        seq: 3,
        live_rows: vec![live_row(1, 0, 16), live_row(2, 16, 16)],
    };
    let (verdict, retained) = classify(
        &candidate,
        &[(10, bhh(1)), (11, bhh(2))],
        Some(100),
        &[(bhh(1), 10), (bhh(2), 11)],
    );
    assert_eq!(verdict, stays(NotUnlinkableReason::HasCanonicalRow));
    assert!(retained.is_empty(), "canonical-only files surface no orphans");
}

#[test]
fn classify_all_orphan_past_horizon_returns_unlinkable() {
    let candidate = HotFileSweepCandidate {
        seq: 3,
        live_rows: vec![live_row(1, 0, 16), live_row(2, 16, 16)],
    };
    let (verdict, retained) = classify(
        &candidate,
        &[(10, bhh(99)), (11, bhh(98))],
        Some(20), // both heights are at most 20
        &[(bhh(1), 10), (bhh(2), 11)],
    );
    assert_eq!(verdict, HotFileTentativeVerdict::Unlinkable);
    assert!(retained.is_empty());
}

#[test]
fn classify_mixed_canonical_and_past_horizon_orphan_blocks_via_canonical() {
    let candidate = HotFileSweepCandidate {
        seq: 3,
        live_rows: vec![live_row(1, 0, 16), live_row(2, 16, 16)],
    };
    let (verdict, retained) = classify(
        &candidate,
        &[(10, bhh(1)), (11, bhh(99))],
        Some(20),
        &[(bhh(1), 10), (bhh(2), 11)],
    );
    assert_eq!(verdict, stays(NotUnlinkableReason::HasCanonicalRow));
    assert!(retained.is_empty());
}

#[test]
fn classify_retained_orphan_blocks_unlink_and_surfaces_for_closure() {
    let candidate = HotFileSweepCandidate {
        seq: 5,
        live_rows: vec![live_row(1, 0, 16), live_row(2, 16, 17)],
    };
    let (verdict, retained) = classify(
        &candidate,
        &[(10, bhh(99)), (50, bhh(98))],
        Some(20), // height 10 is past horizon; height 50 is retained
        &[(bhh(1), 10), (bhh(2), 50)],
    );
    assert_eq!(verdict, stays(NotUnlinkableReason::HasRetainedOrphan));
    assert_eq!(retained.len(), 1, "only the retained orphan is surfaced");
    let surfaced = &retained[0];
    assert_eq!(surfaced.seq, 5);
    assert_eq!(surfaced.height, 50);
    assert_eq!(surfaced.row.block_hash, bhh(2));
    assert_eq!(surfaced.row.external_offset, 16);
    assert_eq!(surfaced.row.external_length, 17);
}

#[test]
fn classify_orphan_with_undefined_horizon_is_retained() {
    let candidate = HotFileSweepCandidate {
        seq: 4,
        live_rows: vec![live_row(1, 0, 16)],
    };
    let (verdict, retained) = classify(&candidate, &[(10, bhh(99))], None, &[(bhh(1), 10)]);
    assert_eq!(verdict, stays(NotUnlinkableReason::HasRetainedOrphan));
    assert_eq!(retained.len(), 1);
    assert_eq!(retained[0].height, 10);
}

#[test]
fn classify_unknown_height_via_truncated_canonical_chain_blocks_unlink() {
    let candidate = HotFileSweepCandidate {
        seq: 4,
        live_rows: vec![live_row(1, 0, 16)],
    };
    let (verdict, retained) = classify(
        &candidate,
        &[(100, bhh(98)), (101, bhh(99))],
        Some(200),
        &[(bhh(1), 50)],
    );
    assert_eq!(verdict, stays(NotUnlinkableReason::HasUnknownAncestryRow));
    assert!(retained.is_empty());
}

#[test]
fn classify_row_unknown_to_chainstate_blocks_unlink() {
    let candidate = HotFileSweepCandidate {
        seq: 4,
        live_rows: vec![live_row(1, 0, 16)],
    };
    let (verdict, retained) = classify(&candidate, &[(50, bhh(99))], Some(200), &[]);
    assert_eq!(verdict, stays(NotUnlinkableReason::HasUnknownAncestryRow));
    assert!(retained.is_empty());
}

#[test]
fn classify_canonical_takes_precedence_but_retained_still_surfaces() {
    let candidate = HotFileSweepCandidate {
        seq: 8,
        live_rows: vec![live_row(1, 0, 16), live_row(2, 16, 17), live_row(3, 33, 5)],
    };
    let (verdict, retained) = classify(
        &candidate,
        &[(10, bhh(1)), (50, bhh(99))],
        Some(20),
        &[(bhh(1), 10), (bhh(2), 50)],
    );
    assert_eq!(verdict, stays(NotUnlinkableReason::HasCanonicalRow));
    assert_eq!(retained.len(), 1);
    assert_eq!(retained[0].row.block_hash, bhh(2));
}

#[test]
fn classify_single_rows() {
    let row = live_row(1, 0, 16);
    let canonical: HashMap<u32, BlockHeaderHash> = [(10, bhh(9))].into_iter().collect();
    let at = |h: u32, horizon: Option<u32>| {
        classify_row(&row, &canonical, horizon, |_: &BlockHeaderHash| Ok(Some(h))).unwrap()
    };
    assert_eq!(at(10, Some(10)), (RowVerdict::OrphanPastHorizon, Some(10)));
    assert_eq!(at(10, Some(9)), (RowVerdict::OrphanRetained, Some(10)));
    assert_eq!(at(11, Some(20)), (RowVerdict::UnknownSkip, Some(11)));
    assert_eq!(
        classify_row(&row, &canonical, None, |_: &BlockHeaderHash| Ok(None)).unwrap(),
        (RowVerdict::UnknownSkip, None)
    );
    assert!(matches!(
        classify_row(&row, &canonical, None, |_: &BlockHeaderHash| Err(
            Error::InProgressError
        ))
        .unwrap_err(),
        Error::InProgressError
    ));
    let candidate = HotFileSweepCandidate {
        seq: 4,
        live_rows: vec![row],
    };
    assert!(matches!(
        classify_hot_file_tentative(&candidate, &canonical, None, &|_: &BlockHeaderHash| Err(
            Error::InProgressError
        ))
        .unwrap_err(),
        Error::InProgressError
    ));
}

// ---- ancestors of retained orphans ----

#[test]
fn closure_lone_retained_orphan_with_parent_sentinel_returns_empty_set() {
    let mut zone = Zone::new(4096);
    let at = zone.append_blob_with_parent(&BlockHeaderHash([0u8; 32]));
    zone.rotate();
    zone.insert_row(bhh(1), at, true);
    let closure = zone.closure(&[retained_orphan(50, bhh(1), at)]).unwrap();
    assert!(closure.is_empty());
}

#[test]
fn closure_walks_to_first_cold_ancestor_and_terminates() {
    let mut zone = Zone::new(4096);
    zone.insert_row(bhh(3), (0, 0, 0), false);
    let b = zone.append_blob_with_parent(&bhh(3));
    zone.rotate();
    zone.insert_row(bhh(2), b, true);
    let a = zone.append_blob_with_parent(&bhh(2));
    zone.rotate();
    zone.insert_row(bhh(1), a, true);
    let closure = zone.closure(&[retained_orphan(100, bhh(1), a)]).unwrap();
    assert_eq!(closure.len(), 1, "exactly B's seq is recorded");
    assert!(closure.contains(&b.0));
    assert!(!closure.contains(&a.0), "the orphan's own seq is never recorded");
}

#[test]
fn closure_walks_to_marf_sentinel_and_terminates() {
    let mut zone = Zone::new(4096);
    let b = zone.append_blob_with_parent(&BlockHeaderHash(SENTINEL_ARRAY));
    zone.rotate();
    zone.insert_row(bhh(2), b, true);
    let a = zone.append_blob_with_parent(&bhh(2));
    zone.rotate();
    zone.insert_row(bhh(1), a, true);
    let closure = zone.closure(&[retained_orphan(100, bhh(1), a)]).unwrap();
    assert_eq!(closure, [b.0].into_iter().collect());
}

#[test]
fn closure_records_each_distinct_hot_ancestor_seq() {
    let mut zone = Zone::new(4096);
    let c = zone.append_blob_with_parent(&BlockHeaderHash([0u8; 32]));
    zone.rotate();
    zone.insert_row(bhh(3), c, true);
    let b = zone.append_blob_with_parent(&bhh(3));
    zone.rotate();
    zone.insert_row(bhh(2), b, true);
    let a = zone.append_blob_with_parent(&bhh(2));
    zone.rotate();
    zone.insert_row(bhh(1), a, true);
    let closure = zone.closure(&[retained_orphan(100, bhh(1), a)]).unwrap();
    let expected: HashSet<u32> = [b.0, c.0].into_iter().collect();
    assert_eq!(closure, expected, "both B and C seqs must be recorded");
}

#[test]
fn closure_union_across_multiple_retained_orphans() {
    let mut zone = Zone::new(4096);
    let none = BlockHeaderHash([0u8; 32]);
    let b1 = zone.append_blob_with_parent(&none);
    zone.rotate();
    zone.insert_row(bhh(11), b1, true);
    let b2 = zone.append_blob_with_parent(&none);
    zone.rotate();
    zone.insert_row(bhh(22), b2, true);
    let a1 = zone.append_blob_with_parent(&bhh(11));
    zone.rotate();
    zone.insert_row(bhh(1), a1, true);
    let a2 = zone.append_blob_with_parent(&bhh(22));
    zone.rotate();
    zone.insert_row(bhh(2), a2, true);
    let closure = zone
        .closure(&[
            retained_orphan(100, bhh(1), a1),
            retained_orphan(101, bhh(2), a2),
        ])
        .unwrap();
    let expected: HashSet<u32> = [b1.0, b2.0].into_iter().collect();
    assert_eq!(closure, expected, "union of both chains' hot ancestor seqs");
}

#[test]
fn closure_dedups_shared_ancestor_chain() {
    let mut zone = Zone::new(4096);
    let b = zone.append_blob_with_parent(&BlockHeaderHash([0u8; 32]));
    zone.rotate();
    zone.insert_row(bhh(2), b, true);
    let a1 = zone.append_blob_with_parent(&bhh(2));
    zone.rotate();
    zone.insert_row(bhh(11), a1, true);
    let a2 = zone.append_blob_with_parent(&bhh(2));
    zone.rotate();
    zone.insert_row(bhh(12), a2, true);
    let closure = zone
        .closure(&[
            retained_orphan(100, bhh(11), a1),
            retained_orphan(100, bhh(12), a2),
        ])
        .unwrap();
    assert_eq!(
        closure,
        [b.0].into_iter().collect(),
        "shared ancestor recorded exactly once"
    );
}

#[test]
fn closure_ends_on_a_cycle() {
    let mut zone = Zone::new(4096);
    let a = zone.append_blob_with_parent(&bhh(2));
    zone.rotate();
    zone.insert_row(bhh(1), a, true);
    let b = zone.append_blob_with_parent(&bhh(1));
    zone.rotate();
    zone.insert_row(bhh(2), b, true);
    let closure = zone.closure(&[retained_orphan(100, bhh(1), a)]).unwrap();
    assert_eq!(closure, [a.0, b.0].into_iter().collect());
}

#[test]
fn closure_short_blob_length_is_corruption_error() {
    let zone = Zone::new(4096);
    let msg = corruption_message(
        zone.closure(&[retained_orphan(100, bhh(1), (1, 0, 16))])
            .unwrap_err(),
    );
    assert!(
        msg.contains("trie blob header") && msg.contains("would not fit"),
        "unexpected message: {}",
        msg
    );
}

#[test]
fn closure_blob_length_in_32_to_35_is_corruption_error() {
    let zone = Zone::new(4096);
    for short_len in 32u64..36 {
        let msg = corruption_message(
            zone.closure(&[retained_orphan(100, bhh(1), (1, 0, short_len))])
                .unwrap_err(),
        );
        assert!(
            msg.contains(&format!("length {}", short_len)) && msg.contains("trie blob header"),
            "len={}: unexpected message: {}",
            short_len,
            msg
        );
    }
    assert!(check_row_length((1, 0, 36)).is_ok());
}

#[test]
fn closure_short_read_is_corruption_error() {
    let zone = Zone::new(4096);
    let msg = corruption_message(
        zone.closure(&[retained_orphan(100, bhh(1), (1, 0, 36))])
            .unwrap_err(),
    );
    assert_eq!(
        msg,
        "hot_reclaim closure: short read at (seq=1, offset=0): got 0 of 32 bytes"
    );
    assert_eq!(
        parent_from_bytes::<BlockHeaderHash>((1, 0, 36), &bhh(7).0).unwrap(),
        Some(bhh(7))
    );
    assert_eq!(
        parent_from_bytes::<BlockHeaderHash>((1, 0, 36), &[0; 40]).unwrap(),
        None
    );
    assert_eq!(
        parent_from_bytes::<BlockHeaderHash>((1, 0, 36), &[255; 32]).unwrap(),
        None
    );
}

#[test]
fn closure_passes_lookup_errors_on() {
    let mut zone = Zone::new(4096);
    let a = zone.append_blob_with_parent(&bhh(2));
    let r = precompute_orphan_closure_seqs(
        &[retained_orphan(100, bhh(1), a)],
        &|seq, offset| zone.read_at(seq, offset),
        &|_: &BlockHeaderHash| Err(Error::InProgressError),
    );
    assert!(matches!(r.unwrap_err(), Error::InProgressError));
    let gone = zone.closure(&[retained_orphan(100, bhh(1), (9, 0, 36))]);
    assert!(matches!(gone.unwrap_err(), Error::CorruptionError(_)));
}

#[test]
fn closure_walk_terminates_on_parent_not_in_marf_data() {
    let mut zone = Zone::new(4096);
    let a = zone.append_blob_with_parent(&bhh(99));
    zone.rotate();
    zone.insert_row(bhh(1), a, true);
    let closure = zone.closure(&[retained_orphan(100, bhh(1), a)]).unwrap();
    assert!(closure.is_empty());
}

// ---- unlinking ----

#[test]
fn apply_unlinkable_deletes_rows_and_unlinks_file() {
    let mut zone = Zone::new(4096);
    let a = zone.append_blob_with_parent(&bhh(1));
    zone.insert_row(bhh(1), a, true);
    let b = zone.append_blob_with_parent(&bhh(2));
    assert_eq!(b.0, a.0, "both rows are in the same active seq before the rotation");
    zone.insert_row(bhh(2), b, true);
    zone.rotate();
    assert_eq!(zone.set.active_seq(), 2);
    assert_eq!(zone.apply_unlinkable(a.0).unwrap(), 2);
    assert_eq!(zone.count_rows(a.0), 0);
    assert!(!zone.contents.contains_key(&a.0), "hot file must be unlinked");
    assert!(!zone.set.seqs().contains(&a.0), "entry must be dropped");
}

#[test]
fn apply_unlinkable_unlinks_file_with_zero_rows() {
    let mut zone = Zone::new(4096);
    zone.append_blob_with_parent(&BlockHeaderHash([0u8; 32]));
    zone.rotate();
    assert_eq!(zone.apply_unlinkable(1).unwrap(), 0);
    assert!(!zone.contents.contains_key(&1));
}

#[test]
fn apply_unlinkable_refuses_active_seq() {
    let mut zone = Zone::new(4096);
    let active_seq = zone.set.active_seq();
    let a = zone.append_blob_with_parent(&bhh(1));
    zone.insert_row(bhh(1), a, true);
    let msg = corruption_message(zone.apply_unlinkable(active_seq).unwrap_err());
    assert!(
        msg.contains("active hot seq") && msg.contains(&format!("seq={}", active_seq)),
        "expected message naming the active seq, got: {}",
        msg
    );
    assert_eq!(zone.count_rows(active_seq), 1);
    assert!(zone.contents.contains_key(&active_seq));
    assert!(zone.set.seqs().contains(&active_seq));
}

#[test]
fn apply_unlinkable_unknown_seq_returns_corruption_error() {
    let mut zone = Zone::new(4096);
    let msg = corruption_message(zone.apply_unlinkable(999).unwrap_err());
    assert!(msg.contains("seq=999"), "expected message naming seq=999, got: {}", msg);
}

#[test]
fn apply_unlinkable_quiesce_timeout_clears_fence_and_preserves_state() {
    let mut zone = Zone::new(4096);
    let a = zone.append_blob_with_parent(&bhh(1));
    zone.insert_row(bhh(1), a, true);
    zone.rotate();
    let guard =
        HotFileReadGuard::try_from_fence(zone.fences.get_mut(&a.0).unwrap(), a.0).unwrap();
    assert!(matches!(
        zone.apply_unlinkable(a.0).unwrap_err(),
        Error::InProgressError
    ));
    assert_eq!(zone.count_rows(a.0), 1, "rows must not be deleted on timeout");
    assert!(zone.contents.contains_key(&a.0));
    assert!(zone.set.seqs().contains(&a.0));
    assert!(!zone.fences[&a.0].mutate_pending, "fence must be cleared after timeout");
    guard.release(zone.fences.get_mut(&a.0).unwrap());
    assert_eq!(zone.apply_unlinkable(a.0).unwrap(), 1);
    assert!(!zone.contents.contains_key(&a.0));
}

#[test]
fn unlink_steps_on_failure() {
    assert_eq!(UnlinkStep::RaiseFence.next(false), UnlinkStep::Failed);
    assert_eq!(UnlinkStep::AwaitQuiesce.next(false), UnlinkStep::Abandon);
    assert_eq!(UnlinkStep::DeleteRows.next(false), UnlinkStep::Abandon);
    assert_eq!(UnlinkStep::Abandon.next(true), UnlinkStep::Failed);
    assert_eq!(UnlinkStep::ClearFence.next(false), UnlinkStep::Failed);
    assert_eq!(UnlinkStep::DropEntry.next(false), UnlinkStep::Failed);
    assert_eq!(UnlinkStep::RemoveFile.next(false), UnlinkStep::Failed);
}

// ---- the sweep ----

#[test]
fn sweep_no_candidates_returns_default_stats() {
    let mut zone = Zone::new(4096);
    let stats = zone.sweep(&HashMap::new(), None, &[]).unwrap();
    assert_eq!(stats, SweepStats::default());
    assert!(!stats.is_noteworthy());
    assert!(!stats.made_progress());
}

#[test]
fn sweep_oldest_first_with_early_stop_at_apply_phase() {
    let mut zone = Zone::new(64);
    let none = BlockHeaderHash([0u8; 32]);
    zone.append_blob_with_parent(&none);
    zone.rotate();
    let two = zone.append_blob_with_parent(&none);
    zone.insert_row(bhh(2), two, true);
    zone.rotate();
    zone.append_blob_with_parent(&none);
    zone.rotate();
    assert_eq!(zone.set.active_seq(), 4);
    let canonical: HashMap<u32, BlockHeaderHash> = [(10, bhh(2))].into_iter().collect();
    let stats = zone.sweep(&canonical, Some(20), &[(bhh(2), 10)]).unwrap();
    assert_eq!(stats.files_unlinked, 1);
    assert_eq!(stats.rows_deleted, 0);
    assert_eq!(stats.files_retained_by_classifier, 1);
    assert_eq!(stats.files_blocked_by_closure, 0);
    assert_eq!(stats.files_deferred_for_quiesce, 0);
    assert!(!zone.contents.contains_key(&1));
    assert!(zone.contents.contains_key(&2));
    assert!(zone.contents.contains_key(&3));
    assert!(stats.made_progress() && stats.is_noteworthy());
}

#[test]
fn sweep_classifier_visits_younger_files_so_closure_can_block_older_unlink() {
    let mut zone = Zone::new(64);
    let none = BlockHeaderHash([0u8; 32]);
    let one = zone.append_blob_with_parent(&none);
    zone.insert_row(bhh(2), one, true);
    zone.rotate();
    let two = zone.append_blob_with_parent(&none);
    zone.insert_row(bhh(7), two, true);
    zone.rotate();
    let three = zone.append_blob_with_parent(&bhh(2));
    zone.insert_row(bhh(1), three, true);
    zone.rotate();
    assert_eq!(zone.set.active_seq(), 4);
    let canonical: HashMap<u32, BlockHeaderHash> =
        [(10, bhh(98)), (30, bhh(7)), (50, bhh(99))]
            .into_iter()
            .collect();
    let stats = zone
        .sweep(
            &canonical,
            Some(20),
            &[(bhh(2), 10), (bhh(7), 30), (bhh(1), 50)],
        )
        .unwrap();
    assert_eq!(stats.files_unlinked, 0);
    assert_eq!(stats.files_blocked_by_closure, 1);
    assert_eq!(stats.files_retained_by_classifier, 1);
    assert!(zone.contents.contains_key(&1));
    assert!(zone.contents.contains_key(&2));
    assert!(zone.contents.contains_key(&3));
}

#[test]
fn sweep_applies_all_reclaimable_before_early_stop() {
    let mut zone = Zone::new(64);
    let none = BlockHeaderHash([0u8; 32]);
    zone.append_blob_with_parent(&none);
    zone.rotate();
    zone.append_blob_with_parent(&none);
    zone.rotate();
    let three = zone.append_blob_with_parent(&none);
    zone.insert_row(bhh(2), three, true);
    zone.rotate();
    assert_eq!(zone.set.active_seq(), 4);
    let canonical: HashMap<u32, BlockHeaderHash> = [(10, bhh(2))].into_iter().collect();
    let stats = zone.sweep(&canonical, Some(20), &[(bhh(2), 10)]).unwrap();
    assert_eq!(stats.files_unlinked, 2);
    assert_eq!(stats.files_retained_by_classifier, 1);
    assert!(!zone.contents.contains_key(&1));
    assert!(!zone.contents.contains_key(&2));
    assert!(zone.contents.contains_key(&3));
}

#[test]
fn sweep_closure_blocks_tentative_unlinkable_file() {
    let mut zone = Zone::new(64);
    let one = zone.append_blob_with_parent(&BlockHeaderHash([0u8; 32]));
    zone.insert_row(bhh(2), one, true);
    zone.rotate();
    let two = zone.append_blob_with_parent(&bhh(2));
    zone.insert_row(bhh(1), two, true);
    zone.rotate();
    assert_eq!(zone.set.active_seq(), 3);
    let canonical: HashMap<u32, BlockHeaderHash> =
        [(10, bhh(98)), (50, bhh(99))].into_iter().collect();
    let stats = zone
        .sweep(&canonical, Some(20), &[(bhh(2), 10), (bhh(1), 50)])
        .unwrap();
    assert_eq!(stats.files_unlinked, 0, "neither file should be unlinked");
    assert_eq!(stats.files_blocked_by_closure, 1, "file 1 blocked by closure");
    assert_eq!(stats.files_retained_by_classifier, 1, "file 2 holds retained orphan");
    assert!(zone.contents.contains_key(&1));
    assert!(zone.contents.contains_key(&2));
}

#[test]
fn sweep_unlinks_all_past_horizon_orphan_files() {
    let mut zone = Zone::new(64);
    let none = BlockHeaderHash([0u8; 32]);
    let one = zone.append_blob_with_parent(&none);
    zone.insert_row(bhh(7), one, true);
    zone.rotate();
    let two = zone.append_blob_with_parent(&none);
    zone.insert_row(bhh(8), two, true);
    zone.rotate();
    let canonical: HashMap<u32, BlockHeaderHash> =
        [(5, bhh(98)), (10, bhh(99))].into_iter().collect();
    let stats = zone
        .sweep(&canonical, Some(20), &[(bhh(7), 5), (bhh(8), 10)])
        .unwrap();
    assert_eq!(stats.files_unlinked, 2);
    assert_eq!(stats.rows_deleted, 2);
    assert_eq!(stats.files_blocked_by_closure, 0);
    assert_eq!(stats.files_retained_by_classifier, 0);
}

#[test]
fn sweep_defers_busy_files_and_ends_on_errors() {
    let files = vec![
        (1, HotFileTentativeVerdict::Unlinkable),
        (2, HotFileTentativeVerdict::Unlinkable),
        (3, HotFileTentativeVerdict::Unlinkable),
    ];
    let mut sweep = HotSweep::new(files, [2].into_iter().collect());
    assert_eq!(sweep.next_file(), Some(1));
    sweep.applied(Err(Error::InProgressError)).unwrap();
    assert_eq!(sweep.next_file(), Some(3));
    assert!(matches!(
        sweep.applied(Err(Error::NotFoundError)).unwrap_err(),
        Error::NotFoundError
    ));
    assert_eq!(sweep.next_file(), None);
    let stats = sweep.stats();
    assert_eq!(stats.files_deferred_for_quiesce, 1);
    assert_eq!(stats.files_blocked_by_closure, 1);
    assert!(!stats.made_progress());
    assert!(stats.is_noteworthy());
}

#[test]
fn hot_paths_sort_in_order() {
    let seqs = [0u32, 1, 9, 10, 99, 100, 12_345_678, 99_999_999];
    for pair in seqs.windows(2) {
        assert!(hot_file_path(STEM, pair[0]) < hot_file_path(STEM, pair[1]));
    }
}

#[test]
fn a_sweep_runs_to_its_end() {
    let go = HotFileTentativeVerdict::Unlinkable;
    let stay = HotFileTentativeVerdict::NotUnlinkable {
        reason: NotUnlinkableReason::HasCanonicalRow,
    };
    let files = vec![(1, go), (2, go), (3, go), (4, stay), (5, go)];
    let closure: HashSet<u32> = [2].into_iter().collect();
    let applied = RefCell::new(Vec::new());
    let stats = HotSweep::new(files.clone(), closure.clone())
        .run(|seq: u32| {
            applied.borrow_mut().push(seq);
            if seq == 3 {
                Err(Error::InProgressError)
            } else {
                Ok(7)
            }
        })
        .unwrap();
    assert_eq!(applied.into_inner(), vec![1, 3]);
    assert_eq!(stats.files_unlinked, 1);
    assert_eq!(stats.files_deferred_for_quiesce, 1);
    assert_eq!(stats.files_blocked_by_closure, 1);
    assert_eq!(stats.files_retained_by_classifier, 1);
    assert_eq!(stats.rows_deleted, 7);
    assert!(matches!(
        HotSweep::new(files.clone(), closure.clone()).run(|_| Err(Error::BadSeekValue)),
        Err(Error::BadSeekValue)
    ));
    // the rows of two files have no room in one count
    assert!(matches!(
        HotSweep::new(files, closure).run(|seq: u32| Ok(if seq == 1 { u64::MAX } else { 1 })),
        Err(Error::OverflowError)
    ));
}
