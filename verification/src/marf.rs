//! The forest as a whole: options for opening it, what may be written when, what is known of its
//! squashed ranges, and retries of reads that a squash has overtaken.

use crate::error::{corruption, corruption_of, Error, Piece};
use crate::hash::{sha512_256, TrieHash};
use crate::marf_heights::{
    block_callable, block_failed, extension_height, get_block_at_height, height_answers,
    height_entries, is_block_at, make_unconfirmed_chain_tip, set_block_heights, unconfirmed_id,
    HeightStore,
};
use crate::value::{same_id, MARFValue, MarfTrieId, TrieLeaf, SENTINEL_ARRAY};
use vstd::prelude::*;
use vstd::utf8::encode_utf8;

verus! {

// ---------------------------------------------------------------------------------------
// Options
// ---------------------------------------------------------------------------------------
/// When the hashes of a trie's nodes are computed.
#[derive(Debug, Clone, Copy, PartialEq, Eq, Structural)]
pub enum TrieHashCalculationMode {
    /// With every insertion.
    Immediate,
    /// Once, when the trie is sealed.
    Deferred,
    /// Both, to compare them.
    All,
}

/// What is kept of a squashed range.
#[derive(Debug, Clone, Copy, PartialEq, Eq, Structural)]
pub enum SquashMode {
    /// The values at its end.
    TipOnly,
    /// The whole history of every key.
    FullHistory,
}

/// Options for opening a MARF
#[derive(Debug)]
pub struct MARFOpenOpts {
    /// Hash calculation mode for calculating a trie root hash
    pub hash_calculation_mode: TrieHashCalculationMode,
    /// Cache strategy to use
    pub cache_strategy: String,
    /// store trie blobs externally from the DB, in a flat file
    pub external_blobs: bool,
    /// unconditionally do a DB migration
    pub force_db_migrate: bool,
    /// compress the MARF
    pub compress: bool,
    /// use memory-mapped I/O for reading trie blobs
    pub mmap: bool,
    /// Squash mode preference
    pub squash_mode: SquashMode,
    /// Retention window for squash-root snapshots, in levels
    pub squash_root_snapshot_retention_levels: u32,
    /// Retention window for squash-root snapshots, in blocks; wins over the one in levels
    pub squash_root_snapshot_retention_blocks: Option<u32>,
    /// Override of the burnchain reorg horizon
    pub squash_horizon_burn_blocks: Option<u32>,
    /// Whether opening also publishes or discards pending squash plans
    pub auto_recovery: bool,
}

impl MARFOpenOpts {
    /// The options that are set when nothing else is asked for. `retention_levels` is the retention
    /// window in levels that holds for all.
    pub fn default(retention_levels: u32) -> (r: MARFOpenOpts)
        ensures
            r.hash_calculation_mode is Deferred,
            r.cache_strategy@ == "noop"@,
            !r.external_blobs && !r.force_db_migrate && !r.compress && !r.mmap && !r.auto_recovery,
            r.squash_mode is TipOnly,
            r.squash_root_snapshot_retention_levels == retention_levels,
            r.squash_root_snapshot_retention_blocks is None,
            r.squash_horizon_burn_blocks is None,
    {
        MARFOpenOpts::new(TrieHashCalculationMode::Deferred, "noop", false, retention_levels)
    }

    pub fn new(
        hash_calculation_mode: TrieHashCalculationMode,
        cache_strategy: &str,
        external_blobs: bool,
        retention_levels: u32,
    ) -> (r: MARFOpenOpts)
        ensures
            r.hash_calculation_mode == hash_calculation_mode,
            r.cache_strategy@ == cache_strategy@,
            r.external_blobs == external_blobs,
            !r.force_db_migrate && !r.compress && !r.mmap && !r.auto_recovery,
            r.squash_mode is TipOnly,
            r.squash_root_snapshot_retention_levels == retention_levels,
            r.squash_root_snapshot_retention_blocks is None,
            r.squash_horizon_burn_blocks is None,
    {
        MARFOpenOpts {
            hash_calculation_mode,
            cache_strategy: cache_strategy.to_owned(),
            external_blobs,
            force_db_migrate: false,
            compress: false,
            mmap: false,
            squash_mode: SquashMode::TipOnly,
            squash_root_snapshot_retention_levels: retention_levels,
            squash_root_snapshot_retention_blocks: None,
            squash_horizon_burn_blocks: None,
            auto_recovery: false,
        }
    }

    pub fn with_auto_recovery(self, auto: bool) -> (r: MARFOpenOpts)
        ensures
            r == (MARFOpenOpts { auto_recovery: auto, ..self }),
    {
        MARFOpenOpts { auto_recovery: auto, ..self }
    }

    pub fn with_squash_horizon_burn_blocks(self, blocks: Option<u32>) -> (r: MARFOpenOpts)
        ensures
            r == (MARFOpenOpts { squash_horizon_burn_blocks: blocks, ..self }),
    {
        MARFOpenOpts { squash_horizon_burn_blocks: blocks, ..self }
    }

    pub fn with_compression(self, compression: bool) -> (r: MARFOpenOpts)
        ensures
            r == (MARFOpenOpts { compress: compression, ..self }),
    {
        MARFOpenOpts { compress: compression, ..self }
    }

    pub fn with_mmap(self, mmap: bool) -> (r: MARFOpenOpts)
        ensures
            r == (MARFOpenOpts { mmap, ..self }),
    {
        MARFOpenOpts { mmap, ..self }
    }

    pub fn with_squash_mode(self, mode: SquashMode) -> (r: MARFOpenOpts)
        ensures
            r == (MARFOpenOpts { squash_mode: mode, ..self }),
    {
        MARFOpenOpts { squash_mode: mode, ..self }
    }

    pub fn with_squash_root_snapshot_retention_levels(self, n: u32) -> (r: MARFOpenOpts)
        ensures
            r == (MARFOpenOpts { squash_root_snapshot_retention_levels: n, ..self }),
    {
        MARFOpenOpts { squash_root_snapshot_retention_levels: n, ..self }
    }

    pub fn with_squash_root_snapshot_retention_blocks(self, n: u32) -> (r: MARFOpenOpts)
        ensures
            r == (MARFOpenOpts { squash_root_snapshot_retention_blocks: Some(n), ..self }),
    {
        MARFOpenOpts { squash_root_snapshot_retention_blocks: Some(n), ..self }
    }
}

/// Override compression: by the flag where it is set, else by the default where there is one, else
/// not at all.
pub fn test_override_marf_compression(
    marf_opts: &mut MARFOpenOpts,
    flag: Option<bool>,
    default: Option<bool>,
)
    ensures
        *final(marf_opts) == (MARFOpenOpts {
            compress: match (flag, default) {
                (Some(enabled), _) => enabled,
                (None, Some(enabled)) => enabled,
                (None, None) => old(marf_opts).compress,
            },
            ..*old(marf_opts)
        }),
{
    match (flag, default) {
        (Some(enabled), _) => {
            marf_opts.compress = enabled;
        },
        (None, Some(enabled)) => {
            marf_opts.compress = enabled;
        },
        (None, None) => {},
    }
}

// ---------------------------------------------------------------------------------------
// Retries
// ---------------------------------------------------------------------------------------
/// How often a read is tried before it is given up.
pub const MAX_READ_RETRIES: usize = 16;

/// Were the first `n` attempts all overtaken by a squash?
pub open spec fn overtaken<R, F: Fn(usize) -> Result<R, Error>>(exec: F, n: int) -> bool {
    forall|j: usize| 0 <= j < n ==> #[trigger] exec.ensures((j,), Err(Error::RetryAfterSquash))
}

/// Were the first `n` attempts all overtaken by a squash, and was what they left behind cleared
/// after each?
pub open spec fn retried<R, F: Fn(usize) -> Result<R, Error>, Z: Fn() -> Result<(), Error>>(
    exec: F,
    reset: Z,
    n: int,
) -> bool {
    overtaken(exec, n) && (n > 0 ==> reset.ensures((), Ok(())))
}

/// Try a read until no squash has overtaken it, at most [`MAX_READ_RETRIES`] times. `exec` is told
/// how many attempts there were before, and `reset` clears what an attempt has left behind, so that
/// each retry starts afresh.
///
/// That a read was overtaken does not become the outcome: a read that is overtaken every time is
/// corruption. An error of `reset` ends the attempts and is the outcome, whatever it is, also where
/// it is once more that a squash was published.
pub fn with_read_retry<R, F: Fn(usize) -> Result<R, Error>, Z: Fn() -> Result<(), Error>>(
    exec: F,
    reset: Z,
) -> (r: Result<R, Error>)
    requires
        forall|j: usize| exec.requires((j,)),
        reset.requires(()),
    ensures
        ({
            ||| exists|k: usize|
                k < MAX_READ_RETRIES && retried(exec, reset, k as int) && #[trigger] exec.ensures(
                    (k,),
                    r,
                ) && !(r matches Err(e) && e is RetryAfterSquash)
            ||| retried(exec, reset, MAX_READ_RETRIES as int) && (r matches Err(
                Error::CorruptionError(m),
            ) && m@ == "squash-retry-exhausted after 16 attempts"@)
            ||| exists|k: usize|
                k < MAX_READ_RETRIES && retried(exec, reset, k as int) && #[trigger] exec.ensures(
                    (k,),
                    Err(Error::RetryAfterSquash),
                ) && (r matches Err(e) && reset.ensures((), Err(e)))
        }),
{
    let mut attempt: usize = 0;
    while attempt < MAX_READ_RETRIES
        invariant
            forall|j: usize| exec.requires((j,)),
            reset.requires(()),
            attempt <= MAX_READ_RETRIES,
            retried(exec, reset, attempt as int),
        decreases MAX_READ_RETRIES - attempt,
    {
        match exec(attempt) {
            Ok(v) => {
                assert(exec.ensures((attempt,), Ok(v)));
                return Ok(v);
            },
            Err(Error::RetryAfterSquash) => {
                assert(exec.ensures((attempt,), Err(Error::RetryAfterSquash)));
                match reset() {
                    Ok(u) => {
                        assert(u == ());
                    },
                    Err(e) => {
                        return Err(e);
                    },
                }
            },
            Err(e) => {
                assert(exec.ensures((attempt,), Err(e)));
                return Err(e);
            },
        }
        attempt += 1;
    }
    Err(corruption("squash-retry-exhausted after 16 attempts"))
}

/// The outcome of something that may have opened other blocks, after the block that was open before
/// has been opened again. A failure to do so outweighs the outcome.
pub fn with_restored_block_context<R>(result: Result<R, Error>, restored: Result<(), Error>) -> (r:
    Result<R, Error>)
    ensures
        match restored {
            Ok(_) => r == result,
            Err(e) => r == Err::<R, Error>(e),
        },
{
    match restored {
        Ok(_) => result,
        Err(e) => Err(e),
    }
}

/// The value at a path, or `None` where there is none, after the block that was open before has been
/// opened again. A failure to do so outweighs it and says what it is.
pub fn get_path_with_fork_extend_intent(
    found: Result<TrieLeaf, Error>,
    restored: Result<(), Error>,
) -> (r: Result<Option<MARFValue>, Error>)
    ensures
        match restored {
            Err(e) => r == Err::<Option<MARFValue>, Error>(
                Error::RestoreMarfBlockError(Box::new(e)),
            ),
            Ok(_) => match found {
                Ok(leaf) => r == Ok::<Option<MARFValue>, Error>(Some(leaf.data)),
                Err(Error::NotFoundError) => r == Ok::<Option<MARFValue>, Error>(None),
                Err(e) => r == Err::<Option<MARFValue>, Error>(e),
            },
        },
{
    match restored {
        Ok(_) => crate::marf_walk::value_if_found(found),
        Err(e) => Err(Error::RestoreMarfBlockError(Box::new(e))),
    }
}

// ---------------------------------------------------------------------------------------
// Writing
// ---------------------------------------------------------------------------------------
/// The block that is being written.
#[derive(Debug)]
pub struct WriteChainTip<T: MarfTrieId> {
    pub block_hash: T,
    pub height: u32,
}

/// Recorded canonical chain of a squashed range.
#[derive(Debug)]
pub struct SquashLevelCanonical<T: MarfTrieId> {
    pub level_id: u32,
    pub min_height: u32,
    pub max_height: u32,
    /// Canonical block hash at each height of the range. A level that only marks a boundary has
    /// none.
    pub block_hashes: Vec<T>,
}

/// The heights of a squashed range.
#[derive(Debug, Clone, Copy, PartialEq, Eq, Structural)]
pub struct SquashLevelRange {
    pub level_id: u32,
    pub min_height: u32,
    pub max_height: u32,
}

/// Activity since the last squash.
#[derive(Debug, Clone, Copy, PartialEq, Eq, Structural)]
pub struct MarfSquashStats {
    /// Bytes of tries that were committed since.
    pub external_bytes_since_last_squash: u64,
}

/// A squashed range recorded another canonical block at a height than the chain has now.
#[derive(Debug, PartialEq, Eq)]
pub struct SquashDivergence<T: MarfTrieId> {
    pub level_id: u32,
    /// The lowest height in the range at which the two differ.
    pub diverging_height: u32,
    pub recorded_canonical: T,
    pub new_canonical: T,
}

/// What is left to do for a commit.
#[derive(Debug, Clone, Copy, PartialEq, Eq, Structural)]
pub enum CommitStep {
    /// Flush the trie that was being written, and commit.
    Flush,
    /// No trie was being written.
    Nothing,
}

/// Merklized Adaptive-Radix Forest -- a collection of Merklized Adaptive-Radix Tries: what is known
/// of it, and which of its tries is being written. The tries themselves are in storage.
#[derive(Debug)]
pub struct MARF<T: MarfTrieId> {
    pub db_path: String,
    pub readonly: bool,
    pub unconfirmed: bool,
    pub open_chain_tip: Option<WriteChainTip<T>>,
    /// Squashed ranges, oldest first.
    pub squash_levels: Vec<SquashLevelCanonical<T>>,
    /// The blocks of all squashed ranges.
    pub squash_blocks: Vec<T>,
    pub external_bytes_since_last_squash: u64,
}

/// Is everything but the open tip unchanged?
pub open spec fn only_tip_changed<T: MarfTrieId>(a: MARF<T>, b: MARF<T>) -> bool {
    b == (MARF { open_chain_tip: b.open_chain_tip, ..a })
}

/// The path of a key: the digest of its bytes.
pub open spec fn key_path(key: Seq<char>) -> Seq<u8> {
    sha512_256(encode_utf8(key))
}

/// One insertion of a batch.
#[derive(Debug)]
pub struct BatchInsert {
    pub path: TrieHash,
    pub leaf: TrieLeaf,
    /// Is the hash of the root to be updated with those of earlier blocks?
    pub update_skiplist: bool,
}

/// Is `b` the insertion of `value` under `key`?
pub open spec fn inserts(b: BatchInsert, key: Seq<char>, value: MARFValue, skiplist: bool) -> bool {
    &&& b.path@ == key_path(key)
    &&& b.leaf.path@ == Seq::<u8>::empty()
    &&& b.leaf.data == value
    &&& b.update_skiplist == skiplist
}

/// The insertions of a batch, in order: each key once, and the last one again, which then updates
/// the hash of the root. So that hash is computed but once.
pub fn batch_inserts(keys: &[String], values: &[MARFValue]) -> (r: Vec<BatchInsert>)
    requires
        keys@.len() == values@.len(),
    ensures
        keys@.len() == 0 ==> r@.len() == 0,
        keys@.len() > 0 ==> {
            let n = keys@.len() as int;
            &&& r@.len() == n + 1
            &&& forall|i: int|
                0 <= i < n ==> inserts(#[trigger] r@[i], keys@[i]@, values@[i], false)
            &&& inserts(r@[n], keys@[n - 1]@, values@[n - 1], true)
        },
{
    let mut out: Vec<BatchInsert> = Vec::new();
    let n = keys.len();
    let mut i: usize = 0;
    while i < n
        invariant
            n == keys@.len(),
            n == values@.len(),
            i <= n,
            out@.len() == i,
            forall|j: int|
                0 <= j < i ==> inserts(#[trigger] out@[j], keys@[j]@, values@[j], false),
        decreases n - i,
    {
        let path = TrieHash::from_key(keys[i].as_str());
        let leaf = TrieLeaf::from_value(&[], values[i]);
        assert(leaf.path@ =~= Seq::<u8>::empty());
        out.push(BatchInsert { path, leaf, update_skiplist: false });
        i += 1;
    }
    if n > 0 {
        let path = TrieHash::from_key(keys[n - 1].as_str());
        let leaf = TrieLeaf::from_value(&[], values[n - 1]);
        assert(leaf.path@ =~= Seq::<u8>::empty());
        out.push(BatchInsert { path, leaf, update_skiplist: true });
    }
    out
}

/// Is `b` the insertion of a value with these bytes under `key`?
pub open spec fn inserts_bytes(b: BatchInsert, key: Seq<char>, value: Seq<u8>, skiplist: bool) -> bool {
    inserts(b, key, b.leaf.data, skiplist) && b.leaf.data@ == value
}

/// Are these the insertions of what a block at `height`, the child of `block`, records of heights?
pub open spec fn records_heights<T: MarfTrieId>(
    batch: Seq<BatchInsert>,
    block: T,
    next: T,
    height: u32,
) -> bool {
    let e = height_entries(block, next, height);
    let n = e.len() as int;
    &&& batch.len() == n + 1
    &&& forall|i: int|
        0 <= i < n ==> inserts_bytes(#[trigger] batch[i], e[i].0, e[i].1, false)
    &&& inserts_bytes(batch[n], e[n - 1].0, e[n - 1].1, true)
}

/// Did the insertion of what a block records of heights end like this?
pub open spec fn heights_inserted<
    T: MarfTrieId,
    I: Fn(&T, &Vec<BatchInsert>) -> Result<(), Error>,
>(insert: I, block: T, next: T, height: u32, r: Result<(), Error>) -> bool {
    exists|batch: Vec<BatchInsert>| #[trigger]
        insert.ensures((&next, &batch), r) && records_heights(batch@, block, next, height)
}

/// Is `height` that of a block on top of `chain_tip`: zero where that is the one before the first
/// of all, and else one more than the height that was looked up?
pub open spec fn extends_at<T: MarfTrieId, H: Fn(&T) -> Result<Option<u32>, Error>>(
    tip_height: H,
    chain_tip: T,
    height: u32,
) -> bool {
    if chain_tip.id_bytes()@ == SENTINEL_ARRAY@ {
        height == 0 && exists|h: Option<u32>| #[trigger] tip_height.ensures((&chain_tip,), Ok(h))
    } else {
        height > 0 && tip_height.ensures((&chain_tip,), Ok(Some((height - 1) as u32)))
    }
}

/// Is `height` that of `next` on top of `chain_tip`?
pub open spec fn extends_to<T: MarfTrieId, H: Fn(&T) -> Result<Option<u32>, Error>>(
    tip_height: H,
    chain_tip: T,
    next: T,
    height: u32,
) -> bool {
    extends_at(tip_height, chain_tip, height)
}

/// Is `e` why the height of a block on top of `chain_tip` is not known?
pub open spec fn no_height<T: MarfTrieId, H: Fn(&T) -> Result<Option<u32>, Error>>(
    tip_height: H,
    chain_tip: T,
    e: Error,
) -> bool {
    ||| tip_height.ensures((&chain_tip,), Err(e))
    ||| chain_tip.id_bytes()@ != SENTINEL_ARRAY@ && e is CorruptionError && tip_height.ensures(
        (&chain_tip,),
        Ok(None),
    )
}

fn height_of_extension<T: MarfTrieId, H: Fn(&T) -> Result<Option<u32>, Error>>(
    chain_tip: &T,
    tip_height: &H,
) -> (r: Result<u32, Error>)
    requires
        tip_height.requires((chain_tip,)),
        chain_tip.id_bytes()@ != SENTINEL_ARRAY@ ==> forall|h: u32| #[trigger]
            tip_height.ensures((chain_tip,), Ok(Some(h))) ==> h < u32::MAX,
    ensures
        match r {
            Ok(h) => extends_at(*tip_height, *chain_tip, h),
            Err(e) => no_height(*tip_height, *chain_tip, e),
        },
{
    match tip_height(chain_tip) {
        Ok(h) => {
            assert(tip_height.ensures((chain_tip,), Ok(h)));
            extension_height(chain_tip, h)
        },
        Err(e) => Err(e),
    }
}

fn insert_heights<T: MarfTrieId, I: Fn(&T, &Vec<BatchInsert>) -> Result<(), Error>>(
    block: &T,
    next: &T,
    height: u32,
    insert: &I,
) -> (r: Result<(), Error>)
    requires
        forall|batch: Vec<BatchInsert>| insert.requires((next, &batch)),
    ensures
        heights_inserted(*insert, *block, *next, height, r),
{
    let (keys, values) = set_block_heights(block, next, height);
    let batch = batch_inserts(keys.as_slice(), values.as_slice());
    proof {
        let e = height_entries(*block, *next, height);
        assert(e.len() >= 3);
        assert forall|i: int| 0 <= i < e.len() implies inserts_bytes(
            #[trigger] batch@[i],
            e[i].0,
            e[i].1,
            false,
        ) by {
            assert(inserts(batch@[i], keys@[i]@, values@[i], false));
        }
        assert(keys@[e.len() - 1]@ == e[e.len() - 1].0);
    }
    let r = insert(next, &batch);
    assert(insert.ensures((next, &batch), r));
    r
}

impl<T: MarfTrieId> MARF<T> {
    /// A forest over storage at `db_path`, with nothing being written.
    pub fn from_storage(db_path: &str, readonly: bool, unconfirmed: bool) -> (r: MARF<T>)
        ensures
            r.db_path@ == db_path@,
            r.readonly == readonly,
            r.unconfirmed == unconfirmed,
            r.open_chain_tip is None,
            r.squash_levels@.len() == 0,
            r.squash_blocks@.len() == 0,
            r.external_bytes_since_last_squash == 0,
    {
        MARF {
            db_path: db_path.to_owned(),
            readonly,
            unconfirmed,
            open_chain_tip: None,
            squash_levels: Vec::new(),
            squash_blocks: Vec::new(),
            external_bytes_since_last_squash: 0,
        }
    }

    /// A forest over storage at `db_path` that is writing the block `opened_to`, at height 0.
    pub fn from_storage_opened(db_path: &str, unconfirmed: bool, opened_to: &T) -> (r: MARF<T>)
        ensures
            r.db_path@ == db_path@,
            !r.readonly,
            r.unconfirmed == unconfirmed,
            r.open_chain_tip == Some(WriteChainTip { block_hash: *opened_to, height: 0 }),
            r.squash_levels@.len() == 0,
            r.squash_blocks@.len() == 0,
            r.external_bytes_since_last_squash == 0,
    {
        let mut r = MARF::from_storage(db_path, false, unconfirmed);
        r.open_tip(*opened_to, 0);
        r
    }

    /// Get the underlying storage DB path
    pub fn get_db_path(&self) -> (r: &str)
        ensures
            r@ == self.db_path@,
    {
        self.db_path.as_str()
    }

    /// Begin to write `next_chain_tip` on top of `chain_tip`. Not in a forest that is only read,
    /// not while another block is being written, and not if the block exists.
    ///
    /// `has_block` tells whether a block exists. `tip_height` opens `chain_tip` and gives its
    /// height; for the block before the first of all it need give none. `extend` starts the trie
    /// of the new block and opens it, and `insert` inserts what the block records of heights.
    /// They are called in this order, each only if nothing stood in the way before; their errors
    /// are passed on. If the block was not begun, none is being written.
    pub fn begin<
        B: Fn(&T) -> Result<bool, Error>,
        H: Fn(&T) -> Result<Option<u32>, Error>,
        X: Fn(&T) -> Result<(), Error>,
        I: Fn(&T, &Vec<BatchInsert>) -> Result<(), Error>,
    >(
        &mut self,
        chain_tip: &T,
        next_chain_tip: &T,
        has_block: B,
        tip_height: H,
        extend: X,
        insert: I,
    ) -> (r: Result<(), Error>)
        requires
            has_block.requires((next_chain_tip,)),
            tip_height.requires((chain_tip,)),
            extend.requires((next_chain_tip,)),
            forall|batch: Vec<BatchInsert>| insert.requires((next_chain_tip, &batch)),
            chain_tip.id_bytes()@ != SENTINEL_ARRAY@ ==> forall|h: u32| #[trigger]
                tip_height.ensures((chain_tip,), Ok(Some(h))) ==> h < u32::MAX,
        ensures
            match r {
                Ok(_) => {
                    &&& !old(self).readonly && old(self).open_chain_tip is None
                    &&& has_block.ensures((next_chain_tip,), Ok(false))
                    &&& only_tip_changed(*old(self), *final(self))
                    &&& final(self).open_chain_tip matches Some(tip) && tip.block_hash
                        == *next_chain_tip && extends_at(tip_height, *chain_tip, tip.height)
                        && heights_inserted(
                        insert,
                        *chain_tip,
                        *next_chain_tip,
                        tip.height,
                        Ok(()),
                    )
                    &&& extend.ensures((next_chain_tip,), Ok(()))
                },
                Err(e) => *final(self) == *old(self) && if old(self).readonly {
                    e == Error::ReadOnlyError
                } else if old(self).open_chain_tip is Some {
                    e == Error::InProgressError
                } else {
                    ||| e == Error::ExistsError && has_block.ensures((next_chain_tip,), Ok(true))
                    ||| has_block.ensures((next_chain_tip,), Err(e))
                    ||| has_block.ensures((next_chain_tip,), Ok(false)) && {
                        ||| no_height(tip_height, *chain_tip, e)
                        ||| exists|h: u32| #[trigger]
                            extends_at(tip_height, *chain_tip, h) && {
                                ||| extend.ensures((next_chain_tip,), Err(e))
                                ||| heights_inserted(
                                    insert,
                                    *chain_tip,
                                    *next_chain_tip,
                                    h,
                                    Err(e),
                                )
                            }
                    }
                },
            },
    {
        if self.readonly {
            return Err(Error::ReadOnlyError);
        }
        if self.open_chain_tip.is_some() {
            return Err(Error::InProgressError);
        }
        match has_block(next_chain_tip) {
            Ok(true) => {
                return Err(Error::ExistsError);
            },
            Ok(false) => {},
            Err(e) => {
                return Err(e);
            },
        }
        let height = match height_of_extension(chain_tip, &tip_height) {
            Ok(h) => h,
            Err(e) => {
                return Err(e);
            },
        };
        match extend(next_chain_tip) {
            Ok(u) => {
                assert(u == ());
            },
            Err(e) => {
                assert(extends_at(tip_height, *chain_tip, height));
                return Err(e);
            },
        }
        self.open_tip(*next_chain_tip, height);
        match insert_heights(chain_tip, next_chain_tip, height, &insert) {
            Ok(u) => {
                assert(u == ());
                Ok(())
            },
            Err(e) => {
                self.close_tip();
                assert(extends_at(tip_height, *chain_tip, height));
                Err(e)
            },
        }
    }

    /// Begin to write unconfirmed state on top of `chain_tip`, which must be confirmed. Returns the
    /// block that the state is kept under.
    ///
    /// As [`MARF::begin`], but `has_confirmed_block` tells whether a confirmed block exists, and
    /// `extend` tells whether the state is new: only then is anything inserted.
    pub fn begin_unconfirmed<
        B: Fn(&T) -> Result<bool, Error>,
        H: Fn(&T) -> Result<Option<u32>, Error>,
        X: Fn(&T) -> Result<bool, Error>,
        I: Fn(&T, &Vec<BatchInsert>) -> Result<(), Error>,
    >(
        &mut self,
        chain_tip: &T,
        has_confirmed_block: B,
        tip_height: H,
        extend: X,
        insert: I,
    ) -> (r: Result<T, Error>)
        requires
            has_confirmed_block.requires((chain_tip,)),
            tip_height.requires((chain_tip,)),
            forall|t: T| extend.requires((&t,)),
            forall|t: T, batch: Vec<BatchInsert>| insert.requires((&t, &batch)),
            chain_tip.id_bytes()@ != SENTINEL_ARRAY@ ==> forall|h: u32| #[trigger]
                tip_height.ensures((chain_tip,), Ok(Some(h))) ==> h < u32::MAX,
        ensures
            match r {
                Ok(next) => {
                    &&& !old(self).readonly && old(self).open_chain_tip is None
                    &&& old(self).unconfirmed
                    &&& next.id_bytes()@ == unconfirmed_id(*chain_tip)
                    &&& has_confirmed_block.ensures((chain_tip,), Ok(true))
                    &&& only_tip_changed(*old(self), *final(self))
                    &&& final(self).open_chain_tip matches Some(tip) && tip.block_hash == next
                        && extends_at(tip_height, *chain_tip, tip.height) && ((extend.ensures(
                        (&next,),
                        Ok(true),
                    ) && heights_inserted(insert, *chain_tip, next, tip.height, Ok(())))
                        || extend.ensures((&next,), Ok(false)))
                },
                Err(e) => *final(self) == *old(self) && if old(self).readonly {
                    e == Error::ReadOnlyError
                } else if old(self).open_chain_tip is Some {
                    e == Error::InProgressError
                } else if !old(self).unconfirmed {
                    e == Error::UnconfirmedError
                } else {
                    ||| e == Error::NotFoundError && has_confirmed_block.ensures(
                        (chain_tip,),
                        Ok(false),
                    )
                    ||| has_confirmed_block.ensures((chain_tip,), Err(e))
                    ||| has_confirmed_block.ensures((chain_tip,), Ok(true)) && {
                        ||| no_height(tip_height, *chain_tip, e)
                        ||| exists|next: T, h: u32|
                            next.id_bytes()@ == unconfirmed_id(*chain_tip)
                                && #[trigger] extends_to(tip_height, *chain_tip, next, h) && {
                                ||| extend.ensures((&next,), Err(e))
                                ||| extend.ensures((&next,), Ok(true)) && heights_inserted(
                                    insert,
                                    *chain_tip,
                                    next,
                                    h,
                                    Err(e),
                                )
                            }
                    }
                },
            },
    {
        if self.readonly {
            return Err(Error::ReadOnlyError);
        }
        if self.open_chain_tip.is_some() {
            return Err(Error::InProgressError);
        }
        if !self.unconfirmed {
            return Err(Error::UnconfirmedError);
        }
        match has_confirmed_block(chain_tip) {
            Ok(true) => {},
            Ok(false) => {
                return Err(Error::NotFoundError);
            },
            Err(e) => {
                return Err(e);
            },
        }
        let next = make_unconfirmed_chain_tip(chain_tip);
        let height = match height_of_extension(chain_tip, &tip_height) {
            Ok(h) => h,
            Err(e) => {
                return Err(e);
            },
        };
        assert(extends_to(tip_height, *chain_tip, next, height));
        let created = match extend(&next) {
            Ok(created) => created,
            Err(e) => {
                return Err(e);
            },
        };
        self.open_tip(next, height);
        if created {
            match insert_heights(chain_tip, &next, height, &insert) {
                Ok(u) => {
                    assert(u == ());
                },
                Err(e) => {
                    self.close_tip();
                    return Err(e);
                },
            }
        }
        Ok(next)
    }

    /// A block is being written from now on.
    fn open_tip(&mut self, block_hash: T, height: u32)
        ensures
            final(self).open_chain_tip == Some(WriteChainTip { block_hash, height }),
            only_tip_changed(*old(self), *final(self)),
    {
        self.open_chain_tip = Some(WriteChainTip { block_hash, height });
    }

    /// No block is being written any more.
    fn close_tip(&mut self)
        ensures
            final(self).open_chain_tip is None,
            only_tip_changed(*old(self), *final(self)),
    {
        self.open_chain_tip = None;
    }

    /// Get open chain tip
    pub fn get_open_chain_tip(&self) -> (r: Option<&T>)
        ensures
            match r {
                Some(t) => self.open_chain_tip matches Some(tip) && tip.block_hash == *t,
                None => self.open_chain_tip is None,
            },
    {
        match &self.open_chain_tip {
            Some(tip) => Some(&tip.block_hash),
            None => None,
        }
    }

    /// Get open chain tip block height
    pub fn get_open_chain_tip_height(&self) -> (r: Option<u32>)
        ensures
            match r {
                Some(h) => self.open_chain_tip matches Some(tip) && tip.height == h,
                None => self.open_chain_tip is None,
            },
    {
        match &self.open_chain_tip {
            Some(tip) => Some(tip.height),
            None => None,
        }
    }

    /// The height of a block: that of the one being written is known, and others are looked up.
    pub fn get_block_height_of<H: Fn(&T) -> Result<Option<u32>, Error>>(
        &self,
        bhh: &T,
        height_of: H,
    ) -> (r: Result<Option<u32>, Error>)
        requires
            height_of.requires((bhh,)),
        ensures
            self.open_chain_tip is Some && self.open_chain_tip.unwrap().block_hash == *bhh ==> r
                == Ok::<Option<u32>, Error>(Some(self.open_chain_tip.unwrap().height)),
            !(self.open_chain_tip is Some && self.open_chain_tip.unwrap().block_hash == *bhh)
                ==> height_of.ensures((bhh,), r),
    {
        if let Some(tip) = &self.open_chain_tip {
            if same_id(&tip.block_hash, bhh) {
                return Ok(Some(tip.height));
            }
        }
        height_of(bhh)
    }

    /// The block at a height as the trie of `block_hash` has it, if it does.
    pub fn get_bhh_at_height<
        O: Fn(&T) -> Result<Option<u32>, Error>,
        G: Fn(&T, &str) -> Result<Option<MARFValue>, Error>,
    >(&self, block_hash: &T, height: u32, squash_height: &O, get: &G) -> (r: Result<
        Option<T>,
        Error,
    >)
        requires
            block_callable(*squash_height, *get, height, *block_hash),
        ensures
            forall|st: HeightStore<T>| #[trigger]
                height_answers(*squash_height, *get, st) ==> match r {
                    Ok(b) => is_block_at(st, height, *block_hash, b),
                    Err(e) => block_failed(*squash_height, *get, st, height, *block_hash, e),
                },
    {
        get_block_at_height(height, block_hash, squash_height, get)
    }

    /// The hash of the root of a block's trie. `open` opens the block, `read_hash` reads the hash,
    /// and `restore` opens the block that was open before; a failure of the last outweighs the
    /// hash.
    pub fn get_root_hash_at<
        O: Fn(&T) -> Result<(), Error>,
        H: Fn() -> Result<TrieHash, Error>,
        Z: Fn() -> Result<(), Error>,
    >(&self, block_hash: &T, open: O, read_hash: H, restore: Z) -> (r: Result<TrieHash, Error>)
        requires
            open.requires((block_hash,)),
            read_hash.requires(()),
            restore.requires(()),
        ensures
            ({
                ||| r matches Err(e) && open.ensures((block_hash,), Err(e))
                ||| open.ensures((block_hash,), Ok(())) && restore.ensures((), Ok(()))
                    && read_hash.ensures((), r)
                ||| open.ensures((block_hash,), Ok(())) && (r matches Err(e) && restore.ensures(
                    (),
                    Err(e),
                ))
            }),
    {
        match open(block_hash) {
            Err(e) => Err(e),
            Ok(u) => {
                assert(u == ());
                let hash = read_hash();
                assert(read_hash.ensures((), hash));
                match restore() {
                    Ok(v) => {
                        assert(v == ());
                        hash
                    },
                    Err(e) => Err(e),
                }
            },
        }
    }

    /// Insert a batch of key/value pairs into the block that is being written: the insertions to
    /// make, and where.
    pub fn insert_batch(&self, keys: &[String], values: &[MARFValue]) -> (r: Result<
        Option<(T, Vec<BatchInsert>)>,
        Error,
    >)
        requires
            keys@.len() == values@.len(),
        ensures
            match r {
                Err(e) => (self.readonly && e is ReadOnlyError) || (!self.readonly
                    && self.open_chain_tip is None && e is WriteNotBegunError),
                Ok(None) => !self.readonly && self.open_chain_tip is Some && keys@.len() == 0,
                Ok(Some((block, batch))) => {
                    let n = keys@.len() as int;
                    &&& !self.readonly
                    &&& self.open_chain_tip matches Some(tip) && tip.block_hash == block
                    &&& n > 0
                    &&& batch@.len() == n + 1
                    &&& forall|i: int|
                        0 <= i < n ==> inserts(#[trigger] batch@[i], keys@[i]@, values@[i], false)
                    &&& inserts(batch@[n], keys@[n - 1]@, values@[n - 1], true)
                },
            },
    {
        if self.readonly {
            return Err(Error::ReadOnlyError);
        }
        match &self.open_chain_tip {
            None => Err(Error::WriteNotBegunError),
            Some(tip) => {
                if keys.len() == 0 {
                    Ok(None)
                } else {
                    Ok(Some((tip.block_hash, batch_inserts(keys, values))))
                }
            },
        }
    }

    /// The block that a leaf is inserted into.
    pub fn insert_raw(&self) -> (r: Result<T, Error>)
        ensures
            match r {
                Ok(block) => !self.readonly && (self.open_chain_tip matches Some(tip)
                    && tip.block_hash == block),
                Err(e) => (self.readonly && e is ReadOnlyError) || (!self.readonly
                    && self.open_chain_tip is None && e is WriteNotBegunError),
            },
    {
        if self.readonly {
            return Err(Error::ReadOnlyError);
        }
        match &self.open_chain_tip {
            None => Err(Error::WriteNotBegunError),
            Some(tip) => Ok(tip.block_hash),
        }
    }

    /// Insert a key and its value into the block that is being written: the block, and the
    /// insertion to make.
    pub fn insert(&self, key: &str, value: MARFValue) -> (r: Result<(T, BatchInsert), Error>)
        ensures
            match r {
                Ok((block, b)) => !self.readonly && (self.open_chain_tip matches Some(tip)
                    && tip.block_hash == block) && inserts(b, key@, value, true),
                Err(e) => (self.readonly && e is ReadOnlyError) || (!self.readonly
                    && self.open_chain_tip is None && e is WriteNotBegunError),
            },
    {
        match self.insert_raw() {
            Ok(block) => {
                let path = TrieHash::from_key(key);
                let leaf = TrieLeaf::from_value(&[], value);
                assert(leaf.path@ =~= Seq::<u8>::empty());
                Ok((block, BatchInsert { path, leaf, update_skiplist: true }))
            },
            Err(e) => Err(e),
        }
    }

    fn take_tip(&mut self) -> (r: CommitStep)
        ensures
            r == if old(self).open_chain_tip is Some {
                CommitStep::Flush
            } else {
                CommitStep::Nothing
            },
            final(self).open_chain_tip is None,
            only_tip_changed(*old(self), *final(self)),
    {
        let step = if self.open_chain_tip.is_some() {
            CommitStep::Flush
        } else {
            CommitStep::Nothing
        };
        self.open_chain_tip = None;
        step
    }

    /// Finish writing the next trie. Works for both confirmed and unconfirmed tries.
    pub fn commit(&mut self) -> (r: Result<CommitStep, Error>)
        ensures
            old(self).readonly ==> r == Err::<CommitStep, Error>(Error::ReadOnlyError)
                && *final(self) == *old(self),
            !old(self).readonly ==> r == Ok::<CommitStep, Error>(
                if old(self).open_chain_tip is Some {
                    CommitStep::Flush
                } else {
                    CommitStep::Nothing
                },
            ) && final(self).open_chain_tip is None && only_tip_changed(*old(self), *final(self)),
    {
        if self.readonly {
            return Err(Error::ReadOnlyError);
        }
        Ok(self.take_tip())
    }

    /// Finish writing the next trie under another block hash, or among the mined blocks. Not for
    /// unconfirmed state.
    pub fn commit_to(&mut self) -> (r: Result<CommitStep, Error>)
        ensures
            old(self).readonly ==> r == Err::<CommitStep, Error>(Error::ReadOnlyError)
                && *final(self) == *old(self),
            !old(self).readonly && old(self).unconfirmed ==> r == Err::<CommitStep, Error>(
                Error::UnconfirmedError,
            ) && *final(self) == *old(self),
            !old(self).readonly && !old(self).unconfirmed ==> r == Ok::<CommitStep, Error>(
                if old(self).open_chain_tip is Some {
                    CommitStep::Flush
                } else {
                    CommitStep::Nothing
                },
            ) && final(self).open_chain_tip is None && only_tip_changed(*old(self), *final(self)),
    {
        if self.readonly {
            return Err(Error::ReadOnlyError);
        }
        if self.unconfirmed {
            return Err(Error::UnconfirmedError);
        }
        Ok(self.take_tip())
    }

    /// Finish writing the next trie among the mined blocks. Not for unconfirmed state.
    pub fn commit_mined(&mut self) -> (r: Result<CommitStep, Error>)
        ensures
            old(self).readonly ==> r == Err::<CommitStep, Error>(Error::ReadOnlyError)
                && *final(self) == *old(self),
            !old(self).readonly && old(self).unconfirmed ==> r == Err::<CommitStep, Error>(
                Error::UnconfirmedError,
            ) && *final(self) == *old(self),
            !old(self).readonly && !old(self).unconfirmed ==> r == Ok::<CommitStep, Error>(
                if old(self).open_chain_tip is Some {
                    CommitStep::Flush
                } else {
                    CommitStep::Nothing
                },
            ) && final(self).open_chain_tip is None && only_tip_changed(*old(self), *final(self)),
    {
        self.commit_to()
    }

    /// Drop the current trie. Returns whether there is anything to roll back.
    pub fn drop_current(&mut self) -> (r: bool)
        ensures
            r == !old(self).readonly,
            old(self).readonly ==> *final(self) == *old(self),
            !old(self).readonly ==> final(self).open_chain_tip is None && only_tip_changed(
                *old(self),
                *final(self),
            ),
    {
        if self.readonly {
            return false;
        }
        self.open_chain_tip = None;
        true
    }

    /// Drop the current trie of unconfirmed state. Returns the block whose trie is to be dropped.
    pub fn drop_unconfirmed(&mut self) -> (r: Option<T>)
        ensures
            !(old(self).readonly || !old(self).unconfirmed) && old(self).open_chain_tip is Some
                ==> r == Some(old(self).open_chain_tip.unwrap().block_hash)
                && final(self).open_chain_tip is None && only_tip_changed(*old(self), *final(self)),
            old(self).readonly || !old(self).unconfirmed || old(self).open_chain_tip is None ==> r
                is None && *final(self) == *old(self),
    {
        if self.readonly || !self.unconfirmed {
            return None;
        }
        let block: Option<T> = match &self.open_chain_tip {
            Some(tip) => Some(tip.block_hash),
            None => None,
        };
        if block.is_some() {
            self.open_chain_tip = None;
        }
        block
    }

    /// May the trie be sealed? Not in a forest that is only read. Whoever holds the storage then
    /// seals it.
    pub fn seal(&self) -> (r: Result<(), Error>)
        ensures
            r == if self.readonly {
                Err::<(), Error>(Error::ReadOnlyError)
            } else {
                Ok(())
            },
    {
        if self.readonly {
            Err(Error::ReadOnlyError)
        } else {
            Ok(())
        }
    }

    /// May the forest be opened a second time, to read? Not while a block is being written. Whoever
    /// holds the storage then opens it again.
    pub fn reopen_readonly(&self) -> (r: Result<(), Error>)
        ensures
            r == if self.open_chain_tip is Some {
                Err::<(), Error>(Error::InProgressError)
            } else {
                Ok(())
            },
    {
        if self.open_chain_tip.is_some() {
            Err(Error::InProgressError)
        } else {
            Ok(())
        }
    }

    /// May a connection to the storage be opened a second time? Not while a block is being written.
    /// Whoever holds the storage then opens it.
    pub fn reopen_connection(&self) -> (r: Result<(), Error>)
        ensures
            r == if self.open_chain_tip is Some {
                Err::<(), Error>(Error::InProgressError)
            } else {
                Ok(())
            },
    {
        self.reopen_readonly()
    }

    /// May blocks be squashed? Not while one is being written. Whoever holds the storage then
    /// squashes them.
    pub fn squash(&self) -> (r: Result<(), Error>)
        ensures
            match r {
                Ok(_) => self.open_chain_tip is None,
                Err(e) => self.open_chain_tip is Some && e is NotSupportedError,
            },
    {
        if self.open_chain_tip.is_some() {
            return Err(
                Error::NotSupportedError(
                    "MARF::squash: a block-write transaction is in progress (open_chain_tip is Some) — refusing to squash".to_owned(),
                ),
            );
        }
        Ok(())
    }

    /// May saved roots be trimmed? Not while a block is being written. Whoever holds the storage then
    /// trims them.
    pub fn trim_sidecars(&self) -> (r: Result<(), Error>)
        ensures
            match r {
                Ok(_) => self.open_chain_tip is None,
                Err(e) => self.open_chain_tip is Some && e is NotSupportedError,
            },
    {
        if self.open_chain_tip.is_some() {
            return Err(
                Error::NotSupportedError(
                    "MARF::trim_sidecars: a block-write transaction is in progress (open_chain_tip is Some) — refusing to trim".to_owned(),
                ),
            );
        }
        Ok(())
    }

    /// Is the block in a squashed range?
    pub fn is_in_squash_range(&self, block_hash: &T) -> (r: bool)
        ensures
            r == self.squash_blocks@.contains(*block_hash),
    {
        let mut i: usize = 0;
        while i < self.squash_blocks.len()
            invariant
                i <= self.squash_blocks@.len(),
                forall|j: int| 0 <= j < i ==> self.squash_blocks@[j] != *block_hash,
            decreases self.squash_blocks@.len() - i,
        {
            if same_id(&self.squash_blocks[i], block_hash) {
                assert(self.squash_blocks@[i as int] == *block_hash);
                return true;
            }
            i += 1;
        }
        false
    }

    /// May a proof be made for a block? Not in a squashed range.
    pub fn check_provable(&self, block_hash: &T) -> (r: Result<(), Error>)
        ensures
            match r {
                Ok(_) => !self.squash_blocks@.contains(*block_hash),
                Err(e) => self.squash_blocks@.contains(*block_hash) && e is NotSupportedError,
            },
    {
        if self.is_in_squash_range(block_hash) {
            return Err(
                Error::NotSupportedError(
                    "Merkle proofs not supported for blocks within squash range".to_owned(),
                ),
            );
        }
        Ok(())
    }

    /// The value of a key with its proof. `get` looks the key up and `prove` makes the proof; in a
    /// squashed range there is none, and nothing is looked up.
    pub fn get_with_proof<
        P,
        G: Fn(&T) -> Result<Option<MARFValue>, Error>,
        M: Fn(&T, &MARFValue) -> Result<P, Error>,
    >(&self, block_hash: &T, get: G, prove: M) -> (r: Result<Option<(MARFValue, P)>, Error>)
        requires
            get.requires((block_hash,)),
            forall|v: MARFValue| prove.requires((block_hash, &v)),
        ensures
            self.squash_blocks@.contains(*block_hash) ==> (r matches Err(e)
                && e is NotSupportedError),
            !self.squash_blocks@.contains(*block_hash) ==> match r {
                Ok(None) => get.ensures((block_hash,), Ok(None)),
                Ok(Some((v, p))) => get.ensures((block_hash,), Ok(Some(v))) && prove.ensures(
                    (block_hash, &v),
                    Ok(p),
                ),
                Err(e) => get.ensures((block_hash,), Err(e)) || exists|v: MARFValue|
                    get.ensures((block_hash,), Ok(Some(v))) && #[trigger] prove.ensures(
                        (block_hash, &v),
                        Err(e),
                    ),
            },
    {
        match self.check_provable(block_hash) {
            Ok(_) => {},
            Err(e) => {
                return Err(e);
            },
        }
        match get(block_hash) {
            Ok(None) => Ok(None),
            Ok(Some(v)) => match prove(block_hash, &v) {
                Ok(p) => Ok(Some((v, p))),
                Err(e) => {
                    assert(prove.ensures((block_hash, &v), Err(e)));
                    Err(e)
                },
            },
            Err(e) => Err(e),
        }
    }

    /// The latest squashed range, if its canonical chain is recorded.
    pub open spec fn latest_chain(&self) -> Option<SquashLevelCanonical<T>> {
        if self.squash_levels@.len() == 0 || self.squash_levels@.last().block_hashes@.len() == 0 {
            None
        } else {
            Some(self.squash_levels@.last())
        }
    }

    /// The latest squashed range, if its canonical chain is recorded.
    pub fn latest_squash_level_canonical_chain(&self) -> (r: Option<&SquashLevelCanonical<T>>)
        ensures
            match r {
                Some(level) => self.latest_chain() == Some(*level),
                None => self.latest_chain() is None,
            },
    {
        let n = self.squash_levels.len();
        if n == 0 {
            return None;
        }
        let last = &self.squash_levels[n - 1];
        if last.block_hashes.len() == 0 {
            return None;
        }
        Some(last)
    }

    /// The heights of the latest squashed range, also where it only marks a boundary.
    pub fn latest_squash_level_range(&self) -> (r: Option<SquashLevelRange>)
        ensures
            r == if self.squash_levels@.len() == 0 {
                None
            } else {
                let last = self.squash_levels@.last();
                Some(
                    SquashLevelRange {
                        level_id: last.level_id,
                        min_height: last.min_height,
                        max_height: last.max_height,
                    },
                )
            },
    {
        let n = self.squash_levels.len();
        if n == 0 {
            return None;
        }
        let last = &self.squash_levels[n - 1];
        Some(
            SquashLevelRange {
                level_id: last.level_id,
                min_height: last.min_height,
                max_height: last.max_height,
            },
        )
    }

    /// Compare the recorded canonical chain of the latest squashed range with the chain as it is
    /// now, from the lowest height up. A height of which nothing is known now is passed over.
    pub fn detect_divergence<F: Fn(u32) -> Result<Option<T>, Error>>(
        &self,
        canonical_at_height: F,
    ) -> (r: Result<Option<SquashDivergence<T>>, Error>)
        requires
            forall|h: u32| canonical_at_height.requires((h,)),
        ensures
            self.latest_chain() is None ==> r == Ok::<Option<SquashDivergence<T>>, Error>(None),
            forall|now: spec_fn(u32) -> Option<T>| #[trigger]
                tells_chain(canonical_at_height, now) ==> match (self.latest_chain(), r) {
                    (None, _) => true,
                    (Some(level), Ok(None)) => forall|h: u32|
                        level.min_height <= h <= level.max_height ==> #[trigger] agrees(
                            level,
                            now,
                            h,
                        ),
                    (Some(level), Ok(Some(d))) => {
                        &&& d.level_id == level.level_id
                        &&& level.min_height <= d.diverging_height <= level.max_height
                        &&& forall|h: u32|
                            level.min_height <= h < d.diverging_height ==> #[trigger] agrees(
                                level,
                                now,
                                h,
                            )
                        &&& d.diverging_height - level.min_height < level.block_hashes@.len()
                        &&& d.recorded_canonical == level.block_hashes@[d.diverging_height
                            - level.min_height]
                        &&& now(d.diverging_height) == Some(d.new_canonical)
                        &&& d.recorded_canonical != d.new_canonical
                    },
                    (Some(level), Err(e)) => comparison_failed(canonical_at_height, level, now, e),
                },
    {
        let level = match self.latest_squash_level_canonical_chain() {
            Some(level) => level,
            None => {
                return Ok(None);
            },
        };
        if level.min_height > level.max_height {
            return Ok(None);
        }
        let mut height: u32 = level.min_height;
        loop
            invariant
                forall|h: u32| canonical_at_height.requires((h,)),
                self.latest_chain() == Some(*level),
                level.min_height <= height <= level.max_height,
                forall|now: spec_fn(u32) -> Option<T>, h: u32|
                    tells_chain(canonical_at_height, now) && level.min_height <= h < height
                        ==> #[trigger] agrees(*level, now, h),
            decreases level.max_height - height,
        {
            let at = (height - level.min_height) as usize;
            assert forall|now: spec_fn(u32) -> Option<T>| #[trigger]
                tells_chain(canonical_at_height, now) implies agrees_before(
                *level,
                now,
                height,
            ) by {}
            if at >= level.block_hashes.len() {
                let e = corruption_of(
                    [
                        Piece::Text("MARF::detect_divergence: height "),
                        Piece::Number(height as u64),
                        Piece::Text(" outside canonical chain index range (level_id="),
                        Piece::Number(level.level_id as u64),
                        Piece::Text(", min_height="),
                        Piece::Number(level.min_height as u64),
                        Piece::Text(", max_height="),
                        Piece::Number(level.max_height as u64),
                        Piece::Text(", len="),
                        Piece::Number(level.block_hashes.len() as u64),
                        Piece::Text(")"),
                    ].as_slice(),
                );
                assert forall|now: spec_fn(u32) -> Option<T>| #[trigger]
                    tells_chain(canonical_at_height, now) implies comparison_failed(
                    canonical_at_height,
                    *level,
                    now,
                    e,
                ) by {
                    assert(failed_at(canonical_at_height, *level, now, height, e));
                }
                return Err(e);
            }
            let recorded = level.block_hashes[at];
            match canonical_at_height(height) {
                Err(e) => {
                    assert(canonical_at_height.ensures((height,), Err(e)));
                    assert forall|now: spec_fn(u32) -> Option<T>| #[trigger]
                        tells_chain(canonical_at_height, now) implies comparison_failed(
                        canonical_at_height,
                        *level,
                        now,
                        e,
                    ) by {
                        assert(failed_at(canonical_at_height, *level, now, height, e));
                    }
                    return Err(e);
                },
                Ok(None) => {
                    assert(canonical_at_height.ensures((height,), Ok(None)));
                },
                Ok(Some(chain)) => {
                    assert(canonical_at_height.ensures((height,), Ok(Some(chain))));
                    if !same_id(&recorded, &chain) {
                        return Ok(
                            Some(
                                SquashDivergence {
                                    level_id: level.level_id,
                                    diverging_height: height,
                                    recorded_canonical: recorded,
                                    new_canonical: chain,
                                },
                            ),
                        );
                    }
                },
            }
            assert forall|now: spec_fn(u32) -> Option<T>, h: u32|
                tells_chain(canonical_at_height, now) && level.min_height <= h
                    < height + 1 implies #[trigger] agrees(*level, now, h) by {}
            if height == level.max_height {
                return Ok(None);
            }
            height = height + 1;
        }
    }

    /// Activity since the last squash.
    pub fn stats(&self) -> (r: MarfSquashStats)
        ensures
            r.external_bytes_since_last_squash == self.external_bytes_since_last_squash,
    {
        MarfSquashStats {
            external_bytes_since_last_squash: self.external_bytes_since_last_squash,
        }
    }
}

/// Does the level agree with the chain as it is now, at all its heights below `h`?
pub open spec fn agrees_before<T: MarfTrieId>(
    level: SquashLevelCanonical<T>,
    now: spec_fn(u32) -> Option<T>,
    h: u32,
) -> bool {
    forall|g: u32| level.min_height <= g < h ==> #[trigger] agrees(level, now, g)
}

/// Did the comparison fail with `e` at height `h`, where the level has no block or the chain could
/// not be told, after it agreed at all heights below?
pub open spec fn failed_at<T: MarfTrieId, F: Fn(u32) -> Result<Option<T>, Error>>(
    canonical_at_height: F,
    level: SquashLevelCanonical<T>,
    now: spec_fn(u32) -> Option<T>,
    h: u32,
    e: Error,
) -> bool {
    &&& level.min_height <= h <= level.max_height
    &&& agrees_before(level, now, h)
    &&& if h - level.min_height >= level.block_hashes@.len() {
        e is CorruptionError
    } else {
        canonical_at_height.ensures((h,), Err(e))
    }
}

/// Did the comparison fail with `e`?
pub open spec fn comparison_failed<T: MarfTrieId, F: Fn(u32) -> Result<Option<T>, Error>>(
    canonical_at_height: F,
    level: SquashLevelCanonical<T>,
    now: spec_fn(u32) -> Option<T>,
    e: Error,
) -> bool {
    exists|h: u32| #[trigger] failed_at(canonical_at_height, level, now, h, e)
}

/// Does `canonical_at_height` tell the chain as it is now?
pub open spec fn tells_chain<T, F: Fn(u32) -> Result<Option<T>, Error>>(
    canonical_at_height: F,
    now: spec_fn(u32) -> Option<T>,
) -> bool {
    forall|h: u32, t: Option<T>| #[trigger]
        canonical_at_height.ensures((h,), Ok(t)) ==> now(h) == t
}

/// Does the level agree with the chain as it is now, at a height?
pub open spec fn agrees<T: MarfTrieId>(
    level: SquashLevelCanonical<T>,
    now: spec_fn(u32) -> Option<T>,
    h: u32,
) -> bool {
    &&& h - level.min_height < level.block_hashes@.len()
    &&& now(h) is None || now(h) == Some(level.block_hashes@[h - level.min_height])
}

} // verus!
