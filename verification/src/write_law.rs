//! What beginning a block, inserting into it and reading on while blocks are squashed amount to.

use crate::error::Error;
use crate::hash::sha512_256;
use crate::marf::{
    agrees, extends_at, inserts_bytes, key_path, no_height, only_tip_changed, records_heights,
    retried, BatchInsert, SquashLevelCanonical, MARF,
};
use crate::marf_cow::root_backptr;
use crate::marf_heights::{
    height_entries, height_of, in_fork_of, is_block_at, law_heights_read_back, HeightStore,
};
use crate::node::normalized_ptr;
use crate::node_id::{clear_backptr, is_backptr, law_ctrl_bits, TrieNodeID};
use crate::ptr::TriePtr;
use crate::reader_fence::longer_nap;
use crate::value::{MarfTrieId, SENTINEL_ARRAY};
use vstd::prelude::*;
use vstd::string::StringSliceAdditionalSpecFns;

verus! {

/// A read was retried `n` times exactly if each of the first `n` attempts was overtaken by a squash,
/// and, where there were any, what they left behind was cleared.
pub proof fn law_retries<R, F: Fn(usize) -> Result<R, Error>, Z: Fn() -> Result<(), Error>>(
    exec: F,
    reset: Z,
    n: int,
)
    ensures
        retried(exec, reset, n) <==> (forall|j: usize|
            j < n ==> #[trigger] exec.ensures((j,), Err(Error::RetryAfterSquash))) && (n > 0
            ==> reset.ensures((), Ok(()))),
{
}

/// The block on top of another is one higher than it, and the first of all has height zero. Its
/// height is unknown only where that of the other cannot be told, or is not recorded.
pub proof fn law_blocks_extend_by_one<T: MarfTrieId, H: Fn(&T) -> Result<Option<u32>, Error>>(
    tip_height: H,
    tip: T,
    h: u32,
    g: u32,
    e: Error,
)
    ensures
        tip.id_bytes()@ != SENTINEL_ARRAY@ && tip_height.ensures((&tip,), Ok(Some(g))) && g
            < u32::MAX ==> extends_at(tip_height, tip, (g + 1) as u32),
        tip.id_bytes()@ != SENTINEL_ARRAY@ && extends_at(tip_height, tip, h) ==> h > 0
            && tip_height.ensures((&tip,), Ok(Some((h - 1) as u32))),
        tip.id_bytes()@ == SENTINEL_ARRAY@ && extends_at(tip_height, tip, h) ==> h == 0,
        !tip_height.ensures((&tip,), Err(e)) && !tip_height.ensures((&tip,), Ok(None))
            ==> !no_height(tip_height, tip, e),
{
}

/// A key is looked up where it was inserted.
pub proof fn law_keys_are_looked_up_where_inserted(key: &str)
    ensures
        key_path(key@) == sha512_256(key.spec_bytes()),
{
}

/// Does the trie of `next` hold everything that was inserted into it?
pub open spec fn holds_batch<T: MarfTrieId>(
    st: HeightStore<T>,
    next: T,
    batch: Seq<BatchInsert>,
) -> bool {
    forall|i: int, key: Seq<char>|
        0 <= i < batch.len() && (#[trigger] batch[i]).path@ == #[trigger] key_path(key) ==> (
        st.value)(next, key) == Some(batch[i].leaf.data)
}

/// A block that was begun knows its height once its trie holds what was inserted, and it is the
/// block at that height; and its parent is known one below it, by height and by hash, and is in its
/// fork.
pub proof fn law_begun_block_reads_back<T: MarfTrieId>(
    st: HeightStore<T>,
    batch: Seq<BatchInsert>,
    block: T,
    next: T,
    height: u32,
)
    requires
        block != next,
        records_heights(batch, block, next, height),
        holds_batch(st, next, batch),
        (st.squash)(next) is None,
    ensures
        height_of(st, next, next) == Some(height),
        is_block_at(st, height, next, Some(next)),
        height > 0 ==> height_of(st, block, next) == Some((height - 1) as u32),
        height > 0 ==> is_block_at(st, (height - 1) as u32, next, Some(block)),
        height > 0 ==> in_fork_of(st, block, next),
{
    let e = height_entries(block, next, height);
    assert forall|i: int| 0 <= i < e.len() implies {
        let x = #[trigger] e[i];
        (st.value)(next, x.0) matches Some(v) && v@ == x.1
    } by {
        assert(inserts_bytes(batch[i], e[i].0, e[i].1, false));
        assert(batch[i].path@ == key_path(e[i].0));
    }
    law_heights_read_back(st, block, next, height);
}

/// Writing changes nothing of a forest but which block is being written.
pub proof fn law_only_the_tip_changes<T: MarfTrieId>(a: MARF<T>, b: MARF<T>)
    ensures
        only_tip_changed(a, b) <==> b.db_path == a.db_path && b.readonly == a.readonly
            && b.unconfirmed == a.unconfirmed && b.squash_levels == a.squash_levels
            && b.squash_blocks == a.squash_blocks && b.external_bytes_since_last_squash
            == a.external_bytes_since_last_squash,
{
}

/// A recorded level agrees with the chain at a height exactly if it has a block there, and the chain
/// has the same one, or none that is known.
pub proof fn law_agreement<T: MarfTrieId>(
    level: SquashLevelCanonical<T>,
    now: spec_fn(u32) -> Option<T>,
    h: u32,
)
    requires
        level.min_height <= h,
    ensures
        agrees(level, now, h) <==> h - level.min_height < level.block_hashes@.len() && !(now(h)
            matches Some(t) && t != level.block_hashes@[h - level.min_height]),
{
}

/// A back-pointer into a block is, seen from that block, a plain pointer to the same place; all
/// other pointers stay as they are.
pub proof fn law_normalized(p: TriePtr, block: u32)
    ensures
        is_backptr(p.id) && p.back_block == block ==> normalized_ptr(p, block) == (TriePtr {
            id: clear_backptr(p.id),
            chr: p.chr,
            ptr: p.ptr,
            back_block: 0,
        }),
        !(is_backptr(p.id) && p.back_block == block) ==> normalized_ptr(p, block) == p,
{
}

/// A nap is twice as long as the one before, as long as that is not too long.
pub proof fn law_naps_double(nap: u64, longest: u64)
    ensures
        longer_nap(nap, longest) <= longest,
        2 * nap <= longest ==> longer_nap(nap, longest) == 2 * nap,
        2 * nap >= longest ==> longer_nap(nap, longest) == longest,
{
}

/// The latest squashed range has its chain recorded exactly if there is a range, and the last has
/// blocks; it is the last, then.
pub proof fn law_latest_chain<T: MarfTrieId>(m: MARF<T>)
    ensures
        m.latest_chain() is Some <==> m.squash_levels@.len() > 0
            && m.squash_levels@[m.squash_levels@.len() - 1].block_hashes@.len() > 0,
        m.latest_chain() matches Some(level) ==> level == m.squash_levels@[m.squash_levels@.len()
            - 1],
{
}

/// Seen from a later block, the root of a block is a widest node, at its place in that block.
pub proof fn law_root_seen_from_later(at: u32, id: u32)
    ensures
        is_backptr(root_backptr(at, id).id),
        clear_backptr(root_backptr(at, id).id) == TrieNodeID::Node256.spec_to_u8(),
        root_backptr(at, id).ptr == at,
        root_backptr(at, id).back_block == id,
{
    law_ctrl_bits(TrieNodeID::Node256.spec_to_u8());
}

} // verus!
