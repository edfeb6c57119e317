//! What a chain of blocks records of heights is read back from the trie of its last block.

use crate::bytes::le32;
use crate::marf_heights::{
    hash_key, height_entries, height_key, height_of, in_fork_of, is_block_at,
    law_key_families_disjoint, law_keys_injective, leads_nowhere, lemma_height_value, HeightStore,
    OWN_BLOCK_HEIGHT_KEY,
};
use crate::value::{value_of, MarfTrieId};
use vstd::prelude::*;

verus! {

/// Where the trie of a block at height `own` holds under the key of another height, above or below
/// and however far away, the hash of a block, that block is the one at that height, and no other;
/// where it holds nothing there, there is none. At its own height there is the block itself.
pub proof fn law_block_at_any_height<T: MarfTrieId>(
    st: HeightStore<T>,
    current: T,
    own: u32,
    height: u32,
    r: Option<T>,
)
    requires
        height_of(st, current, current) == Some(own),
    ensures
        height == own ==> (is_block_at(st, height, current, r) <==> r == Some(current)),
        height != own && (st.value)(current, height_key(height)) is None ==> (is_block_at(
            st,
            height,
            current,
            r,
        ) <==> r is None),
        forall|there: T|
            height != own && (#[trigger] holds(
                st,
                current,
                height_key(height),
                value_of(there.id_bytes()@),
            )) ==> (is_block_at(st, height, current, r) <==> r == Some(there)),
{
    assert forall|there: T|
        height != own && (#[trigger] holds(
            st,
            current,
            height_key(height),
            value_of(there.id_bytes()@),
        )) implies (is_block_at(st, height, current, r) <==> r == Some(there)) by {
        let v = (st.value)(current, height_key(height)).unwrap();
        assert(v@.subrange(0, 32) =~= there.id_bytes()@);
        if r is Some {
            T::lemma_id_bytes_determine(r.unwrap(), there);
        }
    }
}

/// Does the trie of `current` hold this value under `key`?
pub open spec fn holds<T>(st: HeightStore<T>, current: T, key: Seq<char>, value: Seq<u8>) -> bool {
    (st.value)(current, key) matches Some(v) && v@ == value
}

/// Is `key` one of those under which the block at height `m` of a chain records something?
pub open spec fn records_under<T: MarfTrieId>(chain: Seq<T>, m: int, key: Seq<char>) -> bool {
    exists|i: int|
        0 <= i < recorded(chain, m).len() && #[trigger] recorded(chain, m)[i].0 == key
}

/// What the block at height `m` of a chain records of heights.
pub open spec fn recorded<T: MarfTrieId>(chain: Seq<T>, m: int) -> Seq<(Seq<char>, Seq<u8>)> {
    height_entries(
        chain[if m > 0 {
            m - 1
        } else {
            0
        }],
        chain[m],
        m as u32,
    )
}

/// Does the trie of the block at height `m` of a chain hold what the block recorded, and of
/// everything else what the trie of the parent holds?
pub open spec fn keeps<T: MarfTrieId>(st: HeightStore<T>, chain: Seq<T>, m: int) -> bool {
    &&& forall|i: int|
        0 <= i < recorded(chain, m).len() ==> {
            let e = #[trigger] recorded(chain, m)[i];
            holds(st, chain[m], e.0, e.1)
        }
    &&& m > 0 ==> forall|key: Seq<char>|
        !#[trigger] records_under(chain, m, key) ==> (st.value)(chain[m], key) == (st.value)(
            chain[m - 1],
            key,
        )
}

/// Is this a chain of different blocks from height zero on, whose tries hold what the blocks
/// recorded of heights?
pub open spec fn is_chain<T: MarfTrieId>(st: HeightStore<T>, chain: Seq<T>) -> bool {
    &&& 0 < chain.len() <= 0x1_0000_0000
    &&& chain.no_duplicates()
    &&& forall|m: int| 0 <= m < chain.len() ==> #[trigger] keeps(st, chain, m)
}

/// A block records under no other keys than those of its own height and hash, and its parent's.
proof fn lemma_not_recorded<T: MarfTrieId>(chain: Seq<T>, m: int, g: u32, x: T)
    requires
        0 < m < chain.len() <= 0x1_0000_0000,
    ensures
        g != m && g != m - 1 ==> !records_under(chain, m, height_key(g)),
        x != chain[m] && x != chain[m - 1] ==> !records_under(chain, m, hash_key(x)),
{
    let e = recorded(chain, m);
    let h = m as u32;
    let b = (m - 1) as u32;
    law_keys_injective(g, h, x, chain[m]);
    law_keys_injective(g, b, x, chain[m - 1]);
    law_key_families_disjoint(g, x);
    law_key_families_disjoint(g, chain[m]);
    law_key_families_disjoint(g, chain[m - 1]);
    law_key_families_disjoint(h, x);
    law_key_families_disjoint(b, x);
}

/// The trie of a block of a chain holds the hash and the height of every block before it.
proof fn lemma_chain_holds<T: MarfTrieId>(st: HeightStore<T>, chain: Seq<T>, m: int, g: int)
    requires
        is_chain(st, chain),
        0 <= g <= m < chain.len(),
    ensures
        holds(st, chain[m], height_key(g as u32), value_of(chain[g].id_bytes()@)),
        holds(st, chain[m], hash_key(chain[g]), value_of(le32(g as u32))),
    decreases m,
{
    let e = recorded(chain, m);
    assert(keeps(st, chain, m));
    if g == m {
        assert(holds(st, chain[m], e[1].0, e[1].1));
        assert(holds(st, chain[m], e[2].0, e[2].1));
    } else if g == m - 1 {
        assert(holds(st, chain[m], e[3].0, e[3].1));
        assert(holds(st, chain[m], e[4].0, e[4].1));
    } else {
        lemma_chain_holds(st, chain, m - 1, g);
        lemma_not_recorded(chain, m, g as u32, chain[g]);
        assert((st.value)(chain[m], height_key(g as u32)) == (st.value)(
            chain[m - 1],
            height_key(g as u32),
        ));
        assert((st.value)(chain[m], hash_key(chain[g])) == (st.value)(
            chain[m - 1],
            hash_key(chain[g]),
        ));
    }
}

/// Over a chain, asked at its last block: the block at each height is the block of the chain at
/// that height, the height of each block is its place in the chain, and each is in the fork of the
/// last, however far below it.
pub proof fn law_chain_reads_back<T: MarfTrieId>(st: HeightStore<T>, chain: Seq<T>, g: u32)
    requires
        is_chain(st, chain),
        g < chain.len(),
        (st.squash)(chain.last()) is None || (st.squash)(chain.last()) == Some(
            (chain.len() - 1) as u32,
        ),
    ensures
        forall|r: Option<T>| #[trigger]
            is_block_at(st, g, chain.last(), r) <==> r == Some(chain[g as int]),
        height_of(st, chain[g as int], chain.last()) == Some(g),
        in_fork_of(st, chain[g as int], chain.last()),
        !leads_nowhere(st, chain[g as int], chain.last()),
{
    let n = chain.len() - 1;
    let tip = chain[n];
    let there = chain[g as int];
    lemma_chain_holds(st, chain, n, g as int);
    lemma_chain_holds(st, chain, n, n);
    let e = recorded(chain, n);
    assert(keeps(st, chain, n));
    assert(holds(st, tip, e[0].0, e[0].1));
    assert(e[0].0 == OWN_BLOCK_HEIGHT_KEY@);
    lemma_height_value((st.value)(tip, OWN_BLOCK_HEIGHT_KEY@).unwrap(), n as u32);
    lemma_height_value((st.value)(tip, hash_key(there)).unwrap(), g);
    assert(height_of(st, tip, tip) == Some(n as u32));
    if g < n {
        assert(there != tip);
    }
    assert forall|r: Option<T>| #[trigger]
        is_block_at(st, g, tip, r) <==> r == Some(there) by {
        law_block_at_any_height(st, tip, n as u32, g, r);
        assert(holds(st, tip, height_key(g), value_of(there.id_bytes()@)));
    }
}

/// A block that is not of the chain, and of which the first trie knows nothing, has no height at
/// the last block, and is not in its fork.
pub proof fn law_strangers_are_in_no_fork<T: MarfTrieId>(st: HeightStore<T>, chain: Seq<T>, x: T)
    requires
        is_chain(st, chain),
        !chain.contains(x),
        (st.value)(chain[0], hash_key(x)) is None,
    ensures
        height_of(st, x, chain.last()) is None,
        !in_fork_of(st, x, chain.last()),
    decreases chain.len(),
{
    assert(chain[chain.len() - 1] == chain.last());
    lemma_stranger(st, chain, x, chain.len() - 1);
    assert(chain.contains(chain.last()));
}

proof fn lemma_stranger<T: MarfTrieId>(st: HeightStore<T>, chain: Seq<T>, x: T, m: int)
    requires
        is_chain(st, chain),
        !chain.contains(x),
        (st.value)(chain[0], hash_key(x)) is None,
        0 <= m < chain.len(),
    ensures
        (st.value)(chain[m], hash_key(x)) is None,
    decreases m,
{
    if m > 0 {
        assert(keeps(st, chain, m));
        lemma_stranger(st, chain, x, m - 1);
        assert(chain.contains(chain[m]));
        assert(chain.contains(chain[m - 1]));
        lemma_not_recorded(chain, m, 0, x);
    }
}

/// The height that a block has for itself is that of the squashed range it is in, and else the one
/// that its trie holds under its own key; the height that it has for another block is the one that
/// its trie holds under that block's key, also in a squashed range.
pub proof fn law_heights_are_what_the_trie_holds<T: MarfTrieId>(
    st: HeightStore<T>,
    current: T,
    other: T,
    h: u32,
)
    ensures
        (st.squash)(current) is Some ==> height_of(st, current, current) == (st.squash)(current),
        (st.squash)(current) is None && holds(
            st,
            current,
            OWN_BLOCK_HEIGHT_KEY@,
            value_of(le32(h)),
        ) ==> height_of(st, current, current) == Some(h),
        (st.squash)(current) is None && (st.value)(current, OWN_BLOCK_HEIGHT_KEY@) is None
            ==> height_of(st, current, current) is None,
        other != current && holds(st, current, hash_key(other), value_of(le32(h))) ==> height_of(
            st,
            other,
            current,
        ) == Some(h),
        other != current && (st.value)(current, hash_key(other)) is None ==> height_of(
            st,
            other,
            current,
        ) is None,
{
    if holds(st, current, OWN_BLOCK_HEIGHT_KEY@, value_of(le32(h))) {
        lemma_height_value((st.value)(current, OWN_BLOCK_HEIGHT_KEY@).unwrap(), h);
    }
    if holds(st, current, hash_key(other), value_of(le32(h))) {
        lemma_height_value((st.value)(current, hash_key(other)).unwrap(), h);
    }
}

/// A block is in the fork of another exactly if it is that block, or has a height there at which the
/// other has this block; and it leads nowhere exactly if it has a height there at which the other
/// has none.
pub proof fn law_forks<T: MarfTrieId>(st: HeightStore<T>, current: T, own: u32, block: T, h: u32)
    requires
        block != current,
        height_of(st, current, current) == Some(own),
        height_of(st, block, current) == Some(h),
    ensures
        h != own && holds(st, current, height_key(h), value_of(block.id_bytes()@)) ==> in_fork_of(
            st,
            block,
            current,
        ) && !leads_nowhere(st, block, current),
        h != own && (st.value)(current, height_key(h)) is None ==> leads_nowhere(st, block, current)
            && !in_fork_of(st, block, current),
        h == own ==> !in_fork_of(st, block, current) && !leads_nowhere(st, block, current),
        forall|there: T|
            h != own && there != block && (#[trigger] holds(
                st,
                current,
                height_key(h),
                value_of(there.id_bytes()@),
            )) ==> !in_fork_of(st, block, current) && !leads_nowhere(st, block, current),
{
    law_block_at_any_height(st, current, own, h, Some(block));
    law_block_at_any_height(st, current, own, h, None);
}

} // verus!
