//! Block heights within the forest: every block records its own height, its hash at its height,
//! and its height under its hash, and the same of its parent.

use crate::bytes::{from_be32, lemma_be32_round_trip};
use crate::error::{corruption_at, Error};
use crate::hash::{sha512_256, TrieHash};
use crate::text::{lemma_number_text_round_trip, number_text, push_number};
use crate::value::{
    same_id, trie_id_from_value, value_of, zero_from, MARFValue, MarfTrieId, SENTINEL_ARRAY,
};
use vstd::prelude::*;

verus! {

pub const BLOCK_HASH_TO_HEIGHT_MAPPING_KEY: &'static str = "__MARF_BLOCK_HASH_TO_HEIGHT";

pub const BLOCK_HEIGHT_TO_HASH_MAPPING_KEY: &'static str = "__MARF_BLOCK_HEIGHT_TO_HASH";

pub const OWN_BLOCK_HEIGHT_KEY: &'static str = "__MARF_BLOCK_HEIGHT_SELF";

/// Bytes as hexadecimal digits, two for each.
pub open spec fn hex_text(s: Seq<u8>) -> Seq<char>
    decreases s.len(),
{
    if s.len() == 0 {
        Seq::empty()
    } else {
        hex_text(s.drop_last()) + number_text(s.last() as nat, 16, 2)
    }
}

/// Append bytes as hexadecimal digits.
pub fn push_hex(out: &mut String, s: &[u8])
    ensures
        final(out)@ == old(out)@ + hex_text(s@),
{
    let mut i: usize = 0;
    assert(out@ =~= old(out)@ + hex_text(s@.take(0)));
    while i < s.len()
        invariant
            i <= s@.len(),
            out@ == old(out)@ + hex_text(s@.take(i as int)),
        decreases s@.len() - i,
    {
        assert(s@.take(i + 1).drop_last() =~= s@.take(i as int));
        push_number(out, s[i] as u64, 16, 2);
        i += 1;
        assert(out@ =~= old(out)@ + hex_text(s@.take(i as int)));
    }
    assert(s@.take(i as int) =~= s@);
}

/// The key under which the hash of the block at a height is stored.
pub open spec fn height_key(height: u32) -> Seq<char> {
    BLOCK_HEIGHT_TO_HASH_MAPPING_KEY@ + "::"@ + number_text(height as nat, 10, 0)
}

/// The key under which the height of a block is stored.
pub open spec fn hash_key<T: MarfTrieId>(block: T) -> Seq<char> {
    BLOCK_HASH_TO_HEIGHT_MAPPING_KEY@ + "::"@ + hex_text(block.id_bytes()@)
}

/// The key under which the hash of the block at a height is stored.
pub fn block_height_to_hash_key(height: u32) -> (r: String)
    ensures
        r@ == height_key(height),
{
    let mut s = BLOCK_HEIGHT_TO_HASH_MAPPING_KEY.to_owned();
    s.append("::");
    push_number(&mut s, height as u64, 10, 0);
    s
}

/// The key under which the height of a block is stored.
pub fn block_hash_to_height_key<T: MarfTrieId>(block: &T) -> (r: String)
    ensures
        r@ == hash_key(*block),
{
    let mut s = BLOCK_HASH_TO_HEIGHT_MAPPING_KEY.to_owned();
    s.append("::");
    push_hex(&mut s, block.as_bytes());
    s
}

/// The height that a value holds.
pub open spec fn value_height(v: MARFValue) -> u32 {
    from_be32(v@.subrange(0, 4).reverse())
}

/// What the forest says of heights.
#[verifier::reject_recursive_types(T)]
pub struct HeightStore<T> {
    /// The height of a committed block that is in a squashed range.
    pub squash: spec_fn(T) -> Option<u32>,
    /// The value of a key in the trie of a block.
    pub value: spec_fn(T, Seq<char>) -> Option<MARFValue>,
}

/// Do the lookups answer from this forest?
pub open spec fn height_answers<
    T: MarfTrieId,
    O: Fn(&T) -> Result<Option<u32>, Error>,
    G: Fn(&T, &str) -> Result<Option<MARFValue>, Error>,
>(squash_height: O, get: G, st: HeightStore<T>) -> bool {
    &&& forall|t: T, h: Option<u32>| #[trigger]
        squash_height.ensures((&t,), Ok(h)) ==> (st.squash)(t) == h
    &&& forall|t: T| #[trigger]
        squash_height.ensures((&t,), Err(Error::NotFoundError)) ==> (st.squash)(t) is None
    &&& forall|t: T, key: &str, v: Option<MARFValue>| #[trigger]
        get.ensures((&t, key), Ok(v)) ==> (st.value)(t, key@) == v
}

/// Can `get` be asked for a key in the trie of `t`, and does it give a value that holds `n` bytes
/// and nothing else, if any?
pub open spec fn asks<T: MarfTrieId, G: Fn(&T, &str) -> Result<Option<MARFValue>, Error>>(
    get: G,
    t: T,
    key: Seq<char>,
    n: int,
) -> bool {
    &&& forall|k: &str| k@ == key ==> #[trigger] get.requires((&t, k))
    &&& forall|k: &str, v: MARFValue|
        k@ == key && #[trigger] get.ensures((&t, k), Ok(Some(v))) ==> zero_from(v@, n)
}

/// Can the lookups be asked for the height of `block` in the trie of `current`?
pub open spec fn height_callable<
    T: MarfTrieId,
    O: Fn(&T) -> Result<Option<u32>, Error>,
    G: Fn(&T, &str) -> Result<Option<MARFValue>, Error>,
>(squash_height: O, get: G, block: T, current: T) -> bool {
    if block == current {
        squash_height.requires((&current,)) && asks(get, current, OWN_BLOCK_HEIGHT_KEY@, 4)
    } else {
        asks(get, current, hash_key(block), 4)
    }
}

/// Can the lookups be asked for the block at a height in the trie of `current`?
pub open spec fn block_callable<
    T: MarfTrieId,
    O: Fn(&T) -> Result<Option<u32>, Error>,
    G: Fn(&T, &str) -> Result<Option<MARFValue>, Error>,
>(squash_height: O, get: G, height: u32, current: T) -> bool {
    &&& height_callable(squash_height, get, current, current)
    &&& asks(get, current, height_key(height), 32)
}

/// Can asking for a key in the trie of `t` have failed with `e`?
pub open spec fn get_failed<T: MarfTrieId, G: Fn(&T, &str) -> Result<Option<MARFValue>, Error>>(
    get: G,
    t: T,
    key: Seq<char>,
    e: Error,
) -> bool {
    exists|k: &str| k@ == key && #[trigger] get.ensures((&t, k), Err(e))
}

/// Can asking for the height of `block` in the trie of `current` have failed with `e`?
pub open spec fn height_failed<
    T: MarfTrieId,
    O: Fn(&T) -> Result<Option<u32>, Error>,
    G: Fn(&T, &str) -> Result<Option<MARFValue>, Error>,
>(squash_height: O, get: G, st: HeightStore<T>, block: T, current: T, e: Error) -> bool {
    if block == current {
        ||| !(e is NotFoundError) && squash_height.ensures((&current,), Err(e))
        ||| (st.squash)(current) is None && get_failed(get, current, OWN_BLOCK_HEIGHT_KEY@, e)
    } else {
        get_failed(get, current, hash_key(block), e)
    }
}

/// Can asking for the block at a height in the trie of `current` have failed with `e`?
pub open spec fn block_failed<
    T: MarfTrieId,
    O: Fn(&T) -> Result<Option<u32>, Error>,
    G: Fn(&T, &str) -> Result<Option<MARFValue>, Error>,
>(squash_height: O, get: G, st: HeightStore<T>, height: u32, current: T, e: Error) -> bool {
    ||| height_failed(squash_height, get, st, current, current, e)
    ||| height_of(st, current, current) matches Some(h) && h != height && get_failed(
        get,
        current,
        height_key(height),
        e,
    )
}

/// The height of `block` as the trie of `current` has it. In a squashed range the tries of all
/// blocks are one, so a block of such a range is asked for its own height elsewhere.
pub open spec fn height_of<T: MarfTrieId>(st: HeightStore<T>, block: T, current: T) -> Option<u32> {
    let stored = |key: Seq<char>|
        match (st.value)(current, key) {
            Some(v) => Some(value_height(v)),
            None => None,
        };
    if block == current {
        match (st.squash)(current) {
            Some(h) => Some(h),
            None => stored(OWN_BLOCK_HEIGHT_KEY@),
        }
    } else {
        stored(hash_key(block))
    }
}

/// Is `r` the block at a height as the trie of `current` has it?
pub open spec fn is_block_at<T: MarfTrieId>(
    st: HeightStore<T>,
    height: u32,
    current: T,
    r: Option<T>,
) -> bool {
    match height_of(st, current, current) {
        None => r is None,
        Some(h) => if h == height {
            r == Some(current)
        } else {
            match (st.value)(current, height_key(height)) {
                None => r is None,
                Some(v) => r is Some && r.unwrap().id_bytes()@ == v@.subrange(0, 32),
            }
        },
    }
}

/// The keys of heights and of blocks are never the same, nor the key of a block's own height one of
/// either.
pub proof fn law_key_families_disjoint<T: MarfTrieId>(height: u32, block: T)
    ensures
        height_key(height) != hash_key(block),
        height_key(height) != OWN_BLOCK_HEIGHT_KEY@,
        hash_key(block) != OWN_BLOCK_HEIGHT_KEY@,
{
    reveal_strlit("__MARF_BLOCK_HASH_TO_HEIGHT");
    reveal_strlit("__MARF_BLOCK_HEIGHT_TO_HASH");
    reveal_strlit("__MARF_BLOCK_HEIGHT_SELF");
    reveal_strlit("::");
    assert(height_key(height)[14] == 'E');
    assert(hash_key(block)[14] == 'A');
    assert(height_key(height)[20] == 'T');
    assert(OWN_BLOCK_HEIGHT_KEY@[20] == 'S');
    assert(OWN_BLOCK_HEIGHT_KEY@[14] == 'E');
}

/// The height of a committed block within a squashed range, given what is known of it once it is
/// open. An uncommitted block has the height of its parent there, which is not its own.
pub fn in_squash_height(block_id: Option<u32>, squash_opened_height: Option<u32>) -> (r: Option<u32>)
    ensures
        r == if block_id is Some {
            squash_opened_height
        } else {
            None
        },
{
    if block_id.is_some() {
        squash_opened_height
    } else {
        None
    }
}

/// The height of `block_hash` as the trie of `current_block_hash` has it, if it does.
///
/// `squash_height` gives the height of a committed block that is in a squashed range, and `get` the
/// value of a key in the trie of a block.
pub fn get_block_height_miner_tip<
    T: MarfTrieId,
    O: Fn(&T) -> Result<Option<u32>, Error>,
    G: Fn(&T, &str) -> Result<Option<MARFValue>, Error>,
>(block_hash: &T, current_block_hash: &T, squash_height: &O, get: &G) -> (r: Result<
    Option<u32>,
    Error,
>)
    requires
        height_callable(*squash_height, *get, *block_hash, *current_block_hash),
    ensures
        forall|st: HeightStore<T>| #[trigger]
            height_answers(*squash_height, *get, st) ==> match r {
                Ok(h) => h == height_of(st, *block_hash, *current_block_hash),
                Err(e) => height_failed(
                    *squash_height,
                    *get,
                    st,
                    *block_hash,
                    *current_block_hash,
                    e,
                ),
            },
{
    let own = same_id(block_hash, current_block_hash);
    if own {
        match squash_height(current_block_hash) {
            Ok(Some(h)) => {
                return Ok(Some(h));
            },
            Ok(None) => {},
            Err(Error::NotFoundError) => {},
            Err(e) => {
                return Err(e);
            },
        }
    }
    let key = if own {
        OWN_BLOCK_HEIGHT_KEY.to_owned()
    } else {
        block_hash_to_height_key(block_hash)
    };
    match get(current_block_hash, key.as_str()) {
        Ok(Some(v)) => Ok(Some(v.to_u32())),
        Ok(None) => Ok(None),
        Err(e) => {
            assert(get_failed(*get, *current_block_hash, key@, e));
            Err(e)
        },
    }
}

/// The height of `block_hash` as the trie of `current_block_hash` has it, if it does.
pub fn get_block_height<
    T: MarfTrieId,
    O: Fn(&T) -> Result<Option<u32>, Error>,
    G: Fn(&T, &str) -> Result<Option<MARFValue>, Error>,
>(block_hash: &T, current_block_hash: &T, squash_height: &O, get: &G) -> (r: Result<
    Option<u32>,
    Error,
>)
    requires
        height_callable(*squash_height, *get, *block_hash, *current_block_hash),
    ensures
        forall|st: HeightStore<T>| #[trigger]
            height_answers(*squash_height, *get, st) ==> match r {
                Ok(h) => h == height_of(st, *block_hash, *current_block_hash),
                Err(e) => height_failed(
                    *squash_height,
                    *get,
                    st,
                    *block_hash,
                    *current_block_hash,
                    e,
                ),
            },
{
    get_block_height_miner_tip(block_hash, current_block_hash, squash_height, get)
}

/// The block at a height as the trie of `current_block_hash` has it, if it does.
pub fn get_block_at_height<
    T: MarfTrieId,
    O: Fn(&T) -> Result<Option<u32>, Error>,
    G: Fn(&T, &str) -> Result<Option<MARFValue>, Error>,
>(height: u32, current_block_hash: &T, squash_height: &O, get: &G) -> (r: Result<Option<T>, Error>)
    requires
        block_callable(*squash_height, *get, height, *current_block_hash),
    ensures
        forall|st: HeightStore<T>| #[trigger]
            height_answers(*squash_height, *get, st) ==> match r {
                Ok(b) => is_block_at(st, height, *current_block_hash, b),
                Err(e) => block_failed(*squash_height, *get, st, height, *current_block_hash, e),
            },
{
    let current = match get_block_height(
        current_block_hash,
        current_block_hash,
        squash_height,
        get,
    ) {
        Ok(Some(h)) => h,
        Ok(None) => {
            return Ok(None);
        },
        Err(e) => {
            return Err(e);
        },
    };
    if height == current {
        return Ok(Some(*current_block_hash));
    }
    let key = block_height_to_hash_key(height);
    match get(current_block_hash, key.as_str()) {
        Ok(Some(v)) => {
            assert(zero_from(v@, 32));
            Ok(Some(trie_id_from_value(&v)))
        },
        Ok(None) => Ok(None),
        Err(e) => {
            assert(get_failed(*get, *current_block_hash, key@, e));
            Err(e)
        },
    }
}

/// Is `block` in the fork of `current`: is it the block at the height that the trie of `current`
/// has for it?
pub open spec fn in_fork_of<T: MarfTrieId>(st: HeightStore<T>, block: T, current: T) -> bool {
    block == current || (height_of(st, block, current) matches Some(h) && is_block_at(
        st,
        h,
        current,
        Some(block),
    ))
}

/// Does the trie of `current` have a height for `block`, but no block at that height?
pub open spec fn leads_nowhere<T: MarfTrieId>(st: HeightStore<T>, block: T, current: T) -> bool {
    height_of(st, block, current) matches Some(h) && is_block_at(st, h, current, None)
}

/// Check that a block is in the same fork as `current`, which is open, and that it can be opened.
///
/// `open_block` opens a block; `current` is open again afterwards. A block of another fork is
/// `NonMatchingForks`; one at whose height there is no block is corruption; if `current` cannot be
/// opened again, that is `RestoreMarfBlockError`.
pub fn check_ancestor_block_hash<
    T: MarfTrieId,
    O: Fn(&T) -> Result<Option<u32>, Error>,
    G: Fn(&T, &str) -> Result<Option<MARFValue>, Error>,
    W: Fn(&T) -> Result<(), Error>,
>(bhh: &T, current: &T, squash_height: &O, get: &G, open_block: &W) -> (r: Result<(), Error>)
    requires
        *bhh != *current ==> {
            &&& height_callable(*squash_height, *get, *bhh, *current)
            &&& forall|h: u32| #[trigger] block_callable(*squash_height, *get, h, *current)
            &&& open_block.requires((bhh,))
            &&& open_block.requires((current,))
        },
    ensures
        *bhh == *current ==> r is Ok,
        forall|st: HeightStore<T>| #[trigger]
            height_answers(*squash_height, *get, st) ==> match r {
                Ok(_) => in_fork_of(st, *bhh, *current) && (*bhh != *current ==> open_block.ensures(
                    (bhh,),
                    Ok(()),
                ) && open_block.ensures((current,), Ok(()))),
                Err(e) => {
                    ||| height_failed(*squash_height, *get, st, *bhh, *current, e)
                    ||| height_of(st, *bhh, *current) matches Some(h) && block_failed(
                        *squash_height,
                        *get,
                        st,
                        h,
                        *current,
                        e,
                    )
                    ||| if leads_nowhere(st, *bhh, *current) {
                        e is CorruptionError
                    } else if !in_fork_of(st, *bhh, *current) {
                        e == Error::NonMatchingForks(bhh.id_bytes(), current.id_bytes())
                    } else {
                        ||| e matches Error::RestoreMarfBlockError(b) && open_block.ensures(
                            (current,),
                            Err(*b),
                        )
                        ||| open_block.ensures((bhh,), Err(e)) && open_block.ensures(
                            (current,),
                            Ok(()),
                        )
                    }
                },
            },
{
    if same_id(current, bhh) {
        return Ok(());
    }
    let height = match get_block_height(bhh, current, squash_height, get) {
        Ok(Some(h)) => h,
        Ok(None) => {
            return Err(Error::NonMatchingForks(bhh.to_bytes(), current.to_bytes()));
        },
        Err(e) => {
            return Err(e);
        },
    };
    assert(block_callable(*squash_height, *get, height, *current));
    let actual = match get_block_at_height(height, current, squash_height, get) {
        Ok(Some(b)) => b,
        Ok(None) => {
            return Err(
                corruption_at(
                    "ERROR: Could not find block for height ",
                    height as u64,
                    ", but it was returned by MARF::get_block_height()",
                ),
            );
        },
        Err(e) => {
            return Err(e);
        },
    };
    proof {
        assert forall|st: HeightStore<T>| #[trigger]
            height_answers(*squash_height, *get, st) implies (actual == *bhh <==> in_fork_of(
            st,
            *bhh,
            *current,
        )) by {
            T::lemma_id_bytes_determine(actual, *bhh);
        }
    }
    if !same_id(bhh, &actual) {
        return Err(Error::NonMatchingForks(bhh.to_bytes(), current.to_bytes()));
    }
    let result = open_block(bhh);
    assert(open_block.ensures((bhh,), result));
    let reopened = open_block(current);
    assert(open_block.ensures((current,), reopened));
    match reopened {
        Ok(u) => {
            assert(u == ());
        },
        Err(e) => {
            return Err(Error::RestoreMarfBlockError(Box::new(e)));
        },
    }
    proof {
        if let Ok(u) = result {
            assert(u == ());
        }
    }
    result
}

/// The height of the block that extends `chain_tip`, whose own height was looked up: zero for the
/// first block of all.
pub fn extension_height<T: MarfTrieId>(chain_tip: &T, tip_height: Option<u32>) -> (r: Result<
    u32,
    Error,
>)
    requires
        chain_tip.id_bytes()@ != SENTINEL_ARRAY@ && tip_height is Some ==> tip_height.unwrap()
            < u32::MAX,
    ensures
        match r {
            Ok(h) => if chain_tip.id_bytes()@ == SENTINEL_ARRAY@ {
                h == 0
            } else {
                tip_height is Some && h == tip_height.unwrap() + 1
            },
            Err(e) => e is CorruptionError && chain_tip.id_bytes()@ != SENTINEL_ARRAY@
                && tip_height is None,
        },
{
    let sentinel = T::sentinel();
    proof {
        T::lemma_id_bytes_determine(*chain_tip, sentinel);
    }
    if same_id(chain_tip, &sentinel) {
        return Ok(0);
    }
    match tip_height {
        Some(h) => Ok(h + 1),
        None => {
            let mut m = "Failed to find block height for `".to_owned();
            push_hex(&mut m, chain_tip.as_bytes());
            m.append("`");
            Err(Error::CorruptionError(m))
        },
    }
}

/// What a block at `height`, the child of `block`, records of heights.
pub open spec fn height_entries<T: MarfTrieId>(block: T, next: T, height: u32) -> Seq<
    (Seq<char>, Seq<u8>),
> {
    let own = seq![
        (OWN_BLOCK_HEIGHT_KEY@, value_of(crate::bytes::le32(height))),
        (height_key(height), value_of(next.id_bytes()@)),
        (hash_key(next), value_of(crate::bytes::le32(height))),
    ];
    if height == 0 {
        own
    } else {
        let before = (height - 1) as u32;
        own + seq![
            (height_key(before), value_of(block.id_bytes()@)),
            (hash_key(block), value_of(crate::bytes::le32(before))),
        ]
    }
}

/// What a block at `height`, the child of `block_hash`, records of heights: keys and values.
pub fn set_block_heights<T: MarfTrieId>(block_hash: &T, next_block_hash: &T, height: u32) -> (r: (
    Vec<String>,
    Vec<MARFValue>,
))
    ensures
        ({
            let e = height_entries(*block_hash, *next_block_hash, height);
            &&& r.0@.len() == e.len()
            &&& r.1@.len() == e.len()
            &&& forall|i: int|
                0 <= i < e.len() ==> (#[trigger] r.0@[i])@ == e[i].0 && r.1@[i]@ == e[i].1
        }),
{
    let mut keys: Vec<String> = Vec::new();
    let mut values: Vec<MARFValue> = Vec::new();
    keys.push(OWN_BLOCK_HEIGHT_KEY.to_owned());
    values.push(MARFValue::from_u32(height));
    keys.push(block_height_to_hash_key(height));
    values.push(MARFValue::from_trie_id(*next_block_hash));
    keys.push(block_hash_to_height_key(next_block_hash));
    values.push(MARFValue::from_u32(height));
    if height > 0 {
        keys.push(block_height_to_hash_key(height - 1));
        values.push(MARFValue::from_trie_id(*block_hash));
        keys.push(block_hash_to_height_key(block_hash));
        values.push(MARFValue::from_u32(height - 1));
    }
    (keys, values)
}

/// The bytes of the identifier under which unconfirmed state on top of `chain_tip` is kept.
pub open spec fn unconfirmed_id<T: MarfTrieId>(chain_tip: T) -> Seq<u8> {
    sha512_256(chain_tip.id_bytes()@ + chain_tip.id_bytes()@)
}

/// The identifier under which unconfirmed state on top of `chain_tip` is kept: the digest of the
/// identifier, written twice.
pub fn make_unconfirmed_chain_tip<T: MarfTrieId>(chain_tip: &T) -> (r: T)
    ensures
        r.id_bytes()@ == unconfirmed_id(*chain_tip),
        r.id_bytes()@ == sha512_256(chain_tip.id_bytes()@ + chain_tip.id_bytes()@),
{
    let mut bytes: Vec<u8> = Vec::new();
    crate::bytes::push_all(&mut bytes, chain_tip.as_bytes());
    crate::bytes::push_all(&mut bytes, chain_tip.as_bytes());
    assert(bytes@ =~= chain_tip.id_bytes()@ + chain_tip.id_bytes()@);
    let h = TrieHash::from_data(bytes.as_slice());
    T::from_bytes(*h.as_bytes())
}

// ---------------------------------------------------------------------------------------
// Laws
// ---------------------------------------------------------------------------------------
proof fn lemma_hex_injective(a: Seq<u8>, b: Seq<u8>)
    requires
        a.len() == b.len(),
        hex_text(a) == hex_text(b),
    ensures
        a == b,
    decreases a.len(),
{
    if a.len() == 0 {
        assert(a =~= b);
    } else {
        let x = number_text(a.last() as nat, 16, 2);
        let y = number_text(b.last() as nat, 16, 2);
        lemma_two_digits(a.last());
        lemma_two_digits(b.last());
        let p = hex_text(a.drop_last());
        let q = hex_text(b.drop_last());
        assert(p =~= (p + x).take((p + x).len() - 2));
        assert(q =~= (q + y).take((q + y).len() - 2));
        assert(x =~= (p + x).skip((p + x).len() - 2));
        assert(y =~= (q + y).skip((q + y).len() - 2));
        lemma_hex_injective(a.drop_last(), b.drop_last());
        lemma_number_text_round_trip(a.last() as nat, 16, 2, 255);
        lemma_number_text_round_trip(b.last() as nat, 16, 2, 255);
        assert(a =~= a.drop_last().push(a.last()));
        assert(b =~= b.drop_last().push(b.last()));
    }
}

proof fn lemma_two_digits(b: u8)
    ensures
        number_text(b as nat, 16, 2).len() == 2,
{
    reveal_with_fuel(crate::text::digits, 3);
    if b >= 16 {
        assert((b as nat) / 16 < 16);
    }
}

/// Different heights have different keys, and so have different blocks.
pub proof fn law_keys_injective<T: MarfTrieId>(g: u32, h: u32, a: T, b: T)
    ensures
        height_key(g) == height_key(h) ==> g == h,
        hash_key(a) == hash_key(b) ==> a == b,
{
    if height_key(g) == height_key(h) {
        let prefix = BLOCK_HEIGHT_TO_HASH_MAPPING_KEY@ + "::"@;
        let x = number_text(g as nat, 10, 0);
        let y = number_text(h as nat, 10, 0);
        assert(x =~= height_key(g).skip(prefix.len() as int));
        assert(y =~= height_key(h).skip(prefix.len() as int));
        lemma_number_text_round_trip(g as nat, 10, 0, u32::MAX as nat);
        lemma_number_text_round_trip(h as nat, 10, 0, u32::MAX as nat);
    }
    if hash_key(a) == hash_key(b) {
        let prefix = BLOCK_HASH_TO_HEIGHT_MAPPING_KEY@ + "::"@;
        assert(hex_text(a.id_bytes()@) =~= hash_key(a).skip(prefix.len() as int));
        assert(hex_text(b.id_bytes()@) =~= hash_key(b).skip(prefix.len() as int));
        lemma_hex_injective(a.id_bytes()@, b.id_bytes()@);
        T::lemma_id_bytes_determine(a, b);
    }
}

/// No two of the entries that a block records have the same key, so each of them is stored.
pub proof fn law_entries_distinct<T: MarfTrieId>(block: T, next: T, height: u32, i: int, j: int)
    requires
        block != next,
        0 <= i < j < height_entries(block, next, height).len(),
    ensures
        height_entries(block, next, height)[i].0 != height_entries(block, next, height)[j].0,
{
    law_key_families_disjoint(height, next);
    law_key_families_disjoint(height, block);
    law_keys_injective(height, (height - 1) as u32, block, next);
    if height > 0 {
        law_key_families_disjoint((height - 1) as u32, next);
        law_key_families_disjoint((height - 1) as u32, block);
    }
}

/// A value that was made from a height holds that height.
pub proof fn lemma_height_value(v: MARFValue, h: u32)
    requires
        v@ == value_of(crate::bytes::le32(h)),
    ensures
        value_height(v) == h,
{
    lemma_be32_round_trip(h);
    assert(v@.subrange(0, 4).reverse() =~= crate::bytes::be32(h));
}

/// Where the trie of a block holds what the block records of heights, and is not in a squashed
/// range: it has its own height, it is the block at that height, and its parent is found one below,
/// by height and by hash; and both are in its fork.
pub proof fn law_heights_read_back<T: MarfTrieId>(
    st: HeightStore<T>,
    block: T,
    next: T,
    height: u32,
)
    requires
        block != next,
        (st.squash)(next) is None,
        forall|i: int|
            0 <= i < height_entries(block, next, height).len() ==> {
                let e = #[trigger] height_entries(block, next, height)[i];
                (st.value)(next, e.0) matches Some(v) && v@ == e.1
            },
    ensures
        height_of(st, next, next) == Some(height),
        is_block_at(st, height, next, Some(next)),
        in_fork_of(st, next, next),
        height > 0 ==> height_of(st, block, next) == Some((height - 1) as u32),
        height > 0 ==> is_block_at(st, (height - 1) as u32, next, Some(block)),
        height > 0 ==> in_fork_of(st, block, next),
{
    let e = height_entries(block, next, height);
    assert(e[0].0 == OWN_BLOCK_HEIGHT_KEY@);
    lemma_height_value((st.value)(next, e[0].0).unwrap(), height);
    if height > 0 {
        let before = (height - 1) as u32;
        assert(e[3].0 == height_key(before));
        assert(e[4].0 == hash_key(block));
        lemma_height_value((st.value)(next, e[4].0).unwrap(), before);
        let v = (st.value)(next, e[3].0).unwrap();
        assert(v@.subrange(0, 32) =~= block.id_bytes()@);
    }
}

} // verus!
