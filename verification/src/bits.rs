//! Encodings of pointer lists and node paths.
//!
//! A pointer list is stored in one of three forms: full slots; compressed slots, one after the
//! other; or a marker byte, a bitmap of the occupied slots, and those slots compressed.

use crate::bytes::push_all;
use crate::error::{corruption, corruption_of, Error, Piece};
use crate::node_id::{clear_ctrl_bits, is_compressed, law_ctrl_bits, set_compressed, TrieNodeID};
use crate::path::NodePath;
use crate::ptr::{
    empty_ptr, law_parsed_ptr_storable, law_ptr_compressed_round_trip, law_ptr_round_trip,
    parse_ptr, parse_ptr_compressed, ptr_bytes, ptr_bytes_compressed, ptr_storable, TriePtr,
    TRIEPTR_SIZE,
};
use vstd::prelude::*;

verus! {

/// First byte of a sparse pointer list. No pointer starts with it.
pub const SPARSE_PTR_BITMAP_MARKER: u8 = 0xff;

// ---------------------------------------------------------------------------------------
// Models
// ---------------------------------------------------------------------------------------
/// Full slots, one after the other.
pub open spec fn ptrs_full(ptrs: Seq<TriePtr>) -> Seq<u8>
    decreases ptrs.len(),
{
    if ptrs.len() == 0 {
        Seq::empty()
    } else {
        ptrs_full(ptrs.drop_last()) + ptr_bytes(ptrs.last())
    }
}

/// Compressed slots, one after the other.
pub open spec fn ptrs_dense(ptrs: Seq<TriePtr>) -> Seq<u8>
    decreases ptrs.len(),
{
    if ptrs.len() == 0 {
        Seq::empty()
    } else {
        ptrs_dense(ptrs.drop_last()) + ptr_bytes_compressed(ptrs.last())
    }
}

/// The occupied slots, compressed, one after the other.
pub open spec fn ptrs_present(ptrs: Seq<TriePtr>) -> Seq<u8>
    decreases ptrs.len(),
{
    if ptrs.len() == 0 {
        Seq::empty()
    } else if ptrs.last().is_empty() {
        ptrs_present(ptrs.drop_last())
    } else {
        ptrs_present(ptrs.drop_last()) + ptr_bytes_compressed(ptrs.last())
    }
}

/// 1 where slot `i` is occupied.
pub open spec fn slot_bit(ptrs: Seq<TriePtr>, i: int) -> int {
    if 0 <= i < ptrs.len() && !ptrs[i].is_empty() {
        1
    } else {
        0
    }
}

/// Byte `b` of the bitmap: its bit `t` tells whether slot `8 * b + t` is occupied.
pub open spec fn bitmap_byte(ptrs: Seq<TriePtr>, b: int) -> u8 {
    (slot_bit(ptrs, 8 * b) + 2 * slot_bit(ptrs, 8 * b + 1) + 4 * slot_bit(ptrs, 8 * b + 2) + 8
        * slot_bit(ptrs, 8 * b + 3) + 16 * slot_bit(ptrs, 8 * b + 4) + 32 * slot_bit(
        ptrs,
        8 * b + 5,
    ) + 64 * slot_bit(ptrs, 8 * b + 6) + 128 * slot_bit(ptrs, 8 * b + 7)) as u8
}

/// The bitmap of the occupied slots, `size` bytes long.
pub open spec fn bitmap(ptrs: Seq<TriePtr>, size: nat) -> Seq<u8> {
    Seq::new(size, |b: int| bitmap_byte(ptrs, b))
}

/// Two to the power `t`, for a bit of a byte.
pub open spec fn bit_weight(t: int) -> int {
    if t == 0 {
        1
    } else if t == 1 {
        2
    } else if t == 2 {
        4
    } else if t == 3 {
        8
    } else if t == 4 {
        16
    } else if t == 5 {
        32
    } else if t == 6 {
        64
    } else {
        128
    }
}

/// Is bit `i` of the bitmap set?
pub open spec fn bit_set(bm: Seq<u8>, i: int) -> bool {
    (bm[i / 8] as int / bit_weight(i % 8)) % 2 == 1
}

/// Bytes in the bitmap of a node of this kind.
pub open spec fn bitmap_size(id: u8) -> Option<usize> {
    let kind = clear_ctrl_bits(id);
    if kind == 2 {
        Some(1)
    } else if kind == 3 {
        Some(2)
    } else if kind == 4 {
        Some(6)
    } else if kind == 5 {
        Some(32)
    } else {
        None
    }
}

/// Is the sparse form the shorter one?
pub open spec fn is_sparse(ptrs: Seq<TriePtr>, size: nat) -> bool {
    1 + size + ptrs_present(ptrs).len() < ptrs_dense(ptrs).len()
}

/// The compressed form of a pointer list: the sparse form where it is shorter, else the dense
/// one. A kind without slots has an empty list.
pub open spec fn ptrs_compressed(id: u8, ptrs: Seq<TriePtr>) -> Seq<u8> {
    match bitmap_size(id) {
        None => Seq::empty(),
        Some(size) => if is_sparse(ptrs, size as nat) {
            seq![SPARSE_PTR_BITMAP_MARKER] + bitmap(ptrs, size as nat) + ptrs_present(ptrs)
        } else {
            ptrs_dense(ptrs)
        },
    }
}

/// Does every occupied slot have a bit in a bitmap of `size` bytes?
pub open spec fn bitmap_fits(ptrs: Seq<TriePtr>, size: nat) -> bool {
    forall|i: int| 0 <= i < ptrs.len() && !(#[trigger] ptrs[i]).is_empty() ==> i < 8 * size
}

/// `n` compressed slots at the head of `s`, and the bytes they take.
pub open spec fn parse_dense(s: Seq<u8>, n: nat) -> Option<(Seq<TriePtr>, nat)>
    decreases n,
{
    if n == 0 {
        Some((Seq::empty(), 0))
    } else {
        match parse_dense(s, (n - 1) as nat) {
            None => None,
            Some((ptrs, used)) => match parse_ptr_compressed(s.skip(used as int)) {
                None => None,
                Some((p, len)) => Some((ptrs.push(p), used + len as nat)),
            },
        }
    }
}

/// The first `n` slots of a sparse list: where the bitmap has a bit, the next compressed slot
/// of `s`; else an unoccupied slot.
pub open spec fn parse_sparse(bm: Seq<u8>, s: Seq<u8>, n: nat) -> Option<(Seq<TriePtr>, nat)>
    decreases n,
{
    if n == 0 {
        Some((Seq::empty(), 0))
    } else {
        match parse_sparse(bm, s, (n - 1) as nat) {
            None => None,
            Some((ptrs, used)) => if !bit_set(bm, n - 1) {
                Some((ptrs.push(empty_ptr()), used))
            } else {
                match parse_ptr_compressed(s.skip(used as int)) {
                    None => None,
                    Some((p, len)) => Some((ptrs.push(p), used + len as nat)),
                }
            },
        }
    }
}

/// `n` full slots at the head of `s`.
pub open spec fn parse_full(s: Seq<u8>, n: nat) -> Option<(Seq<TriePtr>, nat)> {
    if s.len() < 10 * n {
        None
    } else {
        Some((Seq::new(n, |i: int| parse_ptr(s.skip(10 * i))), 10 * n))
    }
}

/// The `n` slots of a node of kind `node_id` at the head of `s`, whose first byte repeats the
/// kind; and the bytes they take, that first byte included.
pub open spec fn parse_ptrs(node_id: u8, s: Seq<u8>, n: nat) -> Option<(Seq<TriePtr>, nat)> {
    if s.len() == 0 || clear_ctrl_bits(s[0]) != clear_ctrl_bits(node_id) {
        None
    } else {
        let body = s.skip(1);
        if !is_compressed(s[0]) {
            match parse_full(body, n) {
                None => None,
                Some((ptrs, used)) => Some((ptrs, 1 + used)),
            }
        } else if body.len() == 0 {
            None
        } else if body[0] == SPARSE_PTR_BITMAP_MARKER {
            match bitmap_size(s[0]) {
                None => None,
                Some(size) => if body.len() < 1 + size || n > 8 * size {
                    None
                } else {
                    match parse_sparse(body.subrange(1, 1 + size), body.skip(1 + size), n) {
                        None => None,
                        Some((ptrs, used)) => Some((ptrs, 2 + size as nat + used)),
                    }
                },
            }
        } else {
            match parse_dense(body, n) {
                None => None,
                Some((ptrs, used)) => Some((ptrs, 1 + used)),
            }
        }
    }
}

/// A path with its length in front.
pub open spec fn path_bytes(path: Seq<u8>) -> Seq<u8> {
    seq![path.len() as u8] + path
}

/// The path at the head of `s`, and the bytes it takes with its length byte.
pub open spec fn parse_path(s: Seq<u8>) -> Option<(Seq<u8>, nat)> {
    if s.len() == 0 || s[0] > 32 || s.len() < 1 + s[0] {
        None
    } else {
        Some((s.subrange(1, 1 + s[0]), 1 + s[0] as nat))
    }
}

// ---------------------------------------------------------------------------------------
// Facts about the models
// ---------------------------------------------------------------------------------------
/// A bit of the bitmap tells whether its slot is occupied.
pub proof fn lemma_bitmap_bit(ptrs: Seq<TriePtr>, size: nat, i: int)
    requires
        0 <= i < 8 * size,
    ensures
        bit_set(bitmap(ptrs, size), i) == (slot_bit(ptrs, i) == 1),
{
    let b = i / 8;
    let t = i % 8;
    let b0 = slot_bit(ptrs, 8 * b);
    let b1 = slot_bit(ptrs, 8 * b + 1);
    let b2 = slot_bit(ptrs, 8 * b + 2);
    let b3 = slot_bit(ptrs, 8 * b + 3);
    let b4 = slot_bit(ptrs, 8 * b + 4);
    let b5 = slot_bit(ptrs, 8 * b + 5);
    let b6 = slot_bit(ptrs, 8 * b + 6);
    let b7 = slot_bit(ptrs, 8 * b + 7);
    let x = b0 + 2 * b1 + 4 * b2 + 8 * b3 + 16 * b4 + 32 * b5 + 64 * b6 + 128 * b7;
    assert(0 <= x < 256);
    assert(bitmap(ptrs, size)[b] == x);
    assert(x / 2 == b1 + 2 * b2 + 4 * b3 + 8 * b4 + 16 * b5 + 32 * b6 + 64 * b7);
    assert(x / 4 == b2 + 2 * b3 + 4 * b4 + 8 * b5 + 16 * b6 + 32 * b7);
    assert(x / 8 == b3 + 2 * b4 + 4 * b5 + 8 * b6 + 16 * b7);
    assert(x / 16 == b4 + 2 * b5 + 4 * b6 + 8 * b7);
    assert(x / 32 == b5 + 2 * b6 + 4 * b7);
    assert(x / 64 == b6 + 2 * b7);
    assert(x / 128 == b7);
    assert(i == 8 * b + t);
}

/// What the list forms take: ten bytes a full slot, at most ten a compressed one.
pub proof fn lemma_list_lengths(ptrs: Seq<TriePtr>)
    ensures
        ptrs_full(ptrs).len() == 10 * ptrs.len(),
        6 * ptrs.len() <= ptrs_dense(ptrs).len() <= 10 * ptrs.len(),
        ptrs_present(ptrs).len() <= ptrs_dense(ptrs).len(),
    decreases ptrs.len(),
{
    if ptrs.len() > 0 {
        lemma_list_lengths(ptrs.drop_last());
        law_ptr_round_trip(ptrs.last(), Seq::empty());
        law_ptr_compressed_round_trip(ptrs.last(), Seq::empty());
    }
}

/// Compression never makes a pointer list longer.
pub proof fn law_compressed_list_not_longer(id: u8, ptrs: Seq<TriePtr>)
    ensures
        ptrs_compressed(id, ptrs).len() <= ptrs_full(ptrs).len(),
        ptrs_compressed(id, ptrs).len() <= ptrs_dense(ptrs).len(),
{
    lemma_list_lengths(ptrs);
}

proof fn lemma_full_round_trip(ptrs: Seq<TriePtr>, rest: Seq<u8>)
    ensures
        parse_full(ptrs_full(ptrs) + rest, ptrs.len()) == Some((ptrs, ptrs_full(ptrs).len())),
    decreases ptrs.len(),
{
    lemma_list_lengths(ptrs);
    let s = ptrs_full(ptrs) + rest;
    assert forall|i: int| 0 <= i < ptrs.len() implies #[trigger] parse_ptr(s.skip(10 * i))
        == ptrs[i] by {
        lemma_full_slot(ptrs, rest, i);
    }
    assert(Seq::new(ptrs.len(), |i: int| parse_ptr(s.skip(10 * i))) =~= ptrs);
}

proof fn lemma_full_slot(ptrs: Seq<TriePtr>, rest: Seq<u8>, i: int)
    requires
        0 <= i < ptrs.len(),
    ensures
        parse_ptr((ptrs_full(ptrs) + rest).skip(10 * i)) == ptrs[i],
    decreases ptrs.len(),
{
    let front = ptrs.drop_last();
    lemma_list_lengths(ptrs);
    lemma_list_lengths(front);
    let s = ptrs_full(ptrs) + rest;
    if i == ptrs.len() - 1 {
        law_ptr_round_trip(ptrs.last(), rest);
        assert(s.skip(10 * i) =~= ptr_bytes(ptrs.last()) + rest);
    } else {
        lemma_full_slot(front, ptr_bytes(ptrs.last()) + rest, i);
        assert(s =~= ptrs_full(front) + (ptr_bytes(ptrs.last()) + rest));
    }
}

/// Compressed slots read back as themselves, whatever follows them.
#[verifier::spinoff_prover]
#[verifier::rlimit(60)]
pub proof fn lemma_dense_round_trip(ptrs: Seq<TriePtr>, rest: Seq<u8>)
    requires
        forall|i: int| 0 <= i < ptrs.len() ==> ptr_storable(#[trigger] ptrs[i]),
    ensures
        parse_dense(ptrs_dense(ptrs) + rest, ptrs.len()) == Some((ptrs, ptrs_dense(ptrs).len())),
    decreases ptrs.len(),
{
    if ptrs.len() == 0 {
        assert(ptrs =~= Seq::empty());
    } else {
        let front = ptrs.drop_last();
        let tail = ptr_bytes_compressed(ptrs.last()) + rest;
        lemma_dense_round_trip(front, tail);
        law_ptr_compressed_round_trip(ptrs.last(), rest);
        let s = ptrs_dense(ptrs) + rest;
        assert(s =~= ptrs_dense(front) + tail);
        assert(s.skip(ptrs_dense(front).len() as int) =~= tail);
        assert(front.push(ptrs.last()) =~= ptrs);
    }
}

#[verifier::spinoff_prover]
#[verifier::rlimit(60)]
proof fn lemma_sparse_round_trip(bm: Seq<u8>, ptrs: Seq<TriePtr>, rest: Seq<u8>)
    requires
        forall|i: int|
            0 <= i < ptrs.len() ==> ptr_storable(#[trigger] ptrs[i]) && (ptrs[i].is_empty()
                ==> ptrs[i] == empty_ptr()),
        forall|i: int|
            0 <= i < ptrs.len() ==> #[trigger] bit_set(bm, i) == !ptrs[i].is_empty(),
    ensures
        parse_sparse(bm, ptrs_present(ptrs) + rest, ptrs.len()) == Some(
            (ptrs, ptrs_present(ptrs).len()),
        ),
    decreases ptrs.len(),
{
    if ptrs.len() == 0 {
        assert(ptrs =~= Seq::empty());
    } else {
        let front = ptrs.drop_last();
        let last = ptrs.last();
        assert forall|i: int| 0 <= i < front.len() implies #[trigger] bit_set(bm, i)
            == !front[i].is_empty() by {
            assert(front[i] == ptrs[i]);
        }
        assert(bit_set(bm, ptrs.len() - 1) == !last.is_empty());
        let s = ptrs_present(ptrs) + rest;
        assert(front.push(last) =~= ptrs);
        if last.is_empty() {
            lemma_sparse_round_trip(bm, front, rest);
        } else {
            let tail = ptr_bytes_compressed(last) + rest;
            lemma_sparse_round_trip(bm, front, tail);
            law_ptr_compressed_round_trip(last, rest);
            assert(s =~= ptrs_present(front) + tail);
            assert(s.skip(ptrs_present(front).len() as int) =~= tail);
        }
    }
}

/// A pointer list that survives compression: every slot is storable, and an unoccupied slot
/// holds nothing.
pub open spec fn list_storable(ptrs: Seq<TriePtr>) -> bool {
    forall|i: int|
        0 <= i < ptrs.len() ==> ptr_storable(#[trigger] ptrs[i]) && (ptrs[i].is_empty() ==> ptrs[i]
            == empty_ptr())
}

/// Slots of a node of this kind.
pub open spec fn slot_count(id: u8) -> nat {
    let kind = clear_ctrl_bits(id);
    if kind == 2 {
        4
    } else if kind == 3 {
        16
    } else if kind == 4 {
        48
    } else if kind == 5 {
        256
    } else {
        0
    }
}

/// A pointer list written in full reads back as itself.
pub proof fn law_full_list_round_trip(id: u8, ptrs: Seq<TriePtr>, rest: Seq<u8>)
    requires
        !is_compressed(id),
    ensures
        parse_ptrs(id, seq![id] + ptrs_full(ptrs) + rest, ptrs.len()) == Some(
            (ptrs, 1 + ptrs_full(ptrs).len()),
        ),
{
    let s = seq![id] + ptrs_full(ptrs) + rest;
    assert(s.skip(1) =~= ptrs_full(ptrs) + rest);
    lemma_full_round_trip(ptrs, rest);
}

/// A storable pointer list written in compressed form, sparse or dense, reads back as itself.
pub proof fn law_compressed_list_round_trip(id: u8, ptrs: Seq<TriePtr>, rest: Seq<u8>)
    requires
        id < 0x40,
        bitmap_size(id) is Some,
        ptrs.len() == slot_count(id),
        list_storable(ptrs),
        ptrs[0].id != 0xbf,
    ensures
        parse_ptrs(id, seq![set_compressed(id)] + ptrs_compressed(id, ptrs) + rest, ptrs.len())
            == Some((ptrs, 1 + ptrs_compressed(id, ptrs).len())),
{
    law_ctrl_bits(id);
    let size = bitmap_size(id).unwrap();
    let head = set_compressed(id);
    let s = seq![head] + ptrs_compressed(id, ptrs) + rest;
    let body = s.skip(1);
    assert(body =~= ptrs_compressed(id, ptrs) + rest);
    assert(clear_ctrl_bits(head) == clear_ctrl_bits(id));
    assert(bitmap_size(head) == Some(size));
    if is_sparse(ptrs, size as nat) {
        let bm = bitmap(ptrs, size as nat);
        assert(body.subrange(1, 1 + size) =~= bm);
        assert(body.skip(1 + size) =~= ptrs_present(ptrs) + rest);
        assert forall|i: int| 0 <= i < ptrs.len() implies #[trigger] bit_set(bm, i)
            == !ptrs[i].is_empty() by {
            lemma_bitmap_bit(ptrs, size as nat, i);
        }
        lemma_sparse_round_trip(bm, ptrs, rest);
    } else {
        lemma_dense_round_trip(ptrs, rest);
        lemma_list_lengths(ptrs);
        lemma_dense_first_byte(ptrs);
        assert(body[0] == set_compressed(ptrs[0].id));
        law_ctrl_bits(ptrs[0].id);
        lemma_not_marker(ptrs[0].id);
    }
}

proof fn lemma_not_marker(id: u8)
    requires
        !is_compressed(id),
        id != 0xbf,
    ensures
        set_compressed(id) != SPARSE_PTR_BITMAP_MARKER,
{
    assert(id & 0x40 == 0 && id != 0xbf ==> id | 0x40 != 0xffu8) by (bit_vector);
}

proof fn lemma_dense_first_byte(ptrs: Seq<TriePtr>)
    requires
        ptrs.len() > 0,
    ensures
        ptrs_dense(ptrs).len() > 0,
        ptrs_dense(ptrs)[0] == set_compressed(ptrs[0].id),
    decreases ptrs.len(),
{
    lemma_list_lengths(ptrs);
    if ptrs.len() == 1 {
        assert(ptrs.drop_last().len() == 0);
        assert(ptrs_dense(ptrs.drop_last()) == Seq::<u8>::empty());
        assert(ptrs.last() == ptrs[0]);
        assert(ptrs_dense(ptrs) == ptrs_dense(ptrs.drop_last()) + ptr_bytes_compressed(ptrs.last()));
        assert(ptrs_dense(ptrs) =~= ptr_bytes_compressed(ptrs[0]));
    } else {
        lemma_dense_first_byte(ptrs.drop_last());
    }
}

/// A path reads back as itself.
pub proof fn law_path_round_trip(path: Seq<u8>, rest: Seq<u8>)
    requires
        path.len() <= 32,
    ensures
        parse_path(path_bytes(path) + rest) == Some((path, path_bytes(path).len())),
{
    let s = path_bytes(path) + rest;
    assert(s.subrange(1, 1 + s[0]) =~= path);
}

/// Every pointer of a compressed list that parses is storable, and the list lies within `s`.
pub proof fn lemma_parse_dense_bounds(s: Seq<u8>, n: nat)
    ensures
        parse_dense(s, n) matches Some((ptrs, used)) ==> ptrs.len() == n && used <= s.len() && used
            <= 10 * n,
    decreases n,
{
    if n > 0 {
        lemma_parse_dense_bounds(s, (n - 1) as nat);
        if let Some((ptrs, used)) = parse_dense(s, (n - 1) as nat) {
            law_parsed_ptr_storable(s.skip(used as int));
        }
    }
}

/// As [`lemma_parse_dense_bounds`], for the sparse form.
pub proof fn lemma_parse_sparse_bounds(bm: Seq<u8>, s: Seq<u8>, n: nat)
    ensures
        parse_sparse(bm, s, n) matches Some((ptrs, used)) ==> ptrs.len() == n && used <= s.len()
            && used <= 10 * n,
    decreases n,
{
    if n > 0 {
        lemma_parse_sparse_bounds(bm, s, (n - 1) as nat);
        if let Some((ptrs, used)) = parse_sparse(bm, s, (n - 1) as nat) {
            law_parsed_ptr_storable(s.skip(used as int));
        }
    }
}

/// Where the first `k` slots do not parse, no more of them do.
pub proof fn lemma_dense_prefix_none(s: Seq<u8>, k: nat, n: nat)
    requires
        k <= n,
        parse_dense(s, k) is None,
    ensures
        parse_dense(s, n) is None,
    decreases n,
{
    if k < n {
        lemma_dense_prefix_none(s, k, (n - 1) as nat);
    }
}

proof fn lemma_sparse_prefix_none(bm: Seq<u8>, s: Seq<u8>, k: nat, n: nat)
    requires
        k <= n,
        parse_sparse(bm, s, k) is None,
    ensures
        parse_sparse(bm, s, n) is None,
    decreases n,
{
    if k < n {
        lemma_sparse_prefix_none(bm, s, k, (n - 1) as nat);
    }
}

// ---------------------------------------------------------------------------------------
// Code
// ---------------------------------------------------------------------------------------
/// Bytes in the bitmap of a node of this kind, where it has slots.
pub fn get_sparse_ptrs_bitmap_size(id: u8) -> (r: Option<usize>)
    ensures
        r == bitmap_size(id),
{
    match clear_ctrl_bits(id) {
        2 => Some(1),
        3 => Some(2),
        4 => Some(6),
        5 => Some(32),
        _ => None,
    }
}

/// What the compressed form of the list takes, and whether it is the sparse one. `None` for a
/// kind without slots.
pub fn get_compressed_ptrs_size(id: u8, ptrs: &[TriePtr]) -> (r: Option<(usize, bool)>)
    requires
        10 * ptrs@.len() + 33 <= usize::MAX,
    ensures
        r is Some <==> bitmap_size(id) is Some,
        r matches Some((size, sparse)) ==> size == ptrs_compressed(id, ptrs@).len() && sparse
            == is_sparse(ptrs@, bitmap_size(id).unwrap() as nat),
{
    let bitmap_len = get_sparse_ptrs_bitmap_size(id)?;
    let mut present: usize = 0;
    let mut dense: usize = 0;
    let mut i: usize = 0;
    while i < ptrs.len()
        invariant
            i <= ptrs@.len(),
            10 * ptrs@.len() + 33 <= usize::MAX,
            present == ptrs_present(ptrs@.take(i as int)).len(),
            dense == ptrs_dense(ptrs@.take(i as int)).len(),
            present <= dense <= 10 * i,
        decreases ptrs@.len() - i,
    {
        let ghost nxt = ptrs@.take(i + 1);
        assert(nxt.drop_last() =~= ptrs@.take(i as int));
        assert(nxt.last() == ptrs@[i as int]);
        let n = ptrs[i].compressed_size();
        if !ptrs[i].is_empty() {
            present = present + n;
        }
        dense = dense + n;
        i += 1;
    }
    assert(ptrs@.take(i as int) =~= ptrs@);
    let sparse = 1 + bitmap_len + present;
    if sparse < dense {
        Some((sparse, true))
    } else {
        Some((dense, false))
    }
}

/// What the kind byte and the full pointer list take.
pub fn get_ptrs_byte_len(ptrs: &[TriePtr]) -> (r: usize)
    requires
        10 * ptrs@.len() + 1 <= usize::MAX,
    ensures
        r == 1 + ptrs_full(ptrs@).len(),
{
    proof {
        lemma_list_lengths(ptrs@);
    }
    1 + TRIEPTR_SIZE * ptrs.len()
}

/// What the kind byte and the compressed pointer list take.
pub fn get_ptrs_byte_len_compressed(id: u8, ptrs: &[TriePtr]) -> (r: usize)
    requires
        10 * ptrs@.len() + 34 <= usize::MAX,
    ensures
        r == 1 + ptrs_compressed(id, ptrs@).len(),
{
    proof {
        lemma_list_lengths(ptrs@);
    }
    match get_compressed_ptrs_size(id, ptrs) {
        Some((size, _)) => 1 + size,
        None => 1,
    }
}

/// What a path takes with its length byte.
pub fn get_path_byte_len(path: &NodePath) -> (r: usize)
    ensures
        r == path_bytes(path@).len(),
        r <= 33,
{
    1 + path.len()
}

/// Append a path with its length in front.
pub fn write_path_to_bytes(path: &[u8], w: &mut Vec<u8>)
    requires
        path@.len() <= 32,
    ensures
        final(w)@ == old(w)@ + path_bytes(path@),
{
    w.push(path.len() as u8);
    push_all(w, path);
    assert(w@ =~= old(w)@ + path_bytes(path@));
}

/// Append the pointers, uncompressed.
pub fn write_ptrs_to_bytes(ptrs: &[TriePtr], w: &mut Vec<u8>)
    ensures
        final(w)@ == old(w)@ + ptrs_full(ptrs@),
{
    let ghost start = w@;
    let mut i: usize = 0;
    assert(w@ =~= start + ptrs_full(ptrs@.take(0)));
    while i < ptrs.len()
        invariant
            i <= ptrs@.len(),
            w@ == start + ptrs_full(ptrs@.take(i as int)),
        decreases ptrs@.len() - i,
    {
        let ghost nxt = ptrs@.take(i + 1);
        assert(nxt.drop_last() =~= ptrs@.take(i as int));
        ptrs[i].write_bytes(w);
        assert(w@ =~= start + ptrs_full(nxt));
        i += 1;
    }
    assert(ptrs@.take(i as int) =~= ptrs@);
}

fn write_ptrs_dense(ptrs: &[TriePtr], w: &mut Vec<u8>)
    ensures
        final(w)@ == old(w)@ + ptrs_dense(ptrs@),
{
    let ghost start = w@;
    let mut i: usize = 0;
    assert(w@ =~= start + ptrs_dense(ptrs@.take(0)));
    while i < ptrs.len()
        invariant
            i <= ptrs@.len(),
            w@ == start + ptrs_dense(ptrs@.take(i as int)),
        decreases ptrs@.len() - i,
    {
        let ghost nxt = ptrs@.take(i + 1);
        assert(nxt.drop_last() =~= ptrs@.take(i as int));
        ptrs[i].write_bytes_compressed(w);
        assert(w@ =~= start + ptrs_dense(nxt));
        i += 1;
    }
    assert(ptrs@.take(i as int) =~= ptrs@);
}

fn write_ptrs_present(ptrs: &[TriePtr], w: &mut Vec<u8>)
    ensures
        final(w)@ == old(w)@ + ptrs_present(ptrs@),
{
    let ghost start = w@;
    let mut i: usize = 0;
    assert(w@ =~= start + ptrs_present(ptrs@.take(0)));
    while i < ptrs.len()
        invariant
            i <= ptrs@.len(),
            w@ == start + ptrs_present(ptrs@.take(i as int)),
        decreases ptrs@.len() - i,
    {
        let ghost nxt = ptrs@.take(i + 1);
        assert(nxt.drop_last() =~= ptrs@.take(i as int));
        if !ptrs[i].is_empty() {
            ptrs[i].write_bytes_compressed(w);
        }
        assert(w@ =~= start + ptrs_present(nxt));
        i += 1;
    }
    assert(ptrs@.take(i as int) =~= ptrs@);
}

fn exec_slot_bit(ptrs: &[TriePtr], i: usize) -> (r: u8)
    ensures
        r == slot_bit(ptrs@, i as int),
        r <= 1,
{
    if i < ptrs.len() && !ptrs[i].is_empty() {
        1
    } else {
        0
    }
}

fn write_bitmap(ptrs: &[TriePtr], size: usize, w: &mut Vec<u8>)
    requires
        size <= 32,
    ensures
        final(w)@ == old(w)@ + bitmap(ptrs@, size as nat),
{
    let ghost start = w@;
    let mut b: usize = 0;
    assert(w@ =~= start + bitmap(ptrs@, 0));
    while b < size
        invariant
            b <= size <= 32,
            w@ == start + bitmap(ptrs@, b as nat),
        decreases size - b,
    {
        let base = 8 * b;
        let byte: u8 = exec_slot_bit(ptrs, base) + 2 * exec_slot_bit(ptrs, base + 1) + 4
            * exec_slot_bit(ptrs, base + 2) + 8 * exec_slot_bit(ptrs, base + 3) + 16
            * exec_slot_bit(ptrs, base + 4) + 32 * exec_slot_bit(ptrs, base + 5) + 64
            * exec_slot_bit(ptrs, base + 6) + 128 * exec_slot_bit(ptrs, base + 7);
        w.push(byte);
        assert(w@ =~= start + bitmap(ptrs@, (b + 1) as nat));
        b += 1;
    }
}

/// Is slot `from` or a later one occupied?
fn any_slot_from(ptrs: &[TriePtr], from: usize) -> (r: bool)
    ensures
        r <==> exists|i: int| from <= i < ptrs@.len() && !(#[trigger] ptrs@[i]).is_empty(),
{
    let mut i: usize = from;
    while i < ptrs.len()
        invariant
            from <= i,
            forall|j: int| from <= j < i && j < ptrs@.len() ==> (#[trigger] ptrs@[j]).is_empty(),
        decreases ptrs@.len() - i,
    {
        if !ptrs[i].is_empty() {
            return true;
        }
        i += 1;
    }
    false
}

/// Can a pointer list of a node of this kind be written on its own?
pub open spec fn list_kind(id: u8) -> bool {
    TrieNodeID::spec_from_u8(id) is Some && TrieNodeID::spec_from_u8(id) != Some(TrieNodeID::Patch)
}

/// Append the list of pointers for a node of kind `id`, compressed as best as possible.
///
/// Fails for an id that is no node ID, for a patch node, and where an occupied slot has no bit
/// in the bitmap of its kind (then the sparse marker has been written already).
#[verifier::rlimit(40)]
pub fn write_ptrs_to_bytes_compressed(id: u8, ptrs: &[TriePtr], w: &mut Vec<u8>) -> (r: Result<
    (),
    Error,
>)
    requires
        10 * ptrs@.len() + 33 <= usize::MAX,
    ensures
        r is Ok <==> {
            &&& list_kind(id)
            &&& bitmap_size(id) matches Some(size) ==> (is_sparse(ptrs@, size as nat)
                ==> bitmap_fits(ptrs@, size as nat))
        },
        r is Ok ==> final(w)@ == old(w)@ + ptrs_compressed(id, ptrs@),
        r matches Err(e) ==> e is CorruptionError,
        r is Err && list_kind(id) ==> final(w)@ == old(w)@.push(SPARSE_PTR_BITMAP_MARKER),
        r is Err && !list_kind(id) ==> final(w)@ == old(w)@,
{
    let node_id = match TrieNodeID::from_u8(id) {
        Some(node_id) => node_id,
        None => {
            return Err(corruption("Tried to store invalid trie node ID"));
        },
    };
    if node_id == TrieNodeID::Patch {
        // the only proper way to store a patch node is to dump it with its whole trie
        return Err(corruption("Tried to store patch node's ptrs improperly"));
    }
    let (_ptrs_size, sparse) = match get_compressed_ptrs_size(id, ptrs) {
        Some(x) => x,
        None => {
            // doesn't apply -- this node has no ptrs
            assert(w@ =~= old(w)@ + ptrs_compressed(id, ptrs@));
            return Ok(());
        },
    };
    if sparse {
        // just the bitmap and the occupied slots. The first byte marks the list as sparse,
        // since it cannot be a valid trie node ID
        w.push(SPARSE_PTR_BITMAP_MARKER);
        let size = match get_sparse_ptrs_bitmap_size(id) {
            Some(size) => size,
            None => {
                return Err(
                    corruption_of(
                        [
                            Piece::Text("No bitmap size defined for node id "),
                            Piece::Number(id as u64),
                        ].as_slice(),
                    ),
                );
            },
        };
        if any_slot_from(ptrs, 8 * size) {
            return Err(corruption("bitmap not long enough"));
        }
        write_bitmap(ptrs, size, w);
        write_ptrs_present(ptrs, w);
        assert(w@ =~= old(w)@ + ptrs_compressed(id, ptrs@));
        return Ok(());
    }
    // ptrs are not sparse enough
    write_ptrs_dense(ptrs, w);
    Ok(())
}

/// Load the path at the head of `bytes`. Returns the bytes it takes.
pub fn path_from_bytes_slice_into(bytes: &[u8], path: &mut NodePath) -> (r: Result<usize, Error>)
    ensures
        r matches Ok(n) ==> parse_path(bytes@) == Some((final(path)@, n as nat)),
        r matches Err(e) ==> e is CorruptionError && parse_path(bytes@) is None && *final(path)
            == *old(path),
{
    if bytes.len() == 0 {
        return Err(corruption("Failed to read path length"));
    }
    let len = bytes[0];
    if len > 32 {
        return Err(corruption("Node path is longer than a trie hash"));
    }
    let rest = vstd::slice::slice_subrange(bytes, 1, bytes.len());
    if rest.len() < len as usize {
        return Err(corruption("Failed to read path bytes"));
    }
    let _ = path.read_from(len, rest);
    assert(rest@.take(len as int) =~= bytes@.subrange(1, 1 + len));
    Ok(1 + len as usize)
}

fn full_into(bytes: &[u8], ptrs: &mut [TriePtr]) -> (r: Option<usize>)
    requires
        10 * old(ptrs)@.len() <= usize::MAX,
    ensures
        final(ptrs)@.len() == old(ptrs)@.len(),
        r matches Some(n) ==> parse_full(bytes@, old(ptrs)@.len()) == Some((final(ptrs)@, n as nat)),
        r is None ==> parse_full(bytes@, old(ptrs)@.len()) is None,
{
    let n = ptrs.len();
    if bytes.len() < TRIEPTR_SIZE * n {
        return None;
    }
    let mut i: usize = 0;
    while i < n
        invariant
            i <= n,
            n == ptrs@.len(),
            10 * n <= bytes@.len(),
            bytes@.len() <= usize::MAX,
            forall|j: int| 0 <= j < i ==> #[trigger] ptrs@[j] == parse_ptr(bytes@.skip(10 * j)),
        decreases n - i,
    {
        let slot = vstd::slice::slice_subrange(bytes, TRIEPTR_SIZE * i, bytes.len());
        assert(slot@ =~= bytes@.skip(10 * i));
        ptrs[i] = TriePtr::from_bytes(slot);
        i += 1;
    }
    assert(ptrs@ =~= parse_full(bytes@, n as nat).unwrap().0);
    Some(TRIEPTR_SIZE * n)
}

fn dense_into(bytes: &[u8], ptrs: &mut [TriePtr]) -> (r: Option<usize>)
    ensures
        final(ptrs)@.len() == old(ptrs)@.len(),
        r matches Some(n) ==> parse_dense(bytes@, old(ptrs)@.len()) == Some((final(ptrs)@, n as nat))
            && n <= bytes@.len(),
        r is None ==> parse_dense(bytes@, old(ptrs)@.len()) is None,
{
    let n = ptrs.len();
    let mut at: usize = 0;
    let mut i: usize = 0;
    assert(ptrs@.take(0) =~= Seq::empty());
    while i < n
        invariant
            i <= n,
            n == ptrs@.len(),
            n == old(ptrs)@.len(),
            at <= bytes@.len(),
            parse_dense(bytes@, i as nat) == Some((ptrs@.take(i as int), at as nat)),
        decreases n - i,
    {
        let ghost before = ptrs@;
        match TriePtr::read_bytes_compressed(bytes, &mut at) {
            Ok(p) => {
                ptrs[i] = p;
                assert(ptrs@.take(i + 1) =~= before.take(i as int).push(p));
            },
            Err(_) => {
                proof {
                    lemma_dense_prefix_none(bytes@, (i + 1) as nat, n as nat);
                }
                return None;
            },
        }
        i += 1;
    }
    assert(ptrs@.take(i as int) =~= ptrs@);
    Some(at)
}

/// Is bit `i` of the bitmap set?
pub fn bitmap_bit(bm: &[u8], i: usize) -> (r: bool)
    requires
        i < 8 * bm@.len(),
    ensures
        r == bit_set(bm@, i as int),
{
    let weight: u8 = match i % 8 {
        0 => 1,
        1 => 2,
        2 => 4,
        3 => 8,
        4 => 16,
        5 => 32,
        6 => 64,
        _ => 128,
    };
    assert(weight == bit_weight((i % 8) as int));
    let byte = bm[i / 8];
    (byte / weight) % 2 == 1
}

fn sparse_into(bm: &[u8], bytes: &[u8], ptrs: &mut [TriePtr]) -> (r: Option<usize>)
    requires
        old(ptrs)@.len() <= 8 * bm@.len(),
    ensures
        final(ptrs)@.len() == old(ptrs)@.len(),
        r matches Some(n) ==> parse_sparse(bm@, bytes@, old(ptrs)@.len()) == Some(
            (final(ptrs)@, n as nat),
        ) && n <= bytes@.len(),
        r is None ==> parse_sparse(bm@, bytes@, old(ptrs)@.len()) is None,
{
    let n = ptrs.len();
    let mut at: usize = 0;
    let mut i: usize = 0;
    assert(ptrs@.take(0) =~= Seq::empty());
    while i < n
        invariant
            i <= n,
            n == ptrs@.len(),
            n == old(ptrs)@.len(),
            n <= 8 * bm@.len(),
            at <= bytes@.len(),
            parse_sparse(bm@, bytes@, i as nat) == Some((ptrs@.take(i as int), at as nat)),
        decreases n - i,
    {
        let ghost before = ptrs@;
        if bitmap_bit(bm, i) {
            match TriePtr::read_bytes_compressed(bytes, &mut at) {
                Ok(p) => {
                    ptrs[i] = p;
                    assert(ptrs@.take(i + 1) =~= before.take(i as int).push(p));
                },
                Err(_) => {
                    proof {
                        lemma_sparse_prefix_none(bm@, bytes@, (i + 1) as nat, n as nat);
                    }
                    return None;
                },
            }
        } else {
            ptrs[i] = TriePtr::default();
            assert(ptrs@.take(i + 1) =~= before.take(i as int).push(empty_ptr()));
        }
        i += 1;
    }
    assert(ptrs@.take(i as int) =~= ptrs@);
    Some(at)
}

/// Load the pointers of a node of kind `node_id` from the head of `bytes`, whose first byte
/// repeats the kind. Returns that byte and how many bytes were used, it included.
#[verifier::rlimit(40)]
pub fn ptrs_from_slice_into(node_id: u8, bytes: &[u8], ptrs: &mut [TriePtr]) -> (r: Result<
    (u8, usize),
    Error,
>)
    requires
        10 * old(ptrs)@.len() + 34 <= usize::MAX,
    ensures
        final(ptrs)@.len() == old(ptrs)@.len(),
        r matches Ok((id, used)) ==> id == bytes@[0] && parse_ptrs(
            node_id,
            bytes@,
            old(ptrs)@.len(),
        ) == Some((final(ptrs)@, used as nat)) && used <= bytes@.len(),
        r matches Err(e) ==> e is CorruptionError && parse_ptrs(
            node_id,
            bytes@,
            old(ptrs)@.len(),
        ) is None,
{
    if bytes.len() == 0 {
        return Err(corruption("Failed to read node ID"));
    }
    let id = bytes[0];
    if clear_ctrl_bits(id) != clear_ctrl_bits(node_id) {
        return Err(corruption("Node ID does not match the expected kind"));
    }
    let body = vstd::slice::slice_subrange(bytes, 1, bytes.len());
    assert(body@ =~= bytes@.skip(1));
    if !is_compressed(id) {
        return match full_into(body, ptrs) {
            Some(used) => Ok((id, 1 + used)),
            None => Err(corruption("Failed to read ptrs")),
        };
    }
    if body.len() == 0 {
        return Err(corruption("Compressed ptr list is missing"));
    }
    if body[0] == SPARSE_PTR_BITMAP_MARKER {
        let size = match get_sparse_ptrs_bitmap_size(id) {
            Some(size) => size,
            None => {
                return Err(corruption("No bitmap size defined for node id"));
            },
        };
        if body.len() < 1 + size || ptrs.len() > 8 * size {
            return Err(corruption("Sparse ptr bitmap is too short"));
        }
        let bm = vstd::slice::slice_subrange(body, 1, 1 + size);
        let rest = vstd::slice::slice_subrange(body, 1 + size, body.len());
        assert(rest@ =~= body@.skip(1 + size));
        return match sparse_into(bm, rest, ptrs) {
            Some(used) => Ok((id, 2 + size + used)),
            None => Err(corruption("Failed to read sparse ptrs")),
        };
    }
    match dense_into(body, ptrs) {
        Some(used) => Ok((id, 1 + used)),
        None => Err(corruption("Failed to read dense compressed ptrs")),
    }
}

} // verus!
