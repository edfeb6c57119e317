//! Where everything stands in the stored forms, byte by byte.

use crate::bits::{
    bitmap, bitmap_size, lemma_list_lengths, parse_path, ptrs_compressed, ptrs_dense, ptrs_full,
    ptrs_present, SPARSE_PTR_BITMAP_MARKER,
};
use crate::bytes::{be32, be64, from_be32, le32, lemma_be32_round_trip};
use crate::hash::sha512_256;
use crate::history_blob::{
    chunk_bytes, chunk_header_bytes, descending, entries_bytes, footer_bytes, has_chunk,
    header_bytes, opened,
    HistoryBlobFooter, HistoryBlobHeader, HistoryChunkHeader,
};
use crate::history_names::{blob_name, is_tmp_name, parsed_name, tmp_name};
use crate::leaf_codec::leaf_message;
use crate::marf_walk::TrieLeafSquashed;
use crate::model::{
    index_byte, indexes_valid, kind_slots, law_node_round_trip, parse_node, NodeModel,
};
use crate::node::TrieNode;
use crate::node_id::{
    clear_backptr, clear_compressed, clear_ctrl_bits, is_backptr, is_compressed, law_ctrl_bits,
    law_node_id_round_trip, set_backptr, set_compressed, TrieNodeID,
};
use crate::patch::{law_patch_round_trip, patch_bytes};
use crate::ptr::{
    parse_ptr, parse_ptr_compressed, ptr_bytes, ptr_bytes_compressed, ptr_storable, TriePtr,
};
use crate::read::parse_exact;
use crate::squashed::{item_body_len, SquashedForm};
use crate::trie_file::{
    body_of, hash_of, item_of, leaf_hash_of, size_known, stored_kind, type_of, ItemModel,
};
use crate::value::{value_of, MARFValue};
use vstd::prelude::*;

verus! {

// ---------------------------------------------------------------------------------------
// Numbers and pointers
// ---------------------------------------------------------------------------------------
/// The most significant byte of a number comes first, or last in the other order.
pub proof fn law_number_layout(x: u32, y: u64)
    ensures
        be32(x).len() == 4,
        be32(x)[0] * 0x100_0000 + be32(x)[1] * 0x1_0000 + be32(x)[2] * 0x100 + be32(x)[3] == x,
        le32(x).len() == 4,
        le32(x)[3] * 0x100_0000 + le32(x)[2] * 0x1_0000 + le32(x)[1] * 0x100 + le32(x)[0] == x,
        be64(y).len() == 8,
        be64(y).take(4) == be32((y / 0x1_0000_0000) as u32),
        be64(y).skip(4) == be32((y % 0x1_0000_0000) as u32),
{
    lemma_be32_round_trip(x);
    assert(be64(y).take(4) =~= be32((y / 0x1_0000_0000) as u32));
    assert(be64(y).skip(4) =~= be32((y % 0x1_0000_0000) as u32));
}

/// A pointer is its id, its character, where it points, and the block it points back to; compressed,
/// the id has the bit that says so, and the block is there only for a back-pointer.
pub proof fn law_ptr_layout(p: TriePtr)
    ensures
        ptr_bytes(p).len() == 10,
        ptr_bytes(p)[0] == p.id && ptr_bytes(p)[1] == p.chr,
        ptr_bytes(p).subrange(2, 6) == be32(p.ptr),
        ptr_bytes(p).subrange(6, 10) == be32(p.back_block),
        ptr_bytes_compressed(p).len() == if is_backptr(p.id) {
            10nat
        } else {
            6
        },
        is_compressed(ptr_bytes_compressed(p)[0]),
        clear_compressed(ptr_bytes_compressed(p)[0]) == clear_compressed(p.id),
        ptr_bytes_compressed(p)[1] == p.chr,
        ptr_bytes_compressed(p).subrange(2, 6) == be32(p.ptr),
        is_backptr(p.id) ==> ptr_bytes_compressed(p).subrange(6, 10) == be32(p.back_block),
{
    law_ctrl_bits(p.id);
    assert(ptr_bytes(p).subrange(2, 6) =~= be32(p.ptr));
    assert(ptr_bytes(p).subrange(6, 10) =~= be32(p.back_block));
    assert(ptr_bytes_compressed(p).subrange(2, 6) =~= be32(p.ptr));
    if is_backptr(p.id) {
        assert(ptr_bytes_compressed(p).subrange(6, 10) =~= be32(p.back_block));
    }
}

proof fn lemma_full_slot(ptrs: Seq<TriePtr>, i: int)
    requires
        0 <= i < ptrs.len(),
    ensures
        ptrs_full(ptrs).len() == 10 * ptrs.len(),
        ptrs_full(ptrs).subrange(10 * i, 10 * i + 10) == ptr_bytes(ptrs[i]),
    decreases ptrs.len(),
{
    lemma_list_lengths(ptrs);
    let front = ptrs.drop_last();
    lemma_list_lengths(front);
    law_ptr_layout(ptrs.last());
    let s = ptrs_full(ptrs);
    if i < front.len() {
        lemma_full_slot(front, i);
        assert(s.subrange(10 * i, 10 * i + 10) =~= ptrs_full(front).subrange(10 * i, 10 * i + 10));
    } else {
        assert(s.subrange(10 * i, 10 * i + 10) =~= ptr_bytes(ptrs[i]));
    }
}

/// A node in full is its kind, ten bytes for each of all its slots, one byte for each entry of its
/// index, and its path behind the length of it. A leaf is its kind, its path behind the length of
/// it, and its value.
pub proof fn law_node_layout(m: NodeModel)
    requires
        m.shaped(),
    ensures
        ({
            let s = m.bytes();
            let n = m.ptrs.len() as int;
            let x = m.indexes.len() as int;
            let l = m.path.len() as int;
            &&& s[0] == m.kind.spec_to_u8()
            &&& m.kind is Leaf ==> s.len() == 42 + l && s[1] == l && s.subrange(2, 2 + l) == m.path
                && s.skip(2 + l) == m.data
            &&& !(m.kind is Leaf) ==> {
                &&& s.len() == 2 + 10 * n + x + l
                &&& forall|i: int|
                    0 <= i < n ==> s.subrange(1 + 10 * i, 11 + 10 * i) == ptr_bytes(
                        #[trigger] m.ptrs[i],
                    )
                &&& forall|c: int|
                    0 <= c < x ==> s[1 + 10 * n + c] == index_byte(#[trigger] m.indexes[c])
                &&& s[1 + 10 * n + x] == l
                &&& s.skip(2 + 10 * n + x) == m.path
            }
        }),
{
    let s = m.bytes();
    let n = m.ptrs.len() as int;
    let x = m.indexes.len() as int;
    let l = m.path.len() as int;
    if m.kind is Leaf {
        assert(s.subrange(2, 2 + l) =~= m.path);
        assert(s.skip(2 + l) =~= m.data);
    } else {
        let full = ptrs_full(m.ptrs);
        lemma_list_lengths(m.ptrs);
        lemma_full_slot(m.ptrs, 0);
        assert forall|i: int| 0 <= i < n implies s.subrange(1 + 10 * i, 11 + 10 * i) == ptr_bytes(
            #[trigger] m.ptrs[i],
        ) by {
            lemma_full_slot(m.ptrs, i);
            assert(s.subrange(1 + 10 * i, 11 + 10 * i) =~= full.subrange(10 * i, 10 * i + 10));
        }
        assert(s.skip(2 + 10 * n + x) =~= m.path);
    }
}

/// Compressed slots of a node take the shorter of two forms: all slots, or a marker, a bitmap of
/// the slots that are occupied, and those slots alone. Of two that are as long, the first.
pub proof fn law_compressed_slots_take_the_shorter_form(id: u8, ptrs: Seq<TriePtr>)
    requires
        bitmap_size(id) is Some,
    ensures
        ({
            let size = bitmap_size(id).unwrap() as nat;
            let occupied = ptrs.filter(|p: TriePtr| !p.is_empty());
            let sparse = seq![SPARSE_PTR_BITMAP_MARKER] + bitmap(ptrs, size) + ptrs_dense(occupied);
            &&& ptrs_compressed(id, ptrs) == if sparse.len() < ptrs_dense(ptrs).len() {
                sparse
            } else {
                ptrs_dense(ptrs)
            }
        }),
{
    lemma_present(ptrs);
}

proof fn lemma_present(ptrs: Seq<TriePtr>)
    ensures
        ptrs_present(ptrs) == ptrs_dense(ptrs.filter(|p: TriePtr| !p.is_empty())),
    decreases ptrs.len(),
{
    reveal(Seq::filter);
    let f = |p: TriePtr| !p.is_empty();
    if ptrs.len() > 0 {
        let front = ptrs.drop_last();
        lemma_present(front);
        assert(ptrs_present(front) == ptrs_dense(front.filter(f)));
        if !ptrs.last().is_empty() {
            let all = front.filter(f).push(ptrs.last());
            assert(all.drop_last() =~= front.filter(f));
        }
    } else {
        assert(ptrs.filter(f) =~= ptrs);
    }
}

/// The bytes before slot `i` of a compressed list are those of the slots before it, and each slot
/// stands there compressed.
pub proof fn law_dense_layout(ptrs: Seq<TriePtr>, i: int)
    requires
        0 <= i < ptrs.len(),
    ensures
        ({
            let at = ptrs_dense(ptrs.take(i)).len() as int;
            let p = ptr_bytes_compressed(ptrs[i]);
            &&& at + p.len() <= ptrs_dense(ptrs).len()
            &&& ptrs_dense(ptrs).subrange(at, at + p.len()) == p
            &&& i == ptrs.len() - 1 ==> ptrs_dense(ptrs).len() == at + p.len()
            &&& ptrs_dense(ptrs.take(0)).len() == 0
        }),
    decreases ptrs.len(),
{
    let front = ptrs.drop_last();
    let at = ptrs_dense(ptrs.take(i)).len() as int;
    let p = ptr_bytes_compressed(ptrs[i]);
    if i < front.len() {
        law_dense_layout(front, i);
        assert(front.take(i) =~= ptrs.take(i));
        assert(ptrs_dense(ptrs).subrange(at, at + p.len()) =~= ptrs_dense(front).subrange(
            at,
            at + p.len(),
        ));
    } else {
        assert(ptrs.take(i) =~= front);
        assert(ptrs_dense(ptrs).subrange(at, at + p.len()) =~= p);
    }
}

/// A patch is its kind, the pointer to its base, one less than the number of its diffs, and the
/// diffs.
pub proof fn law_patch_layout(ptr: TriePtr, diff: Seq<TriePtr>)
    requires
        1 <= diff.len() <= 256,
    ensures
        ({
            let s = patch_bytes(ptr, diff);
            let p = ptr_bytes_compressed(ptr);
            let n = p.len() as int;
            &&& s.len() == 2 + n + ptrs_dense(diff).len()
            &&& s[0] == TrieNodeID::Patch.spec_to_u8()
            &&& s.subrange(1, 1 + n) == p
            &&& s[1 + n] == diff.len() - 1
            &&& s.skip(2 + n) == ptrs_dense(diff)
        }),
{
    let s = patch_bytes(ptr, diff);
    let p = ptr_bytes_compressed(ptr);
    let n = p.len() as int;
    assert(s.subrange(1, 1 + n) =~= p);
    assert(s.skip(2 + n) =~= ptrs_dense(diff));
}

/// A leaf as a message is the length of its path in four bytes, its path, and its value.
pub proof fn law_leaf_message_layout(path: Seq<u8>, data: Seq<u8>)
    requires
        path.len() <= 32,
    ensures
        ({
            let s = leaf_message(path, data);
            let n = path.len() as int;
            &&& s.len() == 4 + n + data.len()
            &&& s.take(4) == be32(n as u32)
            &&& s.subrange(4, 4 + n) == path
            &&& s.skip(4 + n) == data
        }),
{
    let s = leaf_message(path, data);
    let n = path.len() as int;
    assert(s.take(4) =~= be32(n as u32));
    assert(s.subrange(4, 4 + n) =~= path);
    assert(s.skip(4 + n) =~= data);
}

/// A path is read exactly where its length is at most 32 and all of it is there, and a compressed
/// pointer where all the bytes are there that its kind takes: ten for a back-pointer, else six.
pub proof fn law_paths_and_pointers_are_read(s: Seq<u8>)
    ensures
        parse_path(s) == if s.len() > 0 && s[0] <= 32 && s.len() >= 1 + s[0] {
            Some((s.skip(1).take(s[0] as int), 1 + s[0] as nat))
        } else {
            None
        },
        parse_ptr_compressed(s) is Some <==> s.len() >= 6 && (is_backptr(s[0]) ==> s.len() >= 10),
        parse_ptr_compressed(s) matches Some((p, n)) ==> p.id == clear_compressed(s[0]) && p.chr
            == s[1] && p.ptr == from_be32(s.subrange(2, 6)) && p.back_block == if is_backptr(s[0]) {
            from_be32(s.subrange(6, 10))
        } else {
            0
        } && n == if is_backptr(s[0]) {
            10int
        } else {
            6
        },
{
    if s.len() > 0 {
        law_ctrl_bits(s[0]);
        if s[0] <= 32 && s.len() >= 1 + s[0] {
            assert(s.skip(1).take(s[0] as int) =~= s.subrange(1, 1 + s[0]));
        }
    }
}

/// A node is read only where the bytes begin with its kind, and what is read has the parts that its
/// kind calls for, its slots read from where they stand; and a node with an index only where that
/// leads from each occupied slot's character to an occupied slot.
pub proof fn law_nodes_are_read(kind: TrieNodeID, s: Seq<u8>)
    ensures
        parse_node(kind, s) matches Some((m, n)) ==> {
            &&& s.len() > 0 && clear_ctrl_bits(s[0]) == clear_ctrl_bits(kind.spec_to_u8())
            &&& m.kind == kind
            &&& m.path.len() <= 32
            &&& kind is Node48 ==> indexes_valid(m.ptrs, m.indexes)
            &&& !(kind is Leaf) && !is_compressed(s[0]) ==> m.ptrs.len() == kind_slots(kind)
                && forall|i: int|
                0 <= i < m.ptrs.len() ==> #[trigger] m.ptrs[i] == parse_ptr(s.skip(1 + 10 * i))
        },
{
    law_ctrl_bits(kind.spec_to_u8());
    law_node_id_round_trip(kind, 0);
    if let Some((m, n)) = parse_node(kind, s) {
        if !(kind is Leaf) && !is_compressed(s[0]) {
            assert forall|i: int| 0 <= i < m.ptrs.len() implies #[trigger] m.ptrs[i] == parse_ptr(
                s.skip(1 + 10 * i),
            ) by {
                assert(s.skip(1).skip(10 * i) =~= s.skip(1 + 10 * i));
            }
        }
    }
}

// ---------------------------------------------------------------------------------------
// History blobs
// ---------------------------------------------------------------------------------------
/// The four letters that a history blob begins and ends with.
pub open spec fn mhis() -> Seq<u8> {
    seq![77u8, 72u8, 73u8, 83u8]
}

/// The headers and the footer of history blobs hold their fields one after the other.
pub proof fn law_history_layout(
    h: HistoryBlobHeader,
    f: HistoryBlobFooter,
    c: HistoryChunkHeader,
)
    ensures
        header_bytes(h).len() == 10,
        header_bytes(h).take(4) == mhis(),
        header_bytes(h)[4] == h.version && header_bytes(h)[5] == h.flags,
        header_bytes(h).skip(6) == be32(h.level_id),
        footer_bytes(f).len() == 24,
        footer_bytes(f).take(4) == be32(f.chunk_count),
        footer_bytes(f).subrange(4, 12) == be64(f.total_entry_count),
        footer_bytes(f).subrange(12, 20) == be64(f.body_len),
        footer_bytes(f).skip(20) == mhis(),
        chunk_header_bytes(c).len() == 6,
        chunk_header_bytes(c)[0] == c.version && chunk_header_bytes(c)[1] == c.flags,
        chunk_header_bytes(c).skip(2) == be32(c.entry_count),
{
    assert(header_bytes(h).take(4) =~= mhis());
    assert(header_bytes(h).skip(6) =~= be32(h.level_id));
    assert(footer_bytes(f).take(4) =~= be32(f.chunk_count));
    assert(footer_bytes(f).subrange(4, 12) =~= be64(f.total_entry_count));
    assert(footer_bytes(f).subrange(12, 20) =~= be64(f.body_len));
    assert(footer_bytes(f).skip(20) =~= mhis());
    assert(chunk_header_bytes(c).skip(2) =~= be32(c.entry_count));
}

/// A chunk is a header that tells how many entries there are, and for each entry four bytes for the
/// height and forty for the value, in order.
pub proof fn law_chunk_layout(entries: Seq<(u32, MARFValue)>, i: int)
    requires
        0 <= i < entries.len() <= u32::MAX,
    ensures
        ({
            let s = chunk_bytes(entries);
            &&& s.len() == 6 + 44 * entries.len()
            &&& s[0] == 1 && s[1] == 1
            &&& s.subrange(2, 6) == be32(entries.len() as u32)
            &&& s.subrange(6 + 44 * i, 10 + 44 * i) == be32(entries[i].0)
            &&& s.subrange(10 + 44 * i, 50 + 44 * i) == entries[i].1@
        }),
{
    let s = chunk_bytes(entries);
    let e = entries_bytes(entries);
    lemma_entry_layout(entries, i);
    assert(s.subrange(2, 6) =~= be32(entries.len() as u32));
    assert(s.subrange(6 + 44 * i, 10 + 44 * i) =~= e.subrange(44 * i, 44 * i + 4));
    assert(s.subrange(10 + 44 * i, 50 + 44 * i) =~= e.subrange(44 * i + 4, 44 * i + 44));
}

proof fn lemma_entry_layout(entries: Seq<(u32, MARFValue)>, i: int)
    requires
        0 <= i < entries.len(),
    ensures
        entries_bytes(entries).len() == 44 * entries.len(),
        entries_bytes(entries).subrange(44 * i, 44 * i + 4) == be32(entries[i].0),
        entries_bytes(entries).subrange(44 * i + 4, 44 * i + 44) == entries[i].1@,
    decreases entries.len(),
{
    let s = entries_bytes(entries);
    let front = entries.drop_last();
    lemma_be32_round_trip(entries.last().0);
    assert(front.len() == 0 ==> entries_bytes(front).len() == 0);
    assert(entries.last().1@.len() == 40);
    assert(s == entries_bytes(front) + be32(entries.last().0) + entries.last().1@);
    if front.len() > 0 {
        lemma_entry_layout(
            front,
            if i < front.len() {
                i
            } else {
                0
            },
        );
    }
    if i < front.len() {
        let a = entries_bytes(front);
        assert(s.subrange(44 * i, 44 * i + 4) =~= a.subrange(44 * i, 44 * i + 4));
        assert(s.subrange(44 * i + 4, 44 * i + 44) =~= a.subrange(44 * i + 4, 44 * i + 44));
    } else {
        assert(s.subrange(44 * i, 44 * i + 4) =~= be32(entries[i].0));
        assert(s.subrange(44 * i + 4, 44 * i + 44) =~= entries[i].1@);
    }
}

/// A history blob opens exactly if it begins and ends with the four letters, has the version and
/// the flag of this format, is of the level that was asked for, if any, and is as long as its
/// footer says.
pub proof fn law_blob_opens(s: Seq<u8>, level: Option<u32>)
    ensures
        opened(s, level) is Some <==> {
            &&& s.len() >= 34
            &&& s.take(4) == mhis()
            &&& s[4] == 1 && s[5] == 1
            &&& s.skip(s.len() - 4) == mhis()
            &&& level is Some ==> level.unwrap() == from_be32(s.subrange(6, 10))
            &&& s.len() == 34 + crate::bytes::from_be64(s.subrange(s.len() - 12, s.len() - 4))
        },
        opened(s, level) matches Some((h, f)) ==> {
            &&& h.level_id == from_be32(s.subrange(6, 10))
            &&& f.chunk_count == from_be32(s.subrange(s.len() - 24, s.len() - 20))
            &&& f.total_entry_count == crate::bytes::from_be64(
                s.subrange(s.len() - 20, s.len() - 12),
            )
            &&& f.body_len == s.len() - 34
        },
{
    if s.len() >= 34 {
        let t = s.skip(s.len() - 24);
        assert(s.take(4) =~= s.subrange(0, 4));
        assert(t.subrange(20, 24) =~= s.skip(s.len() - 4));
        assert(t.subrange(12, 20) =~= s.subrange(s.len() - 12, s.len() - 4));
        assert(t.subrange(4, 12) =~= s.subrange(s.len() - 20, s.len() - 12));
        assert(t.subrange(0, 4) =~= s.subrange(s.len() - 24, s.len() - 20));
        assert(crate::history_blob::magic() =~= mhis());
    }
}

/// The name of a blob that is still being written is known as such, and names no finished blob.
pub proof fn law_unfinished_names(level_id: u32, nanos: u128, pid: u32, seq: u64)
    ensures
        is_tmp_name(tmp_name(level_id, nanos, pid, seq)),
        parsed_name(tmp_name(level_id, nanos, pid, seq)) is None,
{
    reveal_strlit(".history-tmp-level-");
    reveal_strlit(".history-tmp-");
    reveal_strlit(".dat");
    reveal_strlit("marf-history-level-");
    let s = tmp_name(level_id, nanos, pid, seq);
    assert(s.take(13) =~= ".history-tmp-"@);
    assert(s.skip(s.len() - 4) =~= ".dat"@);
    assert forall|id: crate::history_names::BlobIdentity| s != #[trigger] blob_name(id) by {
        assert(blob_name(id)[0] == 'm');
        assert(s[0] == '.');
    }
}

// ---------------------------------------------------------------------------------------
// Items
// ---------------------------------------------------------------------------------------
/// Bytes that hold a node and nothing else spell it, and with anything behind it they spell none.
pub proof fn law_exact_bytes(m: NodeModel, rest: Seq<u8>)
    requires
        m.shaped(),
        m.kind is Node48 ==> indexes_valid(m.ptrs, m.indexes),
    ensures
        parse_exact(m.kind, m.bytes() + rest) == if rest.len() == 0 {
            Some(m)
        } else {
            None
        },
{
    law_node_round_trip(m, rest);
}

/// What was stored behind its hash is read back with it: as a whole, as its hash alone, and as its
/// kind and its hash.
#[verifier::spinoff_prover]
#[verifier::rlimit(40)]
pub proof fn law_stored_node_reads_back(
    form: SquashedForm,
    hash: Seq<u8>,
    m: NodeModel,
    rest: Seq<u8>,
)
    requires
        hash.len() == 32,
        m.shaped(),
        m.kind is Node48 ==> indexes_valid(m.ptrs, m.indexes),
    ensures
        item_of(form, hash + m.bytes() + rest, false) == Some(ItemModel::Node(m, Some(hash))),
        hash_of(hash + m.bytes() + rest) == Some(hash),
        type_of(hash + m.bytes() + rest) == Some((m.kind, hash)),
{
    let body = m.bytes() + rest;
    law_node_round_trip(m, rest);
    lemma_kind_byte(m.kind);
    law_ctrl_bits(m.kind.spec_to_u8());
    assert(body[0] == m.kind.spec_to_u8()) by {
        law_node_layout(m);
    }
    assert(hash + m.bytes() + rest =~= hash + body);
    assert((hash + body).take(32) =~= hash);
    assert((hash + body)[32] == body[0]);
    lemma_behind_hash(form, hash, body, m.kind);
}

/// A leaf that was stored without its hash is read back without one, and its hash is the digest of
/// its stored form.
#[verifier::spinoff_prover]
#[verifier::rlimit(40)]
pub proof fn law_stored_leaf_reads_back(form: SquashedForm, m: NodeModel, rest: Seq<u8>)
    requires
        m.shaped(),
        m.kind is Leaf,
    ensures
        item_of(form, m.bytes() + rest, true) == Some(ItemModel::Node(m, None)),
        leaf_hash_of(form, m.bytes() + rest) == Some(sha512_256(m.bytes())),
{
    let s = m.bytes() + rest;
    law_node_round_trip(m, rest);
    law_node_layout(m);
    lemma_kind_byte(m.kind);
    assert(s[0] == m.kind.spec_to_u8());
}

/// A squashed leaf is hashed like a plain leaf with its path and the value at the end of its range:
/// the digest of the kind of a leaf, the path behind the length of it, and that value.
pub proof fn law_squashed_leaf_is_hashed_as_a_leaf(
    form: SquashedForm,
    s: Seq<u8>,
    leaf: TrieLeafSquashed,
    n: usize,
)
    requires
        stored_kind(s) == Some(TrieNodeID::LeafSquashed),
        form(s) == Some((leaf, n)),
    ensures
        item_of(form, s, true) == Some(ItemModel::Squashed(leaf, None)),
        leaf_hash_of(form, s) == Some(
            sha512_256(
                seq![TrieNodeID::Leaf.spec_to_u8(), leaf.path@.len() as u8] + leaf.path@
                    + leaf.chunk.tip_value@,
            ),
        ),
{
    let m = crate::squashed::tip_leaf(leaf).model();
    assert(m.bytes() =~= seq![TrieNodeID::Leaf.spec_to_u8(), leaf.path@.len() as u8] + leaf.path@
        + leaf.chunk.tip_value@);
}

/// A patch that was stored behind its hash is read back with it.
#[verifier::spinoff_prover]
#[verifier::rlimit(40)]
pub proof fn law_stored_patch_reads_back(
    form: SquashedForm,
    hash: Seq<u8>,
    ptr: TriePtr,
    diff: Seq<TriePtr>,
    rest: Seq<u8>,
)
    requires
        hash.len() == 32,
        1 <= diff.len() <= 256,
        ptr_storable(ptr),
        forall|i: int| 0 <= i < diff.len() ==> ptr_storable(#[trigger] diff[i]),
    ensures
        item_of(form, hash + patch_bytes(ptr, diff) + rest, false) == Some(
            ItemModel::Patch(ptr, diff, Some(hash)),
        ),
{
    let body = patch_bytes(ptr, diff) + rest;
    law_patch_round_trip(ptr, diff, rest);
    lemma_kind_byte(TrieNodeID::Patch);
    assert(body[0] == TrieNodeID::Patch.spec_to_u8()) by {
        law_patch_layout(ptr, diff);
    }
    assert(hash + patch_bytes(ptr, diff) + rest =~= hash + body);
    lemma_behind_hash(form, hash, body, TrieNodeID::Patch);
}

/// What stands behind a hash is decoded from there.
proof fn lemma_behind_hash(form: SquashedForm, hash: Seq<u8>, body: Seq<u8>, kind: TrieNodeID)
    requires
        hash.len() == 32,
        stored_kind(body) == Some(kind),
    ensures
        item_of(form, hash + body, false) == body_of(form, kind, body, Some(hash)),
{
    assert((hash + body).skip(32) =~= body);
    assert((hash + body).take(32) =~= hash);
}

/// The byte of a kind names that kind.
proof fn lemma_kind_byte(kind: TrieNodeID)
    ensures
        crate::window::kind_of(kind.spec_to_u8()) == Some(kind),
{
    law_node_id_round_trip(kind, 0);
    law_ctrl_bits(kind.spec_to_u8());
}

/// A blob has a chunk at a place exactly if the chunk is as long as its entries make it, lies within
/// the body, and begins with the version, the flag and the number of entries of this format.
pub proof fn law_chunks_are_there(
    s: Seq<u8>,
    body_len: int,
    offset: int,
    byte_len: int,
    count: int,
)
    requires
        0 <= offset <= s.len(),
    ensures
        has_chunk(s, body_len, offset, byte_len, count) <==> {
            &&& byte_len == 6 + 44 * count
            &&& 10 <= offset && offset + byte_len <= 10 + body_len
            &&& s.len() >= offset + 6
            &&& s[offset] == 1 && s[offset + 1] == 1
            &&& from_be32(s.subrange(offset + 2, offset + 6)) == count
            &&& count > 0
        },
{
    let t = s.skip(offset);
    if t.len() >= 6 {
        assert(t.subrange(2, 6) =~= s.subrange(offset + 2, offset + 6));
    }
}

/// Entries are sorted exactly if none is later than the one before it.
pub proof fn law_entries_are_sorted(entries: Seq<(u32, MARFValue)>)
    ensures
        descending(entries) <==> forall|i: int|
            0 < i < entries.len() ==> entries[i - 1].0 >= (#[trigger] entries[i]).0,
{
    if forall|i: int| 0 < i < entries.len() ==> entries[i - 1].0 >= (#[trigger] entries[i]).0 {
        assert forall|i: int, j: int| 0 <= i <= j < entries.len() implies (#[trigger] entries[i]).0
            >= (#[trigger] entries[j]).0 by {
            lemma_sorted(entries, i, j);
        }
    }
    if descending(entries) {
        assert forall|i: int| 0 < i < entries.len() implies entries[i - 1].0
            >= (#[trigger] entries[i]).0 by {
            assert(entries[i - 1].0 >= entries[i].0);
        }
    }
}

proof fn lemma_sorted(entries: Seq<(u32, MARFValue)>, i: int, j: int)
    requires
        forall|i: int| 0 < i < entries.len() ==> entries[i - 1].0 >= (#[trigger] entries[i]).0,
        0 <= i <= j < entries.len(),
    ensures
        entries[i].0 >= entries[j].0,
    decreases j - i,
{
    if i < j {
        lemma_sorted(entries, i, j - 1);
        assert(entries[j - 1].0 >= entries[j].0);
    }
}

/// The size of every kind that can be stored is known: only an unoccupied slot, and a byte that
/// names no kind, have none.
pub proof fn law_sizes_are_known(id: u8, kind: TrieNodeID, squashed: usize)
    ensures
        size_known(id) <==> TrieNodeID::spec_from_u8(clear_ctrl_bits(id)) is Some
            && TrieNodeID::spec_from_u8(clear_ctrl_bits(id)) != Some(TrieNodeID::Empty),
        item_body_len(kind, squashed) is Some <==> !(kind is Empty),
        kind is LeafSquashed ==> item_body_len(kind, squashed) == Some(squashed),
{
}

/// The numbers of the kinds.
pub proof fn law_kind_numbers(kind: TrieNodeID)
    ensures
        kind.spec_to_u8() == match kind {
            TrieNodeID::Empty => 0u8,
            TrieNodeID::Leaf => 1,
            TrieNodeID::Node4 => 2,
            TrieNodeID::Node16 => 3,
            TrieNodeID::Node48 => 4,
            TrieNodeID::Node256 => 5,
            TrieNodeID::Patch => 6,
            TrieNodeID::LeafSquashed => 7,
        },
{
}

/// The highest bit of an identifier says that it is a back-pointer's, the next that it is
/// compressed, and the other six are the number of the kind.
pub proof fn law_identifier_bits(id: u8)
    ensures
        is_backptr(id) <==> id >= 0x80,
        is_compressed(id) <==> id % 0x80 >= 0x40,
        clear_ctrl_bits(id) == id % 0x40,
        clear_backptr(id) == id % 0x80,
        set_backptr(id) >= 0x80 && set_backptr(id) % 0x80 == id % 0x80,
        clear_compressed(id) / 0x80 == id / 0x80 && clear_compressed(id) % 0x80 == id % 0x40,
        set_compressed(id) / 0x80 == id / 0x80 && set_compressed(id) % 0x80 >= 0x40
            && set_compressed(id) % 0x40 == id % 0x40,
{
    assert((id & 0x80 != 0) == (id >= 0x80)) by (bit_vector);
    assert((id & 0x40 != 0) == (id % 0x80 >= 0x40)) by (bit_vector);
    assert(id & 0x3f == id % 0x40) by (bit_vector);
    assert(id & 0x7f == id % 0x80) by (bit_vector);
    assert((id | 0x80) >= 0x80 && (id | 0x80) % 0x80 == id % 0x80) by (bit_vector);
    assert((id & 0xbf) / 0x80 == id / 0x80 && (id & 0xbf) % 0x80 == id % 0x40) by (bit_vector);
    assert((id | 0x40) / 0x80 == id / 0x80 && (id | 0x40) % 0x80 >= 0x40 && (id | 0x40) % 0x40
        == id % 0x40) by (bit_vector);
}

/// A value is the bytes that it is made of, and zeros behind them.
pub proof fn law_value_layout(s: Seq<u8>, i: int)
    requires
        s.len() <= 40,
        0 <= i < 40,
    ensures
        value_of(s).len() == 40,
        value_of(s)[i] == if i < s.len() {
            s[i]
        } else {
            0
        },
{
}

} // verus!
