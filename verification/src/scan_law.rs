//! The scanner and the decoder see the same pointers, wherever the block stands in its file.

use crate::bits::{bit_set, bitmap_size, parse_dense, parse_full, parse_ptrs, parse_sparse, slot_count};
use crate::byte_scanner::{
    block_scan, compressed_slot, full_slot, list_scan, node_events, node_scan, normal_scan,
    patch_scan, report, slot_at, targets, trie_scan, ListScan, ScanEvent, ScannedPtr, SlotForm,
    BLOB_HEADER_SIZE,
};
use crate::node_id::{clear_ctrl_bits, is_compressed};
use crate::patch::parse_patch;
use crate::ptr::{empty_ptr, parse_ptr, parse_ptr_compressed, TriePtr};
use vstd::prelude::*;

verus! {

/// The occupied slots, in order.
pub open spec fn occupied(ptrs: Seq<TriePtr>) -> Seq<TriePtr>
    decreases ptrs.len(),
{
    if ptrs.len() == 0 {
        Seq::empty()
    } else if ptrs.last().is_empty() {
        occupied(ptrs.drop_last())
    } else {
        occupied(ptrs.drop_last()).push(ptrs.last())
    }
}

/// The pointers that were found.
pub open spec fn found_ptrs(found: Seq<ScannedPtr>) -> Seq<TriePtr> {
    found.map_values(|sp: ScannedPtr| sp.ptr)
}

/// Did the scan find these slots, and nothing wrong, in so many bytes?
pub open spec fn scanned_as(scan: ListScan, start: int, ptrs: Seq<TriePtr>, used: nat) -> bool {
    &&& scan.stop is None
    &&& scan.at == start + used
    &&& found_ptrs(scan.found) == occupied(ptrs)
}

/// Do all offsets fit in their integer types?
pub open spec fn offsets_fit(b: Seq<u8>, base: u64) -> bool {
    b.len() <= usize::MAX && base + b.len() <= u64::MAX
}

/// One more slot of `len` bytes, which was read.
proof fn lemma_one_more(
    form: SlotForm,
    b: Seq<u8>,
    base: u64,
    start: int,
    n: nat,
    ptrs: Seq<TriePtr>,
    used: nat,
    p: TriePtr,
    len: int,
)
    requires
        offsets_fit(b, base),
        0 <= start,
        n > 0,
        scanned_as(list_scan(form, b, base, start, (n - 1) as nat), start, ptrs, used),
        !(form matches SlotForm::Sparse(bm) && !bit_set(bm, n - 1)),
        crate::byte_scanner::slot_at(form, b, start + used) == Ok::<
            (TriePtr, int),
            crate::byte_scanner::ScanStop,
        >((p, len)),
        len >= 6,
        start + used + len <= b.len(),
    ensures
        scanned_as(list_scan(form, b, base, start, n), start, ptrs.push(p), (used + len) as nat),
{
    let prev = list_scan(form, b, base, start, (n - 1) as nat);
    let now = list_scan(form, b, base, start, n);
    assert(ptrs.push(p).drop_last() =~= ptrs);
    if !p.is_empty() {
        let sp = report(base, prev.at, p).unwrap().unwrap();
        assert(now.found == prev.found.push(sp));
        assert(found_ptrs(now.found) =~= found_ptrs(prev.found).push(p));
    }
}

proof fn lemma_dense_scan(b: Seq<u8>, base: u64, start: int, n: nat)
    requires
        offsets_fit(b, base),
        0 <= start <= b.len(),
    ensures
        parse_dense(b.skip(start), n) matches Some((ptrs, used)) ==> start + used <= b.len()
            && scanned_as(list_scan(SlotForm::Dense, b, base, start, n), start, ptrs, used),
    decreases n,
{
    let s = b.skip(start);
    if n == 0 {
        assert(found_ptrs(Seq::<ScannedPtr>::empty()) =~= Seq::<TriePtr>::empty());
    } else if parse_dense(s, n) is Some {
        lemma_dense_scan(b, base, start, (n - 1) as nat);
        let (ptrs, used) = parse_dense(s, (n - 1) as nat).unwrap();
        let (p, len) = parse_ptr_compressed(s.skip(used as int)).unwrap();
        assert(s.skip(used as int) =~= b.skip(start + used));
        crate::ptr::law_parsed_ptr_storable(s.skip(used as int));
        assert(compressed_slot(b, start + used) == Ok::<
            (TriePtr, int),
            crate::byte_scanner::ScanStop,
        >((p, len as int)));
        lemma_one_more(SlotForm::Dense, b, base, start, n, ptrs, used, p, len as int);
    }
}

proof fn lemma_sparse_scan(bm: Seq<u8>, b: Seq<u8>, base: u64, start: int, n: nat)
    requires
        offsets_fit(b, base),
        0 <= start <= b.len(),
    ensures
        parse_sparse(bm, b.skip(start), n) matches Some((ptrs, used)) ==> start + used <= b.len()
            && scanned_as(list_scan(SlotForm::Sparse(bm), b, base, start, n), start, ptrs, used),
    decreases n,
{
    let s = b.skip(start);
    if n == 0 {
        assert(found_ptrs(Seq::<ScannedPtr>::empty()) =~= Seq::<TriePtr>::empty());
    } else if parse_sparse(bm, s, n) is Some {
        lemma_sparse_scan(bm, b, base, start, (n - 1) as nat);
        let (ptrs, used) = parse_sparse(bm, s, (n - 1) as nat).unwrap();
        if !bit_set(bm, n - 1) {
            assert(ptrs.push(empty_ptr()).drop_last() =~= ptrs);
        } else {
            let (p, len) = parse_ptr_compressed(s.skip(used as int)).unwrap();
            assert(s.skip(used as int) =~= b.skip(start + used));
            crate::ptr::law_parsed_ptr_storable(s.skip(used as int));
            assert(compressed_slot(b, start + used) == Ok::<
                (TriePtr, int),
                crate::byte_scanner::ScanStop,
            >((p, len as int)));
            lemma_one_more(SlotForm::Sparse(bm), b, base, start, n, ptrs, used, p, len as int);
        }
    }
}

proof fn lemma_full_scan(b: Seq<u8>, base: u64, start: int, n: nat)
    requires
        offsets_fit(b, base),
        0 <= start,
        start + 10 * n <= b.len(),
    ensures
        scanned_as(
            list_scan(SlotForm::Full, b, base, start, n),
            start,
            Seq::new(n, |i: int| parse_ptr(b.skip(start).skip(10 * i))),
            10 * n,
        ),
    decreases n,
{
    let ptrs = Seq::new(n, |i: int| parse_ptr(b.skip(start).skip(10 * i)));
    if n == 0 {
        assert(found_ptrs(Seq::<ScannedPtr>::empty()) =~= Seq::<TriePtr>::empty());
    } else {
        lemma_full_scan(b, base, start, (n - 1) as nat);
        let front = Seq::new((n - 1) as nat, |i: int| parse_ptr(b.skip(start).skip(10 * i)));
        let at = start + 10 * (n - 1);
        assert(b.skip(start).skip(10 * (n - 1)) =~= b.skip(at));
        let p = parse_ptr(b.skip(at));
        assert(ptrs =~= front.push(p));
        assert(full_slot(b, at) == Ok::<(TriePtr, int), crate::byte_scanner::ScanStop>((p, 10)));
        lemma_one_more(
            SlotForm::Full,
            b,
            base,
            start,
            n,
            front,
            (10 * (n - 1)) as nat,
            p,
            10,
        );
    }
}

/// Where the decoder reads the slots of a node, the scanner finds exactly the occupied ones, in
/// order, and ends where the slots end.
pub proof fn law_scan_finds_decoded_slots(b: Seq<u8>, base: u64, body: int)
    requires
        offsets_fit(b, base),
        0 <= body < b.len(),
        slot_count(b[body]) > 0,
    ensures
        parse_ptrs(clear_ctrl_bits(b[body]), b.skip(body), slot_count(b[body])) matches Some(
            (ptrs, used),
        ) ==> scanned_as(normal_scan(b, base, body), body, ptrs, used),
{
    let id = b[body];
    let n = slot_count(id);
    let s = b.skip(body);
    let rest = s.skip(1);
    assert(s[0] == id);
    assert(rest =~= b.skip(body + 1));
    if parse_ptrs(clear_ctrl_bits(id), s, n) is Some {
        if !is_compressed(id) {
            lemma_full_scan(b, base, body + 1, n);
            assert(parse_full(rest, n) is Some);
        } else if rest.len() > 0 {
            assert(rest[0] == b[body + 1]);
            if rest[0] == crate::bits::SPARSE_PTR_BITMAP_MARKER {
                let size = bitmap_size(id).unwrap();
                assert(rest.subrange(1, 1 + size) =~= b.subrange(body + 2, body + 2 + size));
                assert(rest.skip(1 + size) =~= b.skip(body + 2 + size));
                lemma_sparse_scan(
                    b.subrange(body + 2, body + 2 + size),
                    b,
                    base,
                    body + 2 + size,
                    n,
                );
            } else {
                lemma_dense_scan(b, base, body + 1, n);
            }
        }
    }
}

/// Where the decoder reads a patch, the scanner finds its base and its diffs, in order, and ends
/// where the patch ends.
pub proof fn law_scan_finds_decoded_patch(b: Seq<u8>, base: u64, body: int)
    requires
        offsets_fit(b, base),
        0 <= body < b.len(),
    ensures
        parse_patch(b.skip(body)) matches Some((ptr, diff, used)) ==> {
            let scan = patch_scan(b, base, body);
            &&& scan.stop is None
            &&& scan.at == body + used
            &&& found_ptrs(scan.found) == occupied(seq![ptr]) + occupied(diff)
        },
{
    let s = b.skip(body);
    if parse_patch(s) is Some {
        let (ptr, n) = parse_ptr_compressed(s.skip(1)).unwrap();
        assert(s.skip(1) =~= b.skip(body + 1));
        lemma_dense_scan(b, base, body + 1, 1);
        assert(b.skip(body + 1).skip(0) =~= b.skip(body + 1));
        reveal_with_fuel(parse_dense, 2);
        assert(parse_dense(b.skip(body + 1), 1) == Some((seq![ptr], n as nat))) by {
            assert(Seq::<TriePtr>::empty().push(ptr) =~= seq![ptr]);
        }
        let first = list_scan(SlotForm::Dense, b, base, body + 1, 1);
        assert(first.at == body + 1 + n);
        assert(s[1 + n] == b[first.at]);
        assert(s.skip(2 + n) =~= b.skip(first.at + 1));
        lemma_dense_scan(b, base, first.at + 1, b[first.at] as nat + 1);
        let rest = list_scan(SlotForm::Dense, b, base, first.at + 1, b[first.at] as nat + 1);
        assert(found_ptrs(first.found + rest.found) =~= found_ptrs(first.found) + found_ptrs(
            rest.found,
        ));
    }
}

// ---------------------------------------------------------------------------------------
// The place of a block in its file
// ---------------------------------------------------------------------------------------
/// A pointer that was found in a block at the start of a file, for the block at `base`.
pub open spec fn moved_ptr(sp: ScannedPtr, base: u64) -> ScannedPtr {
    ScannedPtr { ptr_field_file_offset: (sp.ptr_field_file_offset + base) as u64, ptr: sp.ptr }
}

/// Pointers that were found in a block at the start of a file, for the block at `base`.
pub open spec fn moved(found: Seq<ScannedPtr>, base: u64) -> Seq<ScannedPtr> {
    found.map_values(|sp: ScannedPtr| moved_ptr(sp, base))
}

/// Events of a block at the start of a file, for the block at `base`.
pub open spec fn moved_events(events: Seq<ScanEvent>, base: u64) -> Seq<ScanEvent> {
    events.map_values(
        |e: ScanEvent|
            match e {
                ScanEvent::Ptr(sp) => ScanEvent::Ptr(moved_ptr(sp, base)),
                ScanEvent::Node(v) => ScanEvent::Node(v),
            },
    )
}

proof fn lemma_moved_list(form: SlotForm, b: Seq<u8>, base: u64, start: int, n: nat)
    requires
        0 <= start,
        base + b.len() <= u64::MAX,
    ensures
        ({
            let here = list_scan(form, b, 0, start, n);
            let there = list_scan(form, b, base, start, n);
            &&& here.at >= start
            &&& there.at == here.at
            &&& there.stop == here.stop
            &&& there.found == moved(here.found, base)
        }),
    decreases n,
{
    let here = list_scan(form, b, 0, start, n);
    let there = list_scan(form, b, base, start, n);
    if n > 0 {
        lemma_moved_list(form, b, base, start, (n - 1) as nat);
        let prev = list_scan(form, b, 0, start, (n - 1) as nat);
        if let Ok((p, len)) = slot_at(form, b, prev.at) {
            assert(prev.at + 6 <= b.len());
            if let Ok(Some(sp)) = report(0, prev.at, p) {
                assert(moved(prev.found.push(sp), base) =~= moved(prev.found, base).push(
                    moved_ptr(sp, base),
                ));
            }
        }
    }
    assert(there.found =~= moved(here.found, base));
}

proof fn lemma_moved_targets(found: Seq<ScannedPtr>, base: u64)
    ensures
        targets(moved(found, base)) == targets(found),
    decreases found.len(),
{
    if found.len() > 0 {
        assert(moved(found, base).drop_last() =~= moved(found.drop_last(), base));
        lemma_moved_targets(found.drop_last(), base);
    }
}

proof fn lemma_moved_node(b: Seq<u8>, base: u64, off: u32)
    requires
        base + b.len() <= u64::MAX,
    ensures
        ({
            let here = node_scan(b, 0, off);
            let there = node_scan(b, base, off);
            &&& there.visit == here.visit
            &&& there.stop == here.stop
            &&& there.found == moved(here.found, base)
            &&& node_events(there) == moved_events(node_events(here), base)
        }),
{
    let body = off + 32;
    let id = b[body];
    let here = node_scan(b, 0, off);
    let there = node_scan(b, base, off);
    lemma_moved_list(SlotForm::Full, b, base, body + 1, slot_count(id));
    lemma_moved_list(SlotForm::Dense, b, base, body + 1, slot_count(id));
    lemma_moved_list(SlotForm::Dense, b, base, body + 1, 1);
    let first = list_scan(SlotForm::Dense, b, 0, body + 1, 1);
    let count = b[first.at] as nat + 1;
    lemma_moved_list(SlotForm::Dense, b, base, first.at + 1, count);
    let rest = list_scan(SlotForm::Dense, b, 0, first.at + 1, count);
    assert(moved(first.found + rest.found, base) =~= moved(first.found, base) + moved(
        rest.found,
        base,
    ));
    if let Some(size) = bitmap_size(id) {
        let bm = b.subrange(body + 2, body + 2 + size);
        lemma_moved_list(SlotForm::Sparse(bm), b, base, body + 2 + size, slot_count(id));
    }
    assert(moved(Seq::empty(), base) =~= Seq::empty());
    assert(there.found =~= moved(here.found, base));
    assert(node_events(there) =~= moved_events(node_events(here), base));
}

proof fn lemma_moved_walk(b: Seq<u8>, base: u64, stack: Seq<u32>, visited: Set<u32>)
    requires
        base + b.len() <= u64::MAX,
    ensures
        ({
            let (here, stop) = trie_scan(b, 0, stack, visited);
            trie_scan(b, base, stack, visited) == (moved_events(here, base), stop)
        }),
    decreases b.len() + 1 - visited.len(),
{
    let (here, stop) = trie_scan(b, 0, stack, visited);
    let there = trie_scan(b, base, stack, visited).0;
    if stack.len() > 0 && !(visited.contains(stack.last()) || visited.len() > b.len()
        || !visited.finite()) {
        let off = stack.last();
        let scan = node_scan(b, 0, off);
        lemma_moved_node(b, base, off);
        lemma_moved_targets(scan.found, base);
        if scan.stop is None {
            let next = stack.drop_last() + targets(scan.found);
            lemma_moved_walk(b, base, next, visited.insert(off));
            let more = trie_scan(b, 0, next, visited.insert(off)).0;
            assert(moved_events(node_events(scan) + more, base) =~= moved_events(
                node_events(scan),
                base,
            ) + moved_events(more, base));
        }
    } else {
        assert(there =~= moved_events(here, base));
    }
}

/// Where a block stands in its file only moves the offsets that a scan reports: it finds the same
/// nodes and pointers, in the same order, and ends in the same way. The block must end within what
/// an offset can tell.
pub proof fn law_scan_moves_with_file_base(b: Seq<u8>, base: u64)
    requires
        base + b.len() <= u64::MAX,
    ensures
        block_scan(b, base) == (moved_events(block_scan(b, 0).0, base), block_scan(b, 0).1),
{
    if b.len() < BLOB_HEADER_SIZE {
        assert(moved_events(Seq::empty(), base) =~= Seq::empty());
    } else {
        lemma_moved_walk(b, base, seq![BLOB_HEADER_SIZE as u32], Set::empty());
    }
}

} // verus!
