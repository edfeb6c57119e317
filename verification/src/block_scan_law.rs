//! What a scan of a whole block reports: every pointer of every node that it visits, and it stops
//! early only for a cause.

use crate::bits::{parse_ptrs, slot_count};
use crate::byte_scanner::{
    block_scan, node_events, node_scan, scanned_ptrs, targets, trie_scan, visits,
    NodeVisit, ScanEvent, ScanStop, ScannedPtr,
};
use crate::node_id::{clear_ctrl_bits, is_backptr, law_ctrl_bits, law_node_id_round_trip, TrieNodeID};
use crate::patch::parse_patch;
use crate::scan_law::{
    found_ptrs, law_scan_finds_decoded_patch, law_scan_finds_decoded_slots, occupied, offsets_fit,
};
use vstd::prelude::*;

verus! {

/// The nodes that pointers lead to in their own block are those of all pointers that name no other
/// block; and the nodes and the pointers of a scan are told apart by what each event is.
pub proof fn law_targets_and_events(found: Seq<ScannedPtr>, events: Seq<ScanEvent>)
    ensures
        targets(found) == found.filter_map(
            |sp: ScannedPtr|
                if !is_backptr(sp.ptr.id) && sp.ptr.back_block == 0 {
                    Some(sp.ptr.ptr)
                } else {
                    None
                },
        ),
        scanned_ptrs(events) == events.filter_map(
            |e: ScanEvent|
                match e {
                    ScanEvent::Ptr(sp) => Some(sp),
                    ScanEvent::Node(_) => None,
                },
        ),
        visits(events) == events.filter_map(
            |e: ScanEvent|
                match e {
                    ScanEvent::Ptr(_) => None,
                    ScanEvent::Node(v) => Some(v.block_offset),
                },
        ),
{
    lemma_targets(found);
    lemma_scanned(events);
    lemma_visits(events);
}

proof fn lemma_targets(found: Seq<ScannedPtr>)
    ensures
        targets(found) == found.filter_map(
            |sp: ScannedPtr|
                if !is_backptr(sp.ptr.id) && sp.ptr.back_block == 0 {
                    Some(sp.ptr.ptr)
                } else {
                    None
                },
        ),
    decreases found.len(),
{
    let f = |sp: ScannedPtr|
        if !is_backptr(sp.ptr.id) && sp.ptr.back_block == 0 {
            Some(sp.ptr.ptr)
        } else {
            None
        };
    if found.len() > 0 {
        lemma_targets(found.drop_last());
        let before = targets(found.drop_last());
        assert(before == found.drop_last().filter_map(f));
        let last = found.last().ptr.ptr;
        assert(before.push(last) =~= before + seq![last]);
    } else {
        assert(targets(found) =~= found.filter_map(f));
    }
}

proof fn lemma_scanned(events: Seq<ScanEvent>)
    ensures
        scanned_ptrs(events) == events.filter_map(
            |e: ScanEvent|
                match e {
                    ScanEvent::Ptr(sp) => Some(sp),
                    ScanEvent::Node(_) => None,
                },
        ),
    decreases events.len(),
{
    let f = |e: ScanEvent|
        match e {
            ScanEvent::Ptr(sp) => Some(sp),
            ScanEvent::Node(_) => None,
        };
    if events.len() > 0 {
        lemma_scanned(events.drop_last());
        let before = scanned_ptrs(events.drop_last());
        assert(before == events.drop_last().filter_map(f));
        if let ScanEvent::Ptr(sp) = events.last() {
            assert(before.push(sp) =~= before + seq![sp]);
        }
    } else {
        assert(scanned_ptrs(events) =~= events.filter_map(f));
    }
}

proof fn lemma_visits(events: Seq<ScanEvent>)
    ensures
        visits(events) == events.filter_map(
            |e: ScanEvent|
                match e {
                    ScanEvent::Ptr(_) => None,
                    ScanEvent::Node(v) => Some(v.block_offset),
                },
        ),
    decreases events.len(),
{
    let f = |e: ScanEvent|
        match e {
            ScanEvent::Ptr(_) => None,
            ScanEvent::Node(v) => Some(v.block_offset),
        };
    if events.len() > 0 {
        lemma_visits(events.drop_last());
        let before = visits(events.drop_last());
        assert(before == events.drop_last().filter_map(f));
        if let ScanEvent::Node(v) = events.last() {
            assert(before.push(v.block_offset) =~= before + seq![v.block_offset]);
        }
    } else {
        assert(visits(events) =~= events.filter_map(f));
    }
}

// ---------------------------------------------------------------------------------------
// One node
// ---------------------------------------------------------------------------------------
/// What is found of a node is what the decoder reads of it: all its occupied slots, or the base and
/// the diffs of a patch, in order; a leaf has none. The node is reported with its place and kind.
pub proof fn law_node_is_scanned_as_decoded(b: Seq<u8>, base: u64, off: u32, kind: TrieNodeID)
    requires
        offsets_fit(b, base),
        off + 32 < b.len(),
        TrieNodeID::spec_from_u8(clear_ctrl_bits(b[off + 32])) == Some(kind),
    ensures
        ({
            let scan = node_scan(b, base, off);
            &&& scan.visit == Some(NodeVisit { block_offset: off, node_kind: kind })
            &&& kind is Leaf || kind is LeafSquashed || kind is Empty ==> scan.stop is None
                && scan.found.len() == 0
            &&& kind is Patch ==> (parse_patch(b.skip(off + 32)) matches Some((ptr, diff, used))
                ==> scan.stop is None && found_ptrs(scan.found) == occupied(seq![ptr]) + occupied(
                diff,
            ))
            &&& kind is Node4 || kind is Node16 || kind is Node48 || kind is Node256 ==> (parse_ptrs(
                kind.spec_to_u8(),
                b.skip(off + 32),
                slot_count(kind.spec_to_u8()),
            ) matches Some((ptrs, used)) ==> scan.stop is None && found_ptrs(scan.found)
                == occupied(ptrs))
        }),
{
    let body = off + 32;
    let id = b[body];
    law_node_id_round_trip(kind, clear_ctrl_bits(id));
    law_ctrl_bits(id);
    law_scan_finds_decoded_patch(b, base, body);
    if slot_count(id) > 0 {
        law_scan_finds_decoded_slots(b, base, body);
    }
}

/// The occupied slots of a list are those that are not empty.
pub proof fn law_occupied(ptrs: Seq<crate::ptr::TriePtr>)
    ensures
        occupied(ptrs) == ptrs.filter(|p: crate::ptr::TriePtr| p.id != 0),
    decreases ptrs.len(),
{
    reveal(Seq::filter);
    let f = |p: crate::ptr::TriePtr| p.id != 0;
    if ptrs.len() > 0 {
        law_occupied(ptrs.drop_last());
        assert(occupied(ptrs.drop_last()) == ptrs.drop_last().filter(f));
    } else {
        assert(occupied(ptrs) =~= ptrs.filter(f));
    }
}

// ---------------------------------------------------------------------------------------
// The whole block
// ---------------------------------------------------------------------------------------
/// What is to be reported of the node at `off`: the node, and then each of its pointers.
pub open spec fn report_of(b: Seq<u8>, base: u64, off: u32) -> Seq<ScanEvent> {
    let scan = node_scan(b, base, off);
    seq![ScanEvent::Node(scan.visit.unwrap())] + Seq::new(
        scan.found.len(),
        |i: int| ScanEvent::Ptr(scan.found[i]),
    )
}

/// What is to be reported of these nodes, one after the other.
pub open spec fn reports_of(b: Seq<u8>, base: u64, offs: Seq<u32>) -> Seq<ScanEvent>
    decreases offs.len(),
{
    if offs.len() == 0 {
        Seq::empty()
    } else {
        report_of(b, base, offs[0]) + reports_of(b, base, offs.skip(1))
    }
}

proof fn lemma_node_visit(b: Seq<u8>, base: u64, off: u32)
    requires
        node_scan(b, base, off).visit is Some,
    ensures
        node_events(node_scan(b, base, off)) == report_of(b, base, off),
        visits(report_of(b, base, off)) == seq![off],
        node_scan(b, base, off).visit.unwrap().block_offset == off,
{
    let scan = node_scan(b, base, off);
    assert(node_events(scan) =~= report_of(b, base, off));
    let head = seq![ScanEvent::Node(scan.visit.unwrap())];
    let tail = Seq::new(scan.found.len(), |i: int| ScanEvent::Ptr(scan.found[i]));
    lemma_no_visits(head, tail);
    assert(head.drop_last() =~= Seq::empty());
    assert(visits(Seq::<ScanEvent>::empty()) =~= Seq::empty());
    assert(visits(head) =~= seq![off]);
}

proof fn lemma_no_visits(head: Seq<ScanEvent>, tail: Seq<ScanEvent>)
    requires
        forall|i: int| 0 <= i < tail.len() ==> (#[trigger] tail[i]) is Ptr,
    ensures
        visits(head + tail) == visits(head),
    decreases tail.len(),
{
    if tail.len() == 0 {
        assert(head + tail =~= head);
    } else {
        assert((head + tail).drop_last() =~= head + tail.drop_last());
        assert(tail[tail.len() - 1] is Ptr);
        lemma_no_visits(head, tail.drop_last());
    }
}

proof fn lemma_visits_join(a: Seq<ScanEvent>, b: Seq<ScanEvent>)
    ensures
        visits(a + b) == visits(a) + visits(b),
    decreases b.len(),
{
    if b.len() == 0 {
        assert(a + b =~= a);
        assert(visits(a) + visits(b) =~= visits(a));
    } else {
        assert((a + b).drop_last() =~= a + b.drop_last());
        lemma_visits_join(a, b.drop_last());
        assert(visits(a + b) =~= visits(a) + visits(b));
    }
}

proof fn lemma_scan_reports(b: Seq<u8>, base: u64, stack: Seq<u32>, visited: Set<u32>)
    requires
        trie_scan(b, base, stack, visited).1 is None,
    ensures
        ({
            let events = trie_scan(b, base, stack, visited).0;
            events == reports_of(b, base, visits(events))
        }),
    decreases b.len() + 1 - visited.len(),
{
    let (events, stop) = trie_scan(b, base, stack, visited);
    if stack.len() > 0 {
        let off = stack.last();
        let scan = node_scan(b, base, off);
        let stack2 = stack.drop_last() + targets(scan.found);
        let (events2, stop2) = trie_scan(b, base, stack2, visited.insert(off));
        lemma_scan_reports(b, base, stack2, visited.insert(off));
        lemma_node_visit(b, base, off);
        lemma_visits_join(node_events(scan), events2);
        let offs = visits(events);
        assert(offs =~= seq![off] + visits(events2));
        assert(offs.skip(1) =~= visits(events2));
        assert(offs[0] == off);
    } else {
        assert(visits(events) =~= Seq::empty());
        assert(events =~= Seq::empty());
    }
}

/// A scan that succeeds reports, of every node that it visits, the node and then all its pointers,
/// and nothing else.
pub proof fn law_scan_reports_every_pointer(b: Seq<u8>, base: u64)
    requires
        block_scan(b, base).1 is None,
    ensures
        block_scan(b, base).0 == reports_of(b, base, visits(block_scan(b, base).0)),
{
    lemma_scan_reports(b, base, seq![36u32], Set::empty());
}

// ---------------------------------------------------------------------------------------
// Early ends
// ---------------------------------------------------------------------------------------
/// The root, and everything that these nodes point to in the block.
pub open spec fn pointed_to(b: Seq<u8>, base: u64, offs: Seq<u32>) -> Seq<u32>
    decreases offs.len(),
{
    if offs.len() == 0 {
        seq![36u32]
    } else {
        pointed_to(b, base, offs.drop_last()) + targets(node_scan(b, base, offs.last()).found)
    }
}

/// Is this a cause for a scan to stop: a node that the scan came to and that cannot be scanned, or,
/// for corruption, a node that is pointed to twice?
pub open spec fn stops_for(b: Seq<u8>, base: u64, offs: Seq<u32>, stop: ScanStop) -> bool {
    ||| exists|i: int|
        0 <= i < pointed_to(b, base, offs).len() && node_scan(
            b,
            base,
            #[trigger] pointed_to(b, base, offs)[i],
        ).stop == Some(stop)
    ||| stop is Corrupt && !pointed_to(b, base, offs).no_duplicates()
}

proof fn lemma_scan_stops(
    b: Seq<u8>,
    base: u64,
    done: Seq<u32>,
    stack: Seq<u32>,
    visited: Set<u32>,
) -> (offs: Seq<u32>)
    requires
        visited == done.to_set(),
        done.no_duplicates(),
        (done + stack).to_multiset() == pointed_to(b, base, done).to_multiset(),
        forall|i: int| 0 <= i < done.len() ==> (#[trigger] done[i]) < b.len(),
        trie_scan(b, base, stack, visited).1 is Some,
    ensures
        stops_for(b, base, offs, trie_scan(b, base, stack, visited).1.unwrap()),
    decreases b.len() + 1 - visited.len(),
{
    broadcast use vstd::seq_lib::group_to_multiset_ensures;

    let off = stack.last();
    let pointed = pointed_to(b, base, done);
    let all = done + stack;
    done.unique_seq_to_set();
    lemma_small_set(done, b.len());
    assert(all[all.len() - 1] == off);
    assert(all.contains(off));
    assert(all.to_multiset().count(off) > 0);
    assert(pointed.contains(off)) by {
        assert(pointed.to_multiset().count(off) > 0);
    }
    if visited.contains(off) {
        assert(done.contains(off));
        let i = choose|i: int| 0 <= i < done.len() && done[i] == off;
        assert(all[i] == off);
        if pointed.no_duplicates() {
            lemma_twice(all, i, all.len() - 1);
            pointed.lemma_multiset_has_no_duplicates();
            assert(pointed.to_multiset().count(off) <= 1);
        }
        done
    } else {
        let scan = node_scan(b, base, off);
        if scan.stop is Some {
            let i = choose|i: int| 0 <= i < pointed.len() && pointed[i] == off;
            assert(node_scan(b, base, pointed_to(b, base, done)[i]).stop == scan.stop);
            done
        } else {
            let stack2 = stack.drop_last() + targets(scan.found);
            let done2 = done.push(off);
            assert(done2.drop_last() =~= done);
            assert(done2.to_set() =~= visited.insert(off)) by {
                assert forall|x: u32| done2.to_set().contains(x) <==> visited.insert(off).contains(
                    x,
                ) by {
                    if done.contains(x) {
                        let i = choose|i: int| 0 <= i < done.len() && done[i] == x;
                        assert(done2[i] == x);
                    }
                    assert(done2[done.len() as int] == off);
                }
            }
            assert((done2 + stack2).to_multiset() == pointed_to(b, base, done2).to_multiset()) by {
                let t = targets(scan.found);
                vstd::seq_lib::lemma_multiset_commutative(done2, stack2);
                vstd::seq_lib::lemma_multiset_commutative(stack.drop_last(), t);
                vstd::seq_lib::lemma_multiset_commutative(pointed, t);
                vstd::seq_lib::lemma_multiset_commutative(done, stack);
                assert(stack =~= stack.drop_last().push(off));
                assert(done.push(off).to_multiset() =~= done.to_multiset().insert(off));
                assert(stack.drop_last().push(off).to_multiset()
                    =~= stack.drop_last().to_multiset().insert(off));
                assert((done2 + stack2).to_multiset() =~= pointed.to_multiset().add(
                    t.to_multiset(),
                ));
            }
            lemma_scan_stops(b, base, done2, stack2, visited.insert(off))
        }
    }
}

/// Different numbers below a bound are at most so many.
proof fn lemma_small_set(s: Seq<u32>, n: nat)
    requires
        s.no_duplicates(),
        forall|i: int| 0 <= i < s.len() ==> (#[trigger] s[i]) < n,
    ensures
        s.len() <= n,
        s.to_set().len() == s.len(),
        s.to_set().finite(),
{
    s.unique_seq_to_set();
    let nums = Seq::new(s.len(), |i: int| s[i] as int);
    assert forall|i: int, j: int|
        0 <= i < nums.len() && 0 <= j < nums.len() && i != j implies nums[i] != nums[j] by {
        assert(s[i] != s[j]);
    }
    nums.unique_seq_to_set();
    vstd::set_lib::lemma_int_range(0, n as int);
    assert(nums.to_set().subset_of(vstd::set_lib::set_int_range(0, n as int)));
    vstd::set_lib::lemma_len_subset(nums.to_set(), vstd::set_lib::set_int_range(0, n as int));
}

/// What stands in two places is counted twice.
proof fn lemma_twice(s: Seq<u32>, i: int, j: int)
    requires
        0 <= i < j < s.len(),
        s[i] == s[j],
    ensures
        s.to_multiset().count(s[i]) >= 2,
{
    broadcast use vstd::seq_lib::group_to_multiset_ensures;

    let a = s.take(j);
    let rest = s.skip(j);
    assert(s =~= a + rest);
    vstd::seq_lib::lemma_multiset_commutative(a, rest);
    assert(a[i] == s[i]);
    assert(a.contains(s[i]));
    assert(rest[0] == s[j]);
    assert(rest.contains(s[j]));
}

/// A scan stops early only for a cause: the block is too short for its header, or the scan came to a
/// node that cannot be scanned, or to one that is pointed to twice.
pub proof fn law_scan_stops_for_a_cause(b: Seq<u8>, base: u64)
    ensures
        block_scan(b, base).1 matches Some(stop) ==> (b.len() < 36 && stop is Corrupt) || exists|
            offs: Seq<u32>,
        | #[trigger]
            stops_for(b, base, offs, stop),
{
    broadcast use vstd::seq_lib::group_to_multiset_ensures;

    if b.len() >= 36 && block_scan(b, base).1 is Some {
        let none = Seq::<u32>::empty();
        let stack = seq![36u32];
        assert(none.to_set() =~= Set::empty());
        assert(none + stack =~= pointed_to(b, base, none));
        let offs = lemma_scan_stops(b, base, none, stack, Set::empty());
        assert(stops_for(b, base, offs, block_scan(b, base).1.unwrap()));
    }
}

} // verus!
