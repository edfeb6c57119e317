//! Byte-level scanner over a single block's encoded trie blob.
//!
//! Walks the trie depth-first from the root and reports, for every reachable [`TriePtr`]
//! embedded in the encoding, the absolute file offset of its 4-byte `ptr` field along with the
//! decoded value. Covers full slots, compressed slots, sparse lists and patch bodies.

use crate::bits::{
    bit_set, bitmap_bit, bitmap_size, get_sparse_ptrs_bitmap_size, slot_count,
    SPARSE_PTR_BITMAP_MARKER,
};
use crate::bytes::from_be32;
use crate::error::{corruption_of, Error, Piece};
use crate::hash::TRIEHASH_ENCODED_SIZE;
use crate::node_id::{clear_compressed, clear_ctrl_bits, is_backptr, is_compressed, TrieNodeID};
use crate::ptr::{
    parse_ptr, parse_ptr_compressed, spec_compressed_size_for_id, TriePtr, TRIEPTR_SIZE,
    TRIEPTR_SIZE_COMPRESSED,
};
use std::collections::HashSet;
use vstd::prelude::*;

verus! {

broadcast use vstd::std_specs::hash::group_hash_axioms;

/// Header bytes preceding the root node in a serialized block trie blob: the parent block hash
/// and a 4-byte zero identifier. The root node's hash starts at exactly this offset.
pub const BLOB_HEADER_SIZE: usize = 36;

/// One scanner event for a visited node. Emitted before any of the node's own [`ScannedPtr`]
/// events.
#[derive(Debug, Clone, Copy, PartialEq, Eq, Structural)]
pub struct NodeVisit {
    /// Offset of the node's hash within the block blob.
    pub block_offset: u32,
    /// Decoded node kind.
    pub node_kind: TrieNodeID,
}

/// One scanner event for a `TriePtr` field embedded in the encoding.
#[derive(Debug, Clone, Copy, PartialEq, Eq, Structural)]
pub struct ScannedPtr {
    /// Absolute file offset of the 4-byte `ptr` field.
    pub ptr_field_file_offset: u64,
    /// The decoded `TriePtr` value.
    pub ptr: TriePtr,
}

/// What the scanner reports, in the order in which it finds it.
#[derive(Debug, Clone, Copy, PartialEq, Eq, Structural)]
pub enum ScanEvent {
    Node(NodeVisit),
    Ptr(ScannedPtr),
}

/// Why a scan stopped early.
#[derive(Debug, Clone, Copy, PartialEq, Eq, Structural)]
pub enum ScanStop {
    /// The encoding is malformed.
    Corrupt,
    /// An offset does not fit in its integer type.
    Overflow,
}

// ---------------------------------------------------------------------------------------
// Model of a scan
// ---------------------------------------------------------------------------------------
/// How the slots of a list are laid out.
pub enum SlotForm {
    /// Ten bytes a slot.
    Full,
    /// Six or ten bytes a slot.
    Dense,
    /// As `Dense`, for the slots whose bit is set only.
    Sparse(Seq<u8>),
}

/// What a run of slots yields.
pub struct ListScan {
    /// The occupied slots, in order.
    pub found: Seq<ScannedPtr>,
    /// Where the next slot would start.
    pub at: int,
    /// Why the run ended early, if it did.
    pub stop: Option<ScanStop>,
}

/// What one node yields.
pub struct NodeScan {
    /// The node itself, where its kind could be read.
    pub visit: Option<NodeVisit>,
    /// The occupied slots, in order.
    pub found: Seq<ScannedPtr>,
    /// Why the node could not be scanned to its end, if so.
    pub stop: Option<ScanStop>,
}

/// The compressed slot at `at`, and its length.
pub open spec fn compressed_slot(b: Seq<u8>, at: int) -> Result<(TriePtr, int), ScanStop> {
    if at + 6 > usize::MAX {
        Err(ScanStop::Overflow)
    } else if b.len() < at + 6 {
        Err(ScanStop::Corrupt)
    } else if at + spec_compressed_size_for_id(clear_compressed(b[at])) > usize::MAX {
        Err(ScanStop::Overflow)
    } else {
        match parse_ptr_compressed(b.skip(at)) {
            Some((p, len)) => Ok((p, len as int)),
            None => Err(ScanStop::Corrupt),
        }
    }
}

/// The full slot at `at`, and its length.
pub open spec fn full_slot(b: Seq<u8>, at: int) -> Result<(TriePtr, int), ScanStop> {
    if at + 10 > usize::MAX {
        Err(ScanStop::Overflow)
    } else if b.len() < at + 10 {
        Err(ScanStop::Corrupt)
    } else {
        Ok((parse_ptr(b.skip(at)), 10))
    }
}

/// The slot at `at`, and its length.
pub open spec fn slot_at(form: SlotForm, b: Seq<u8>, at: int) -> Result<(TriePtr, int), ScanStop> {
    if form is Full {
        full_slot(b, at)
    } else {
        compressed_slot(b, at)
    }
}

/// What is reported of a slot at `at`: nothing for an unoccupied one. The `ptr` field sits two
/// bytes into the slot in every layout.
pub open spec fn report(base: u64, at: int, p: TriePtr) -> Result<Option<ScannedPtr>, ScanStop> {
    if p.is_empty() {
        Ok(None)
    } else if at + 2 > usize::MAX || base + at + 2 > u64::MAX {
        Err(ScanStop::Overflow)
    } else {
        Ok(Some(ScannedPtr { ptr_field_file_offset: (base + at + 2) as u64, ptr: p }))
    }
}

/// What the first `n` slots of the list at `start` yield.
pub open spec fn list_scan(form: SlotForm, b: Seq<u8>, base: u64, start: int, n: nat) -> ListScan
    decreases n,
{
    if n == 0 {
        ListScan { found: Seq::empty(), at: start, stop: None }
    } else {
        let prev = list_scan(form, b, base, start, (n - 1) as nat);
        let absent = form matches SlotForm::Sparse(bm) && !bit_set(bm, n - 1);
        if prev.stop is Some || absent {
            prev
        } else {
            match slot_at(form, b, prev.at) {
                Err(e) => ListScan { found: prev.found, at: prev.at, stop: Some(e) },
                Ok((p, len)) => match report(base, prev.at, p) {
                    Err(e) => ListScan { found: prev.found, at: prev.at, stop: Some(e) },
                    Ok(None) => ListScan { found: prev.found, at: prev.at + len, stop: None },
                    Ok(Some(sp)) => ListScan {
                        found: prev.found.push(sp),
                        at: prev.at + len,
                        stop: None,
                    },
                },
            }
        }
    }
}

/// What the body of a patch at `body` yields: the base pointer, then the diff pointers, whose
/// count less one is the byte between them.
pub open spec fn patch_scan(b: Seq<u8>, base: u64, body: int) -> ListScan {
    let first = list_scan(SlotForm::Dense, b, base, body + 1, 1);
    if first.stop is Some {
        first
    } else if first.at >= b.len() {
        ListScan { found: first.found, at: first.at, stop: Some(ScanStop::Corrupt) }
    } else {
        let rest = list_scan(SlotForm::Dense, b, base, first.at + 1, b[first.at] as nat + 1);
        ListScan { found: first.found + rest.found, at: rest.at, stop: rest.stop }
    }
}

/// What the body at `body` of a node with slots yields.
pub open spec fn normal_scan(b: Seq<u8>, base: u64, body: int) -> ListScan {
    let id = b[body];
    let n = slot_count(id);
    if !is_compressed(id) {
        list_scan(SlotForm::Full, b, base, body + 1, n)
    } else if body + 1 >= b.len() {
        ListScan { found: Seq::empty(), at: body + 1, stop: Some(ScanStop::Corrupt) }
    } else if b[body + 1] == SPARSE_PTR_BITMAP_MARKER {
        let size = bitmap_size(id).unwrap();
        if body + 2 + size > usize::MAX {
            ListScan { found: Seq::empty(), at: body + 2, stop: Some(ScanStop::Overflow) }
        } else if body + 2 + size > b.len() {
            ListScan { found: Seq::empty(), at: body + 2, stop: Some(ScanStop::Corrupt) }
        } else {
            let bm = b.subrange(body + 2, body + 2 + size);
            list_scan(SlotForm::Sparse(bm), b, base, body + 2 + size, n)
        }
    } else {
        list_scan(SlotForm::Dense, b, base, body + 1, n)
    }
}

/// What the node whose hash is at `off` yields. Its body starts after the hash.
pub open spec fn node_scan(b: Seq<u8>, base: u64, off: u32) -> NodeScan {
    let body = off + 32;
    if body > usize::MAX {
        NodeScan { visit: None, found: Seq::empty(), stop: Some(ScanStop::Overflow) }
    } else if body >= b.len() {
        NodeScan { visit: None, found: Seq::empty(), stop: Some(ScanStop::Corrupt) }
    } else {
        match TrieNodeID::spec_from_u8(clear_ctrl_bits(b[body])) {
            None => NodeScan { visit: None, found: Seq::empty(), stop: Some(ScanStop::Corrupt) },
            Some(kind) => {
                let visit = Some(NodeVisit { block_offset: off, node_kind: kind });
                match kind {
                    TrieNodeID::Leaf | TrieNodeID::LeafSquashed | TrieNodeID::Empty => NodeScan {
                        visit,
                        found: Seq::empty(),
                        stop: None,
                    },
                    TrieNodeID::Patch => {
                        let scan = patch_scan(b, base, body);
                        NodeScan { visit, found: scan.found, stop: scan.stop }
                    },
                    _ => {
                        let scan = normal_scan(b, base, body);
                        NodeScan { visit, found: scan.found, stop: scan.stop }
                    },
                }
            },
        }
    }
}

/// Does the pointer lead to a node in the same block?
pub open spec fn in_block(p: TriePtr) -> bool {
    !is_backptr(p.id) && p.back_block == 0
}

/// The nodes in the same block that the pointers lead to, in order.
pub open spec fn targets(found: Seq<ScannedPtr>) -> Seq<u32>
    decreases found.len(),
{
    if found.len() == 0 {
        Seq::empty()
    } else if in_block(found.last().ptr) {
        targets(found.drop_last()).push(found.last().ptr.ptr)
    } else {
        targets(found.drop_last())
    }
}

/// The pointers as events.
pub open spec fn ptr_events(found: Seq<ScannedPtr>) -> Seq<ScanEvent> {
    found.map_values(|sp: ScannedPtr| ScanEvent::Ptr(sp))
}

/// The events of one node: the visit, then its pointers.
pub open spec fn node_events(scan: NodeScan) -> Seq<ScanEvent> {
    match scan.visit {
        None => Seq::empty(),
        Some(v) => seq![ScanEvent::Node(v)] + ptr_events(scan.found),
    }
}

/// A walk that has still to visit the nodes on `stack` (the last one first) and has visited
/// `visited`: the events it will report, and why it ends early, if it does. Coming to a node a
/// second time is corruption.
pub open spec fn trie_scan(b: Seq<u8>, base: u64, stack: Seq<u32>, visited: Set<u32>) -> (
    Seq<ScanEvent>,
    Option<ScanStop>,
)
    decreases b.len() + 1 - visited.len(),
{
    if stack.len() == 0 {
        (Seq::empty(), None)
    } else if visited.contains(stack.last()) || visited.len() > b.len() || !visited.finite() {
        (Seq::empty(), Some(ScanStop::Corrupt))
    } else {
        let off = stack.last();
        let scan = node_scan(b, base, off);
        if scan.stop is Some {
            (node_events(scan), scan.stop)
        } else {
            let (events, stop) = trie_scan(
                b,
                base,
                stack.drop_last() + targets(scan.found),
                visited.insert(off),
            );
            (node_events(scan) + events, stop)
        }
    }
}

/// The scan of a whole block: from the root, or corruption where not even the header is there.
pub open spec fn block_scan(b: Seq<u8>, base: u64) -> (Seq<ScanEvent>, Option<ScanStop>) {
    if b.len() < BLOB_HEADER_SIZE {
        (Seq::empty(), Some(ScanStop::Corrupt))
    } else {
        trie_scan(b, base, seq![BLOB_HEADER_SIZE as u32], Set::empty())
    }
}

/// The pointer events among `events`.
pub open spec fn scanned_ptrs(events: Seq<ScanEvent>) -> Seq<ScannedPtr>
    decreases events.len(),
{
    if events.len() == 0 {
        Seq::empty()
    } else {
        match events.last() {
            ScanEvent::Ptr(sp) => scanned_ptrs(events.drop_last()).push(sp),
            ScanEvent::Node(_) => scanned_ptrs(events.drop_last()),
        }
    }
}

/// Does the result tell how the scan ended?
pub open spec fn tells<T>(r: Result<T, Error>, stop: Option<ScanStop>) -> bool {
    match stop {
        None => r is Ok,
        Some(ScanStop::Corrupt) => r matches Err(e) && e is CorruptionError,
        Some(ScanStop::Overflow) => r matches Err(e) && e is OverflowError,
    }
}

// ---------------------------------------------------------------------------------------
// Facts about the model
// ---------------------------------------------------------------------------------------
proof fn lemma_stop_persists(form: SlotForm, b: Seq<u8>, base: u64, start: int, k: nat, n: nat)
    requires
        k <= n,
        list_scan(form, b, base, start, k).stop is Some,
    ensures
        list_scan(form, b, base, start, n) == list_scan(form, b, base, start, k),
    decreases n,
{
    if k < n {
        lemma_stop_persists(form, b, base, start, k, (n - 1) as nat);
    }
}

proof fn lemma_targets_concat(a: Seq<ScannedPtr>, b: Seq<ScannedPtr>)
    ensures
        targets(a + b) == targets(a) + targets(b),
        ptr_events(a + b) == ptr_events(a) + ptr_events(b),
    decreases b.len(),
{
    if b.len() == 0 {
        assert(a + b =~= a);
        assert(targets(a) + targets(b) =~= targets(a));
    } else {
        assert((a + b).drop_last() =~= a + b.drop_last());
        lemma_targets_concat(a, b.drop_last());
        assert(targets(a + b) =~= targets(a) + targets(b));
    }
    assert(ptr_events(a + b) =~= ptr_events(a) + ptr_events(b));
}

proof fn lemma_bounded_set(s: Set<u32>, n: nat)
    requires
        s.finite(),
        forall|x: u32| #[trigger] s.contains(x) ==> x < n,
    ensures
        s.len() <= n,
    decreases n,
{
    if n == 0 {
        assert(s =~= Set::empty());
    } else if n - 1 <= u32::MAX && s.contains((n - 1) as u32) {
        let t = s.remove((n - 1) as u32);
        assert forall|x: u32| #[trigger] t.contains(x) implies x < n - 1 by {
            assert(s.contains(x));
        }
        lemma_bounded_set(t, (n - 1) as nat);
    } else {
        assert forall|x: u32| #[trigger] s.contains(x) implies x < n - 1 by {}
        lemma_bounded_set(s, (n - 1) as nat);
    }
}

/// Does the reported offset lead to the four bytes that spell the reported pointer?
pub open spec fn field_holds(b: Seq<u8>, base: u64, sp: ScannedPtr) -> bool {
    let at = sp.ptr_field_file_offset - base;
    &&& 0 <= at
    &&& at + 4 <= b.len()
    &&& from_be32(b.subrange(at, at + 4)) == sp.ptr.ptr
    &&& !sp.ptr.is_empty()
}

proof fn lemma_list_fields(form: SlotForm, b: Seq<u8>, base: u64, start: int, n: nat)
    requires
        0 <= start,
    ensures
        list_scan(form, b, base, start, n).at >= start,
        forall|i: int|
            0 <= i < list_scan(form, b, base, start, n).found.len() ==> field_holds(
                b,
                base,
                #[trigger] list_scan(form, b, base, start, n).found[i],
            ),
    decreases n,
{
    if n > 0 {
        lemma_list_fields(form, b, base, start, (n - 1) as nat);
        let prev = list_scan(form, b, base, start, (n - 1) as nat);
        let now = list_scan(form, b, base, start, n);
        if now.found.len() > prev.found.len() {
            let sp = now.found.last();
            let (p, len) = slot_at(form, b, prev.at).unwrap();
            let slot = b.skip(prev.at);
            assert(slot.subrange(2, 6) =~= b.subrange(prev.at + 2, prev.at + 6));
            assert(field_holds(b, base, sp));
        }
    }
}

/// Every reported offset is the offset of the four bytes that spell the reported pointer:
/// writing a new value over them redirects exactly that pointer.
pub proof fn law_scanned_fields(b: Seq<u8>, base: u64, off: u32)
    ensures
        forall|i: int|
            0 <= i < node_scan(b, base, off).found.len() ==> field_holds(
                b,
                base,
                #[trigger] node_scan(b, base, off).found[i],
            ),
{
    let body = off + 32;
    let id = b[body];
    lemma_list_fields(SlotForm::Full, b, base, body + 1, slot_count(id));
    lemma_list_fields(SlotForm::Dense, b, base, body + 1, slot_count(id));
    lemma_list_fields(SlotForm::Dense, b, base, body + 1, 1);
    let first = list_scan(SlotForm::Dense, b, base, body + 1, 1);
    lemma_list_fields(SlotForm::Dense, b, base, first.at + 1, b[first.at] as nat + 1);
    if let Some(size) = bitmap_size(id) {
        let bm = b.subrange(body + 2, body + 2 + size);
        lemma_list_fields(SlotForm::Sparse(bm), b, base, body + 2 + size, slot_count(id));
    }
}

/// The nodes that a walk visits.
pub open spec fn visits(events: Seq<ScanEvent>) -> Seq<u32>
    decreases events.len(),
{
    if events.len() == 0 {
        Seq::empty()
    } else {
        match events.last() {
            ScanEvent::Node(v) => visits(events.drop_last()).push(v.block_offset),
            ScanEvent::Ptr(_) => visits(events.drop_last()),
        }
    }
}

proof fn lemma_visits_concat(a: Seq<ScanEvent>, b: Seq<ScanEvent>)
    ensures
        visits(a + b) == visits(a) + visits(b),
    decreases b.len(),
{
    if b.len() == 0 {
        assert(a + b =~= a);
        assert(visits(a) + visits(b) =~= visits(a));
    } else {
        assert((a + b).drop_last() =~= a + b.drop_last());
        lemma_visits_concat(a, b.drop_last());
        assert(visits(a + b) =~= visits(a) + visits(b));
    }
}

proof fn lemma_ptr_events_visit_nothing(found: Seq<ScannedPtr>)
    ensures
        visits(ptr_events(found)) == Seq::<u32>::empty(),
    decreases found.len(),
{
    if found.len() > 0 {
        assert(ptr_events(found).drop_last() =~= ptr_events(found.drop_last()));
        lemma_ptr_events_visit_nothing(found.drop_last());
    }
}

proof fn lemma_node_events_visits(scan: NodeScan)
    ensures
        scan.visit matches Some(v) ==> visits(node_events(scan)) == seq![v.block_offset],
        scan.visit is None ==> visits(node_events(scan)) == Seq::<u32>::empty(),
{
    if let Some(v) = scan.visit {
        let head = seq![ScanEvent::Node(v)];
        lemma_visits_concat(head, ptr_events(scan.found));
        lemma_ptr_events_visit_nothing(scan.found);
        assert(head.drop_last() =~= Seq::empty());
        assert(visits(head.drop_last()) =~= Seq::empty());
        assert(visits(head) =~= seq![v.block_offset]);
        assert(visits(node_events(scan)) =~= seq![v.block_offset]);
    }
}

/// Is `x` a node that the walk reached?
pub open spec fn reached(b: Seq<u8>, base: u64, stack: Seq<u32>, visited: Set<u32>, x: u32) -> bool {
    visited.contains(x) || visits(trie_scan(b, base, stack, visited).0).contains(x)
}

proof fn lemma_walk_complete(b: Seq<u8>, base: u64, stack: Seq<u32>, visited: Set<u32>)
    requires
        trie_scan(b, base, stack, visited).1 is None,
    ensures
        visits(trie_scan(b, base, stack, visited).0).no_duplicates(),
        forall|x: u32|
            visited.contains(x) ==> !(#[trigger] visits(
                trie_scan(b, base, stack, visited).0,
            ).contains(x)),
        forall|x: u32| #[trigger] stack.contains(x) ==> reached(b, base, stack, visited, x),
        forall|x: u32, y: u32|
            #![trigger visits(trie_scan(b, base, stack, visited).0).contains(x), targets(node_scan(b, base, x).found).contains(y)]
            visits(trie_scan(b, base, stack, visited).0).contains(x) && targets(
                node_scan(b, base, x).found,
            ).contains(y) ==> reached(b, base, stack, visited, y),
    decreases b.len() + 1 - visited.len(),
{
    let (events, stop) = trie_scan(b, base, stack, visited);
    if stack.len() > 0 {
        let off = stack.last();
        let scan = node_scan(b, base, off);
        let stack2 = stack.drop_last() + targets(scan.found);
        let visited2 = visited.insert(off);
        let (events2, stop2) = trie_scan(b, base, stack2, visited2);
        lemma_walk_complete(b, base, stack2, visited2);
        lemma_visits_concat(node_events(scan), events2);
        lemma_node_events_visits(scan);
        assert(visits(events) =~= seq![off] + visits(events2));
        assert(visits(events)[0] == off);
        assert(visits(events).contains(off));
        assert(visited2.contains(off));
        assert forall|x: u32| #[trigger] visits(events2).contains(x) implies visits(
            events,
        ).contains(x) by {
            let i = choose|i: int| 0 <= i < visits(events2).len() && visits(events2)[i] == x;
            assert(visits(events)[i + 1] == x);
        }
        assert forall|x: u32| #[trigger] visits(events).contains(x) implies x == off || visits(
            events2,
        ).contains(x) by {
            let i = choose|i: int| 0 <= i < visits(events).len() && visits(events)[i] == x;
            if i > 0 {
                assert(visits(events2)[i - 1] == x);
            }
        }
        assert forall|x: u32| #[trigger] stack.contains(x) implies reached(
            b,
            base,
            stack,
            visited,
            x,
        ) by {
            let i = choose|i: int| 0 <= i < stack.len() && stack[i] == x;
            if i < stack.len() - 1 {
                assert(stack2[i] == x);
                assert(stack2.contains(x));
                assert(reached(b, base, stack2, visited2, x));
            }
        }
        assert forall|x: u32, y: u32|
            #![trigger visits(events).contains(x), targets(node_scan(b, base, x).found).contains(y)]
            visits(events).contains(x) && targets(node_scan(b, base, x).found).contains(
                y,
            ) implies reached(b, base, stack, visited, y) by {
            if x == off {
                let t = targets(scan.found);
                let i = choose|i: int| 0 <= i < t.len() && t[i] == y;
                assert(stack2[stack.len() - 1 + i] == y);
                assert(stack2.contains(y));
                assert(reached(b, base, stack2, visited2, y));
            } else {
                assert(visits(events2).contains(x));
                assert(reached(b, base, stack2, visited2, y));
            }
        }
        assert(visits(events).no_duplicates()) by {
            assert forall|i: int, j: int|
                0 <= i < visits(events).len() && 0 <= j < visits(events).len() && i
                    != j implies visits(events)[i] != visits(events)[j] by {
                if i == 0 {
                    assert(visits(events2)[j - 1] == visits(events)[j]);
                    assert(visits(events2).contains(visits(events)[j]));
                } else if j == 0 {
                    assert(visits(events2)[i - 1] == visits(events)[i]);
                    assert(visits(events2).contains(visits(events)[i]));
                }
            }
        }
        assert forall|x: u32| visited.contains(x) implies !(#[trigger] visits(events).contains(x)) by {
            assert(visited2.contains(x));
        }
    } else {
        assert(visits(events) =~= Seq::empty());
    }
}

/// A scan that succeeds visits the root, visits every node once, and visits every node in the
/// block that a visited node points to.
pub proof fn law_scan_complete(b: Seq<u8>, base: u64)
    requires
        block_scan(b, base).1 is None,
    ensures
        visits(block_scan(b, base).0).contains(36),
        visits(block_scan(b, base).0).no_duplicates(),
        forall|x: u32, y: u32|
            #![trigger visits(block_scan(b, base).0).contains(x), targets(node_scan(b, base, x).found).contains(y)]
            visits(block_scan(b, base).0).contains(x) && targets(
                node_scan(b, base, x).found,
            ).contains(y) ==> visits(block_scan(b, base).0).contains(y),
{
    let stack = seq![36u32];
    lemma_walk_complete(b, base, stack, Set::empty());
    assert(stack[0] == 36);
    assert(stack.contains(36));
    assert(reached(b, base, stack, Set::empty(), 36));
    assert forall|x: u32, y: u32|
        #![trigger visits(block_scan(b, base).0).contains(x), targets(node_scan(b, base, x).found).contains(y)]
        visits(block_scan(b, base).0).contains(x) && targets(
            node_scan(b, base, x).found,
        ).contains(y) implies visits(block_scan(b, base).0).contains(y) by {
        assert(reached(b, base, stack, Set::empty(), y));
    }
}

// ---------------------------------------------------------------------------------------
// Code
// ---------------------------------------------------------------------------------------
/// Walk the trie encoded in `block_bytes` depth-first from the root and append an event for
/// every visited node and every embedded `TriePtr` to `events`.
///
/// `file_base` is the absolute file offset of the first byte. Each visited node is reported
/// before its own pointers. Unoccupied slots are skipped. Only in-block child pointers are
/// followed; back-pointers are reported but not followed.
pub fn scan_block_trie(block_bytes: &[u8], file_base: u64, events: &mut Vec<ScanEvent>) -> (r:
    Result<(), Error>)
    ensures
        tells(r, block_scan(block_bytes@, file_base).1),
        final(events)@ == old(events)@ + block_scan(block_bytes@, file_base).0,
{
    let ghost start = events@;
    if block_bytes.len() < BLOB_HEADER_SIZE {
        assert(events@ =~= start + Seq::empty());
        return Err(
            corruption_of(
                [
                    Piece::Text("byte_scanner: block_bytes too short for blob header ("),
                    Piece::Number(block_bytes.len() as u64),
                    Piece::Text(" < "),
                    Piece::Number(BLOB_HEADER_SIZE as u64),
                    Piece::Text(")"),
                ].as_slice(),
            ),
        );
    }
    let mut stack: Vec<u32> = Vec::new();
    let mut visited: HashSet<u32> = HashSet::new();
    stack.push(BLOB_HEADER_SIZE as u32);
    let ghost total = block_scan(block_bytes@, file_base);
    let ghost mut done: Seq<ScanEvent> = Seq::empty();
    assert(stack@ =~= seq![BLOB_HEADER_SIZE as u32]);
    assert(visited@ =~= Set::empty());
    assert(done + trie_scan(block_bytes@, file_base, stack@, visited@).0 =~= total.0);
    assert(events@ =~= start + done);
    while stack.len() > 0
        invariant
            start == old(events)@,
            total == block_scan(block_bytes@, file_base),
            events@ == start + done,
            total.0 == done + trie_scan(block_bytes@, file_base, stack@, visited@).0,
            total.1 == trie_scan(block_bytes@, file_base, stack@, visited@).1,
            visited@.finite(),
            forall|x: u32| #[trigger] visited@.contains(x) ==> x < block_bytes@.len(),
            visited@.len() <= block_bytes@.len(),
        decreases block_bytes@.len() - visited@.len() + 1,
    {
        let ghost stack0 = stack@;
        let ghost visited0 = visited@;
        let node_offset = match stack.pop() {
            Some(off) => off,
            None => {
                return Ok(());
            },
        };
        let ghost scan = node_scan(block_bytes@, file_base, node_offset);
        let fresh = visited.insert(node_offset);
        if !fresh {
            assert(trie_scan(block_bytes@, file_base, stack0, visited0).0 =~= Seq::empty());
            assert(events@ =~= start + total.0);
            return Err(
                corruption_of(
                    [
                        Piece::Text("byte_scanner: cyclic trie detected — node at offset "),
                        Piece::Number(node_offset as u64),
                        Piece::Text(" visited twice (self-pointer or in-block back-edge in the encoding)"),
                    ].as_slice(),
                ),
            );
        }
        match scan_one_node(block_bytes, file_base, node_offset, events, &mut stack) {
            Ok(()) => {
                proof {
                    assert(scan.visit is Some);
                    assert(visited@ =~= visited0.insert(node_offset));
                    assert forall|x: u32| #[trigger] visited@.contains(x) implies x
                        < block_bytes@.len() by {
                        assert(x == node_offset || visited0.contains(x));
                    }
                    lemma_bounded_set(visited@, block_bytes@.len());
                    done = done + node_events(scan);
                    assert(events@ =~= start + done);
                    assert(total.0 =~= done + trie_scan(
                        block_bytes@,
                        file_base,
                        stack@,
                        visited@,
                    ).0);
                }
            },
            Err(e) => {
                assert(events@ =~= start + total.0);
                return Err(e);
            },
        }
    }
    assert(trie_scan(block_bytes@, file_base, stack@, visited@).0 =~= Seq::empty());
    assert(events@ =~= start + total.0);
    Ok(())
}

/// As [`scan_block_trie`], but append the pointers alone.
pub fn scan_serialized_trie_ptr_fields(
    block_bytes: &[u8],
    file_base: u64,
    out: &mut Vec<ScannedPtr>,
) -> (r: Result<(), Error>)
    ensures
        tells(r, block_scan(block_bytes@, file_base).1),
        final(out)@ == old(out)@ + scanned_ptrs(block_scan(block_bytes@, file_base).0),
{
    let ghost start = out@;
    let mut events: Vec<ScanEvent> = Vec::new();
    let r = scan_block_trie(block_bytes, file_base, &mut events);
    assert(events@ =~= block_scan(block_bytes@, file_base).0);
    let mut i: usize = 0;
    assert(out@ =~= start + scanned_ptrs(events@.take(0)));
    while i < events.len()
        invariant
            i <= events@.len(),
            out@ == start + scanned_ptrs(events@.take(i as int)),
        decreases events@.len() - i,
    {
        let ghost nxt = events@.take(i + 1);
        assert(nxt.drop_last() =~= events@.take(i as int));
        match events[i] {
            ScanEvent::Ptr(sp) => {
                out.push(sp);
            },
            ScanEvent::Node(_) => {},
        }
        assert(out@ =~= start + scanned_ptrs(nxt));
        i += 1;
    }
    assert(events@.take(i as int) =~= events@);
    r
}

/// Scan a single node at `node_offset` (offset of its hash), appending its events and pushing
/// any in-block child offsets onto `stack`.
fn scan_one_node(
    block_bytes: &[u8],
    file_base: u64,
    node_offset: u32,
    events: &mut Vec<ScanEvent>,
    stack: &mut Vec<u32>,
) -> (r: Result<(), Error>)
    ensures
        tells(r, node_scan(block_bytes@, file_base, node_offset).stop),
        final(events)@ == old(events)@ + node_events(
            node_scan(block_bytes@, file_base, node_offset),
        ),
        final(stack)@ == old(stack)@ + targets(
            node_scan(block_bytes@, file_base, node_offset).found,
        ),
        r is Ok ==> node_offset < block_bytes@.len() && node_scan(
            block_bytes@,
            file_base,
            node_offset,
        ).visit is Some,
{
    let ghost scan = node_scan(block_bytes@, file_base, node_offset);
    let ghost events0 = events@;
    let ghost stack0 = stack@;
    assert(stack@ =~= stack0 + targets(Seq::empty()));
    assert(events@ =~= events0 + Seq::empty());
    let body_offset = match (node_offset as usize).checked_add(TRIEHASH_ENCODED_SIZE) {
        Some(x) => x,
        None => {
            return Err(Error::OverflowError);
        },
    };
    if body_offset >= block_bytes.len() {
        return Err(
            corruption_of(
                [
                    Piece::Text("byte_scanner: node body at "),
                    Piece::Number(body_offset as u64),
                    Piece::Text(" runs past EOF (len="),
                    Piece::Number(block_bytes.len() as u64),
                    Piece::Text(")"),
                ].as_slice(),
            ),
        );
    }
    let id_byte = block_bytes[body_offset];
    let node_kind = match TrieNodeID::from_u8(clear_ctrl_bits(id_byte)) {
        Some(kind) => kind,
        None => {
            return Err(
                corruption_of(
                    [
                        Piece::Text("byte_scanner: invalid node ID 0x"),
                        Piece::Hex(id_byte),
                        Piece::Text(" at offset "),
                        Piece::Number(body_offset as u64),
                    ].as_slice(),
                ),
            );
        },
    };
    events.push(ScanEvent::Node(NodeVisit { block_offset: node_offset, node_kind }));
    assert(events@ =~= events0 + (seq![ScanEvent::Node(scan.visit.unwrap())] + ptr_events(
        Seq::empty(),
    )));
    let r = match node_kind {
        TrieNodeID::Leaf | TrieNodeID::LeafSquashed | TrieNodeID::Empty => {
            // Leaves carry no embedded pointers. `Empty` shouldn't occur as a stored node, but
            // it has no children either.
            Ok(())
        },
        TrieNodeID::Patch => scan_patch_body(block_bytes, file_base, body_offset, events, stack),
        TrieNodeID::Node4 | TrieNodeID::Node16 | TrieNodeID::Node48 | TrieNodeID::Node256 => {
            scan_normal_node_body(
                block_bytes,
                file_base,
                body_offset,
                id_byte,
                node_kind,
                events,
                stack,
            )
        },
    };
    assert(events@ =~= events0 + node_events(scan));
    r
}

/// Scan the body of a node with slots, dispatching by the layout signaled in the id byte.
#[verifier::rlimit(40)]
fn scan_normal_node_body(
    block_bytes: &[u8],
    file_base: u64,
    body_offset: usize,
    id_byte: u8,
    node_kind: TrieNodeID,
    events: &mut Vec<ScanEvent>,
    stack: &mut Vec<u32>,
) -> (r: Result<(), Error>)
    requires
        body_offset < block_bytes@.len(),
        id_byte == block_bytes@[body_offset as int],
        TrieNodeID::spec_from_u8(clear_ctrl_bits(id_byte)) == Some(node_kind),
        bitmap_size(id_byte) is Some,
    ensures
        tells(r, normal_scan(block_bytes@, file_base, body_offset as int).stop),
        final(events)@ == old(events)@ + ptr_events(
            normal_scan(block_bytes@, file_base, body_offset as int).found,
        ),
        final(stack)@ == old(stack)@ + targets(
            normal_scan(block_bytes@, file_base, body_offset as int).found,
        ),
{
    let ghost events0 = events@;
    let ghost stack0 = stack@;
    assert(events@ =~= events0 + ptr_events(Seq::empty()));
    assert(stack@ =~= stack0 + targets(Seq::empty()));
    let count = node_slot_count(node_kind);
    let len = block_bytes.len();
    let ptrs_start = body_offset + 1;
    if !is_compressed(id_byte) {
        return scan_uncompressed_dense_ptrs(
            block_bytes,
            file_base,
            ptrs_start,
            count,
            events,
            stack,
        );
    }
    // Compressed: the first byte of the pointer list tells sparse from dense.
    if ptrs_start >= len {
        return Err(
            corruption_of(
                [
                    Piece::Text("byte_scanner: compressed ptr list at "),
                    Piece::Number(ptrs_start as u64),
                    Piece::Text(" runs past EOF"),
                ].as_slice(),
            ),
        );
    }
    if block_bytes[ptrs_start] == SPARSE_PTR_BITMAP_MARKER {
        let size = match get_sparse_ptrs_bitmap_size(id_byte) {
            Some(size) => size,
            None => {
                return Err(
                    corruption_of(
                        [
                            Piece::Text("byte_scanner: no bitmap size defined for node id 0x"),
                            Piece::Hex(id_byte),
                        ].as_slice(),
                    ),
                );
            },
        };
        let bitmap_start = ptrs_start + 1;
        let ptrs_after_bitmap = match bitmap_start.checked_add(size) {
            Some(x) => x,
            None => {
                return Err(Error::OverflowError);
            },
        };
        if ptrs_after_bitmap > len {
            return Err(
                corruption_of(
                    [
                        Piece::Text("byte_scanner: sparse bitmap at "),
                        Piece::Number(bitmap_start as u64),
                        Piece::Text(".."),
                        Piece::Number(ptrs_after_bitmap as u64),
                        Piece::Text(" runs past EOF (block_len="),
                        Piece::Number(len as u64),
                        Piece::Text(")"),
                    ].as_slice(),
                ),
            );
        }
        let bm = vstd::slice::slice_subrange(block_bytes, bitmap_start, ptrs_after_bitmap);
        return scan_sparse_compressed_ptrs(
            block_bytes,
            file_base,
            ptrs_after_bitmap,
            bm,
            count,
            events,
            stack,
        );
    }
    match scan_dense_compressed_ptrs(block_bytes, file_base, ptrs_start, count, events, stack) {
        Ok(_) => Ok(()),
        Err(e) => Err(e),
    }
}

/// Scan `count` full slots. Unoccupied slots are not reported but still take their bytes.
fn scan_uncompressed_dense_ptrs(
    block_bytes: &[u8],
    file_base: u64,
    ptrs_start: usize,
    count: usize,
    events: &mut Vec<ScanEvent>,
    stack: &mut Vec<u32>,
) -> (r: Result<(), Error>)
    requires
        ptrs_start <= block_bytes@.len(),
    ensures
        ({
            let scan = list_scan(
                SlotForm::Full,
                block_bytes@,
                file_base,
                ptrs_start as int,
                count as nat,
            );
            &&& tells(r, scan.stop)
            &&& final(events)@ == old(events)@ + ptr_events(scan.found)
            &&& final(stack)@ == old(stack)@ + targets(scan.found)
        }),
{
    let ghost events0 = events@;
    let ghost stack0 = stack@;
    let ghost b = block_bytes@;
    let len = block_bytes.len();
    let mut cursor: usize = ptrs_start;
    let mut i: usize = 0;
    assert(events@ =~= events0 + ptr_events(Seq::empty()));
    assert(stack@ =~= stack0 + targets(Seq::empty()));
    while i < count
        invariant
            i <= count,
            b == block_bytes@,
            cursor <= b.len(),
            b.len() <= usize::MAX,
            events0 == old(events)@,
            stack0 == old(stack)@,
            ({
                let scan = list_scan(SlotForm::Full, b, file_base, ptrs_start as int, i as nat);
                &&& scan.stop is None
                &&& scan.at == cursor
                &&& events@ == events0 + ptr_events(scan.found)
                &&& stack@ == stack0 + targets(scan.found)
            }),
        decreases count - i,
    {
        let ghost nxt = list_scan(SlotForm::Full, b, file_base, ptrs_start as int, (i + 1) as nat);
        proof {
            if nxt.stop is Some {
                lemma_stop_persists(
                    SlotForm::Full,
                    b,
                    file_base,
                    ptrs_start as int,
                    (i + 1) as nat,
                    count as nat,
                );
            }
        }
        let end = match cursor.checked_add(TRIEPTR_SIZE) {
            Some(x) => x,
            None => {
                return Err(Error::OverflowError);
            },
        };
        if end > block_bytes.len() {
            return Err(
                corruption_of(
                    [
                        Piece::Text("byte_scanner: uncompressed ptr at "),
                        Piece::Number(cursor as u64),
                        Piece::Text(".."),
                        Piece::Number(end as u64),
                        Piece::Text(" runs past EOF"),
                    ].as_slice(),
                ),
            );
        }
        let slot = vstd::slice::slice_subrange(block_bytes, cursor, block_bytes.len());
        assert(slot@ =~= b.skip(cursor as int));
        let ptr = TriePtr::from_bytes(slot);
        match emit_ptr_and_maybe_recurse(file_base, cursor, &ptr, events, stack) {
            Ok(()) => {},
            Err(e) => {
                return Err(e);
            },
        }
        proof {
            let prev = list_scan(SlotForm::Full, b, file_base, ptrs_start as int, i as nat);
            if nxt.found != prev.found {
                assert(nxt.found.drop_last() =~= prev.found);
            }
            assert(events@ =~= events0 + ptr_events(nxt.found));
            assert(stack@ =~= stack0 + targets(nxt.found));
        }
        cursor = end;
        i += 1;
    }
    Ok(())
}

/// Scan `count` compressed slots. Returns where the list ends.
fn scan_dense_compressed_ptrs(
    block_bytes: &[u8],
    file_base: u64,
    ptrs_start: usize,
    count: usize,
    events: &mut Vec<ScanEvent>,
    stack: &mut Vec<u32>,
) -> (r: Result<usize, Error>)
    requires
        ptrs_start <= block_bytes@.len(),
    ensures
        ({
            let scan = list_scan(
                SlotForm::Dense,
                block_bytes@,
                file_base,
                ptrs_start as int,
                count as nat,
            );
            &&& tells(r, scan.stop)
            &&& r matches Ok(end) ==> end == scan.at && end <= block_bytes@.len()
            &&& final(events)@ == old(events)@ + ptr_events(scan.found)
            &&& final(stack)@ == old(stack)@ + targets(scan.found)
        }),
{
    let ghost events0 = events@;
    let ghost stack0 = stack@;
    let ghost b = block_bytes@;
    let len = block_bytes.len();
    let mut cursor: usize = ptrs_start;
    let mut i: usize = 0;
    assert(events@ =~= events0 + ptr_events(Seq::empty()));
    assert(stack@ =~= stack0 + targets(Seq::empty()));
    while i < count
        invariant
            i <= count,
            b == block_bytes@,
            cursor <= b.len(),
            b.len() <= usize::MAX,
            events0 == old(events)@,
            stack0 == old(stack)@,
            ({
                let scan = list_scan(SlotForm::Dense, b, file_base, ptrs_start as int, i as nat);
                &&& scan.stop is None
                &&& scan.at == cursor
                &&& events@ == events0 + ptr_events(scan.found)
                &&& stack@ == stack0 + targets(scan.found)
            }),
        decreases count - i,
    {
        let ghost nxt = list_scan(SlotForm::Dense, b, file_base, ptrs_start as int, (i + 1) as nat);
        proof {
            if nxt.stop is Some {
                lemma_stop_persists(
                    SlotForm::Dense,
                    b,
                    file_base,
                    ptrs_start as int,
                    (i + 1) as nat,
                    count as nat,
                );
            }
        }
        let (ptr, len) = match decode_compressed_ptr_at(block_bytes, cursor) {
            Ok(x) => x,
            Err(e) => {
                return Err(e);
            },
        };
        match emit_ptr_and_maybe_recurse(file_base, cursor, &ptr, events, stack) {
            Ok(()) => {},
            Err(e) => {
                return Err(e);
            },
        }
        proof {
            let prev = list_scan(SlotForm::Dense, b, file_base, ptrs_start as int, i as nat);
            if nxt.found != prev.found {
                assert(nxt.found.drop_last() =~= prev.found);
            }
            assert(events@ =~= events0 + ptr_events(nxt.found));
            assert(stack@ =~= stack0 + targets(nxt.found));
        }
        cursor = cursor + len;
        i += 1;
    }
    Ok(cursor)
}

/// Scan a sparse list: only the slots whose bit is set are stored, in slot order. Bits past
/// `count` are padding.
#[verifier::rlimit(40)]
fn scan_sparse_compressed_ptrs(
    block_bytes: &[u8],
    file_base: u64,
    ptrs_start: usize,
    bm: &[u8],
    count: usize,
    events: &mut Vec<ScanEvent>,
    stack: &mut Vec<u32>,
) -> (r: Result<(), Error>)
    requires
        ptrs_start <= block_bytes@.len(),
        count <= 8 * bm@.len(),
    ensures
        ({
            let scan = list_scan(
                SlotForm::Sparse(bm@),
                block_bytes@,
                file_base,
                ptrs_start as int,
                count as nat,
            );
            &&& tells(r, scan.stop)
            &&& final(events)@ == old(events)@ + ptr_events(scan.found)
            &&& final(stack)@ == old(stack)@ + targets(scan.found)
        }),
{
    let ghost events0 = events@;
    let ghost stack0 = stack@;
    let ghost b = block_bytes@;
    let ghost form = SlotForm::Sparse(bm@);
    let len = block_bytes.len();
    let mut cursor: usize = ptrs_start;
    let mut i: usize = 0;
    assert(events@ =~= events0 + ptr_events(Seq::empty()));
    assert(stack@ =~= stack0 + targets(Seq::empty()));
    while i < count
        invariant
            i <= count,
            count <= 8 * bm@.len(),
            b == block_bytes@,
            form == SlotForm::Sparse(bm@),
            cursor <= b.len(),
            b.len() <= usize::MAX,
            events0 == old(events)@,
            stack0 == old(stack)@,
            ({
                let scan = list_scan(form, b, file_base, ptrs_start as int, i as nat);
                &&& scan.stop is None
                &&& scan.at == cursor
                &&& events@ == events0 + ptr_events(scan.found)
                &&& stack@ == stack0 + targets(scan.found)
            }),
        decreases count - i,
    {
        let ghost nxt = list_scan(form, b, file_base, ptrs_start as int, (i + 1) as nat);
        proof {
            if nxt.stop is Some {
                lemma_stop_persists(
                    form,
                    b,
                    file_base,
                    ptrs_start as int,
                    (i + 1) as nat,
                    count as nat,
                );
            }
        }
        if bitmap_bit(bm, i) {
            let (ptr, len) = match decode_compressed_ptr_at(block_bytes, cursor) {
                Ok(x) => x,
                Err(e) => {
                    return Err(e);
                },
            };
            match emit_ptr_and_maybe_recurse(file_base, cursor, &ptr, events, stack) {
                Ok(()) => {},
                Err(e) => {
                    return Err(e);
                },
            }
            cursor = cursor + len;
        }
        proof {
            let prev = list_scan(form, b, file_base, ptrs_start as int, i as nat);
            if nxt.found != prev.found {
                assert(nxt.found.drop_last() =~= prev.found);
            }
            assert(events@ =~= events0 + ptr_events(nxt.found));
            assert(stack@ =~= stack0 + targets(nxt.found));
        }
        i += 1;
    }
    Ok(())
}

/// Scan a patch body: id byte, compressed base pointer, count of diffs less one, compressed
/// diff pointers.
#[verifier::rlimit(40)]
fn scan_patch_body(
    block_bytes: &[u8],
    file_base: u64,
    body_offset: usize,
    events: &mut Vec<ScanEvent>,
    stack: &mut Vec<u32>,
) -> (r: Result<(), Error>)
    requires
        body_offset < block_bytes@.len(),
    ensures
        tells(r, patch_scan(block_bytes@, file_base, body_offset as int).stop),
        final(events)@ == old(events)@ + ptr_events(
            patch_scan(block_bytes@, file_base, body_offset as int).found,
        ),
        final(stack)@ == old(stack)@ + targets(
            patch_scan(block_bytes@, file_base, body_offset as int).found,
        ),
{
    let ghost events0 = events@;
    let ghost stack0 = stack@;
    let ghost first = list_scan(
        SlotForm::Dense,
        block_bytes@,
        file_base,
        body_offset + 1,
        1,
    );
    let len = block_bytes.len();
    let diff_len_offset = match scan_dense_compressed_ptrs(
        block_bytes,
        file_base,
        body_offset + 1,
        1,
        events,
        stack,
    ) {
        Ok(at) => at,
        Err(e) => {
            return Err(e);
        },
    };
    if diff_len_offset >= len {
        return Err(
            corruption_of(
                [
                    Piece::Text("byte_scanner: patch diff_len byte at "),
                    Piece::Number(diff_len_offset as u64),
                    Piece::Text(" runs past EOF"),
                ].as_slice(),
            ),
        );
    }
    // The wire format stores one less than the count.
    let diff_count = block_bytes[diff_len_offset] as usize + 1;
    let ghost rest = list_scan(
        SlotForm::Dense,
        block_bytes@,
        file_base,
        diff_len_offset + 1,
        diff_count as nat,
    );
    let r = scan_dense_compressed_ptrs(
        block_bytes,
        file_base,
        diff_len_offset + 1,
        diff_count,
        events,
        stack,
    );
    proof {
        lemma_targets_concat(first.found, rest.found);
        assert(events@ =~= events0 + ptr_events(first.found + rest.found));
        assert(stack@ =~= stack0 + targets(first.found + rest.found));
    }
    match r {
        Ok(_) => Ok(()),
        Err(e) => Err(e),
    }
}

/// Decode the compressed pointer whose first byte is at `at`. Returns it with its length.
fn decode_compressed_ptr_at(block_bytes: &[u8], at: usize) -> (r: Result<(TriePtr, usize), Error>)
    requires
        at <= block_bytes@.len(),
    ensures
        r matches Ok((p, len)) ==> compressed_slot(block_bytes@, at as int) == Ok::<
            (TriePtr, int),
            ScanStop,
        >((p, len as int)) && at + len <= block_bytes@.len(),
        r is Err ==> compressed_slot(block_bytes@, at as int) is Err && tells(
            r,
            Some(compressed_slot(block_bytes@, at as int)->Err_0),
        ),
{
    let min_end = match at.checked_add(TRIEPTR_SIZE_COMPRESSED) {
        Some(x) => x,
        None => {
            return Err(Error::OverflowError);
        },
    };
    if block_bytes.len() < min_end {
        return Err(
            corruption_of(
                [
                    Piece::Text("byte_scanner: compressed ptr at "),
                    Piece::Number(at as u64),
                    Piece::Text(" runs past EOF (need >= "),
                    Piece::Number(min_end as u64),
                    Piece::Text(", have "),
                    Piece::Number(block_bytes.len() as u64),
                    Piece::Text(")"),
                ].as_slice(),
            ),
        );
    }
    let id = clear_compressed(block_bytes[at]);
    let len = TriePtr::compressed_size_for_id(id);
    let end = match at.checked_add(len) {
        Some(x) => x,
        None => {
            return Err(Error::OverflowError);
        },
    };
    let slot = vstd::slice::slice_subrange(block_bytes, at, block_bytes.len());
    assert(slot@ =~= block_bytes@.skip(at as int));
    if end > block_bytes.len() {
        return Err(
            corruption_of(
                [
                    Piece::Text("byte_scanner: compressed ptr at "),
                    Piece::Number(at as u64),
                    Piece::Text(".."),
                    Piece::Number(end as u64),
                    Piece::Text(" runs past EOF"),
                ].as_slice(),
            ),
        );
    }
    TriePtr::from_slice_compressed(slot)
}

/// Report the slot at `slot_offset` and, if its pointer leads to a node in the same block, push
/// that node onto the walk stack.
fn emit_ptr_and_maybe_recurse(
    file_base: u64,
    slot_offset: usize,
    ptr: &TriePtr,
    events: &mut Vec<ScanEvent>,
    stack: &mut Vec<u32>,
) -> (r: Result<(), Error>)
    ensures
        match report(file_base, slot_offset as int, *ptr) {
            Err(e) => tells(r, Some(e)) && final(events)@ == old(events)@ && final(stack)@ == old(
                stack,
            )@,
            Ok(None) => r is Ok && final(events)@ == old(events)@ && final(stack)@ == old(stack)@,
            Ok(Some(sp)) => {
                &&& r is Ok
                &&& final(events)@ == old(events)@.push(ScanEvent::Ptr(sp))
                &&& final(stack)@ == if in_block(*ptr) {
                    old(stack)@.push(ptr.ptr)
                } else {
                    old(stack)@
                }
            },
        },
{
    if ptr.is_empty() {
        return Ok(());
    }
    let ptr_field_block_offset = match slot_offset.checked_add(2) {
        Some(x) => x,
        None => {
            return Err(Error::OverflowError);
        },
    };
    let ptr_field_file_offset = match file_base.checked_add(ptr_field_block_offset as u64) {
        Some(x) => x,
        None => {
            return Err(Error::OverflowError);
        },
    };
    events.push(ScanEvent::Ptr(ScannedPtr { ptr_field_file_offset, ptr: *ptr }));
    if !is_backptr(ptr.id()) && ptr.back_block() == 0 {
        stack.push(ptr.ptr());
    }
    Ok(())
}

/// Number of child slots in a node of the given kind.
fn node_slot_count(kind: TrieNodeID) -> (r: usize)
    ensures
        forall|id: u8|
            TrieNodeID::spec_from_u8(clear_ctrl_bits(id)) == Some(kind) ==> r == #[trigger] slot_count(
                id,
            ),
        r <= 256,
{
    match kind {
        TrieNodeID::Node4 => 4,
        TrieNodeID::Node16 => 16,
        TrieNodeID::Node48 => 48,
        TrieNodeID::Node256 => 256,
        TrieNodeID::Leaf | TrieNodeID::LeafSquashed | TrieNodeID::Empty | TrieNodeID::Patch => 0,
    }
}

} // verus!
