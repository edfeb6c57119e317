//! The leaves of a trie are listed once each, and slot by slot.

use crate::marf_leaves::{leaves, room, slot_leaves};
use crate::marf_walk::{MarfStore, StoredNode};
use crate::ptr::TriePtr;
use vstd::prelude::*;

verus! {

/// Do the occupied slots of the nodes under `ptr`, `depth` nodes deep, have different characters
/// within each node?
pub open spec fn slots_apart<T>(st: MarfStore<T>, block: T, ptr: TriePtr, depth: nat) -> bool
    decreases depth,
{
    let (b, node) = StoredNode::at(st, block, ptr);
    &&& forall|i: int, j: int|
        0 <= i < j < node.slots().len() && (#[trigger] node.slots()[i]).id != 0 && (
        #[trigger] node.slots()[j]).id != 0 ==> node.slots()[i].chr != node.slots()[j].chr
    &&& depth > 0 ==> forall|i: int|
        0 <= i < node.slots().len() && (#[trigger] node.slots()[i]).id != 0 ==> slots_apart(
            st,
            b,
            node.slots()[i],
            (depth - 1) as nat,
        )
}

proof fn lemma_apart_deep<T>(st: MarfStore<T>, block: T, ptr: TriePtr, a: nat, b: nat)
    requires
        slots_apart(st, block, ptr, a),
        b <= a,
    ensures
        slots_apart(st, block, ptr, b),
    decreases a,
{
    let (at, node) = StoredNode::at(st, block, ptr);
    if b > 0 {
        assert forall|i: int|
            0 <= i < node.slots().len() && (#[trigger] node.slots()[i]).id != 0 implies slots_apart(
            st,
            at,
            node.slots()[i],
            (b - 1) as nat,
        ) by {
            lemma_apart_deep(st, at, node.slots()[i], (a - 1) as nat, (b - 1) as nat);
        }
    }
}

/// Every leaf under a node has a whole path, which begins with the path to the node.
proof fn lemma_leaf_prefix<T>(
    st: MarfStore<T>,
    block: T,
    ptr: TriePtr,
    prefix: Seq<u8>,
    k: int,
)
    requires
        leaves(st, block, ptr, prefix) is Some,
        0 <= k < leaves(st, block, ptr, prefix).unwrap().len(),
    ensures
        ({
            let path = leaves(st, block, ptr, prefix).unwrap()[k].0;
            &&& path.len() == 32
            &&& prefix.len() <= 32
            &&& path.take(prefix.len() as int) == prefix
        }),
    decreases room(prefix.len()), 1nat, 0nat,
{
    let (b, node) = StoredNode::at(st, block, ptr);
    let full = prefix + node.path();
    let path = leaves(st, block, ptr, prefix).unwrap()[k].0;
    if node.leaf_value() is Some {
        assert(path == full);
        assert(path.take(prefix.len() as int) =~= prefix);
    } else {
        let i = lemma_slot_of_leaf(st, b, node.slots(), full, node.slots().len(), k);
        let next = full.push(node.slots()[i].chr);
        assert(prefix =~= next.take(prefix.len() as int));
        assert(path.take(prefix.len() as int) =~= path.take(next.len() as int).take(
            prefix.len() as int,
        ));
    }
}

/// Every leaf under some slots is under one of them.
proof fn lemma_slot_of_leaf<T>(
    st: MarfStore<T>,
    block: T,
    slots: Seq<TriePtr>,
    full: Seq<u8>,
    n: nat,
    k: int,
) -> (i: int)
    requires
        n <= slots.len(),
        slot_leaves(st, block, slots, full, n) is Some,
        0 <= k < slot_leaves(st, block, slots, full, n).unwrap().len(),
    ensures
        0 <= i < n,
        slots[i].id != 0,
        full.len() < 32,
        ({
            let path = slot_leaves(st, block, slots, full, n).unwrap()[k].0;
            path.len() == 32 && path.take(full.len() as int + 1) == full.push(slots[i].chr)
        }),
    decreases room(full.len()), 0nat, n,
{
    let p = slots[n - 1];
    if p.id == 0 || full.len() >= 32 {
        lemma_slot_of_leaf(st, block, slots, full, (n - 1) as nat, k)
    } else {
        let a = leaves(st, block, p, full.push(p.chr)).unwrap();
        let b = slot_leaves(st, block, slots, full, (n - 1) as nat).unwrap();
        if k < a.len() {
            lemma_leaf_prefix(st, block, p, full.push(p.chr), k);
            n - 1
        } else {
            lemma_slot_of_leaf(st, block, slots, full, (n - 1) as nat, k - a.len())
        }
    }
}

/// No two leaves of a trie have the same path: each is listed once.
pub proof fn law_leaves_are_listed_once<T>(
    st: MarfStore<T>,
    block: T,
    ptr: TriePtr,
    prefix: Seq<u8>,
    j: int,
    k: int,
)
    requires
        prefix.len() <= 32,
        slots_apart(st, block, ptr, room(prefix.len())),
        leaves(st, block, ptr, prefix) is Some,
        0 <= j < k < leaves(st, block, ptr, prefix).unwrap().len(),
    ensures
        leaves(st, block, ptr, prefix).unwrap()[j].0 != leaves(
            st,
            block,
            ptr,
            prefix,
        ).unwrap()[k].0,
    decreases room(prefix.len()), 1nat, 0nat,
{
    let (b, node) = StoredNode::at(st, block, ptr);
    let full = prefix + node.path();
    if node.leaf_value() is None {
        lemma_slot_leaves_once(
            st,
            b,
            node.slots(),
            full,
            node.slots().len(),
            (room(prefix.len()) - 1) as nat,
            j,
            k,
        );
    }
}

proof fn lemma_slot_leaves_once<T>(
    st: MarfStore<T>,
    block: T,
    slots: Seq<TriePtr>,
    full: Seq<u8>,
    n: nat,
    depth: nat,
    j: int,
    k: int,
)
    requires
        n <= slots.len(),
        depth + 1 >= room(full.len()),
        forall|i: int, l: int|
            0 <= i < l < slots.len() && (#[trigger] slots[i]).id != 0 && (#[trigger] slots[l]).id
                != 0 ==> slots[i].chr != slots[l].chr,
        forall|i: int|
            0 <= i < slots.len() && (#[trigger] slots[i]).id != 0 ==> slots_apart(
                st,
                block,
                slots[i],
                depth,
            ),
        slot_leaves(st, block, slots, full, n) is Some,
        0 <= j < k < slot_leaves(st, block, slots, full, n).unwrap().len(),
    ensures
        slot_leaves(st, block, slots, full, n).unwrap()[j].0 != slot_leaves(
            st,
            block,
            slots,
            full,
            n,
        ).unwrap()[k].0,
    decreases room(full.len()), 0nat, n,
{
    let p = slots[n - 1];
    let all = slot_leaves(st, block, slots, full, n).unwrap();
    if p.id == 0 || full.len() >= 32 {
        lemma_slot_leaves_once(st, block, slots, full, (n - 1) as nat, depth, j, k);
    } else {
        let next = full.push(p.chr);
        let a = leaves(st, block, p, next).unwrap();
        let b = slot_leaves(st, block, slots, full, (n - 1) as nat).unwrap();
        assert(all == a + b);
        if k < a.len() {
            lemma_apart_deep(st, block, p, depth, room(next.len()));
            law_leaves_are_listed_once(st, block, p, next, j, k);
        } else if j >= a.len() {
            lemma_slot_leaves_once(
                st,
                block,
                slots,
                full,
                (n - 1) as nat,
                depth,
                j - a.len(),
                k - a.len(),
            );
        } else {
            lemma_leaf_prefix(st, block, p, next, j);
            let i = lemma_slot_of_leaf(st, block, slots, full, (n - 1) as nat, k - a.len());
            let x = all[j].0;
            let y = all[k].0;
            assert(x.take(full.len() as int + 1) == next);
            assert(y.take(full.len() as int + 1) == full.push(slots[i].chr));
            assert(x[full.len() as int] == next[full.len() as int]);
            assert(y[full.len() as int] == full.push(slots[i].chr)[full.len() as int]);
            assert(slots[i].chr != slots[n - 1].chr);
        }
    }
}

/// The leaves of a trie come slot by slot, those of the last slot first: of two leaves, the one that
/// comes first is under the same slot of the node as the other, or under a later one.
pub proof fn law_leaves_come_slot_by_slot<T>(
    st: MarfStore<T>,
    block: T,
    ptr: TriePtr,
    prefix: Seq<u8>,
    j: int,
    k: int,
) -> (at: (int, int))
    requires
        leaves(st, block, ptr, prefix) is Some,
        StoredNode::at(st, block, ptr).1.leaf_value() is None,
        0 <= j < k < leaves(st, block, ptr, prefix).unwrap().len(),
    ensures
        ({
            let slots = StoredNode::at(st, block, ptr).1.slots();
            let full = prefix + StoredNode::at(st, block, ptr).1.path();
            let all = leaves(st, block, ptr, prefix).unwrap();
            &&& 0 <= at.1 <= at.0 < slots.len()
            &&& slots[at.0].id != 0 && slots[at.1].id != 0
            &&& all[j].0.take(full.len() as int + 1) == full.push(slots[at.0].chr)
            &&& all[k].0.take(full.len() as int + 1) == full.push(slots[at.1].chr)
        }),
{
    let (b, node) = StoredNode::at(st, block, ptr);
    lemma_slot_order(st, b, node.slots(), prefix + node.path(), node.slots().len(), j, k)
}

proof fn lemma_slot_order<T>(
    st: MarfStore<T>,
    block: T,
    slots: Seq<TriePtr>,
    full: Seq<u8>,
    n: nat,
    j: int,
    k: int,
) -> (at: (int, int))
    requires
        n <= slots.len(),
        slot_leaves(st, block, slots, full, n) is Some,
        0 <= j < k < slot_leaves(st, block, slots, full, n).unwrap().len(),
    ensures
        ({
            let all = slot_leaves(st, block, slots, full, n).unwrap();
            &&& 0 <= at.1 <= at.0 < n
            &&& slots[at.0].id != 0 && slots[at.1].id != 0
            &&& all[j].0.take(full.len() as int + 1) == full.push(slots[at.0].chr)
            &&& all[k].0.take(full.len() as int + 1) == full.push(slots[at.1].chr)
        }),
    decreases n,
{
    let p = slots[n - 1];
    if p.id == 0 || full.len() >= 32 {
        lemma_slot_order(st, block, slots, full, (n - 1) as nat, j, k)
    } else {
        let next = full.push(p.chr);
        let a = leaves(st, block, p, next).unwrap();
        if k < a.len() {
            lemma_leaf_prefix(st, block, p, next, j);
            lemma_leaf_prefix(st, block, p, next, k);
            (n - 1, n - 1)
        } else if j >= a.len() {
            lemma_slot_order(st, block, slots, full, (n - 1) as nat, j - a.len(), k - a.len())
        } else {
            lemma_leaf_prefix(st, block, p, next, j);
            let i = lemma_slot_of_leaf(st, block, slots, full, (n - 1) as nat, k - a.len());
            (n - 1, i)
        }
    }
}

/// Is the trie under `ptr` even: does every way down end at a leaf after 32 bytes, or at a node
/// without children before that?
pub open spec fn is_even<T>(st: MarfStore<T>, block: T, ptr: TriePtr, prefix: Seq<u8>) -> bool
    decreases room(prefix.len()),
{
    let (b, node) = StoredNode::at(st, block, ptr);
    let full = prefix + node.path();
    if node.leaf_value() is Some {
        full.len() == 32
    } else {
        forall|i: int|
            0 <= i < node.slots().len() && (#[trigger] node.slots()[i]).id != 0 ==> full.len() < 32
                && is_even(st, b, node.slots()[i], full.push(node.slots()[i].chr))
    }
}

/// All leaves of an even trie can be listed.
pub proof fn law_even_tries_are_listed<T>(
    st: MarfStore<T>,
    block: T,
    ptr: TriePtr,
    prefix: Seq<u8>,
)
    requires
        is_even(st, block, ptr, prefix),
    ensures
        leaves(st, block, ptr, prefix) is Some,
    decreases room(prefix.len()), 1nat, 0nat,
{
    let (b, node) = StoredNode::at(st, block, ptr);
    if node.leaf_value() is None {
        lemma_even_slots(st, b, node.slots(), prefix + node.path(), node.slots().len());
    }
}

proof fn lemma_even_slots<T>(
    st: MarfStore<T>,
    block: T,
    slots: Seq<TriePtr>,
    full: Seq<u8>,
    n: nat,
)
    requires
        n <= slots.len(),
        forall|i: int|
            0 <= i < slots.len() && (#[trigger] slots[i]).id != 0 ==> full.len() < 32 && is_even(
                st,
                block,
                slots[i],
                full.push(slots[i].chr),
            ),
    ensures
        slot_leaves(st, block, slots, full, n) is Some,
    decreases room(full.len()), 0nat, n,
{
    if n > 0 {
        lemma_even_slots(st, block, slots, full, (n - 1) as nat);
        let p = slots[n - 1];
        if p.id != 0 {
            law_even_tries_are_listed(st, block, p, full.push(p.chr));
        }
    }
}

} // verus!
