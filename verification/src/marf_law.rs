//! Looking keys up and listing all leaves tell the same of a trie.

use crate::cursor::{common_prefix, lemma_common_prefix, lemma_common_prefix_is, step};
use crate::error::CursorError;
use crate::marf_cow::copied_node;
use crate::marf_leaves::{leaves, room, slot_leaves, LeafModel};
use crate::marf_walk::{
    descend, hints_leaf, lookup, query_height, step_at, Descent, Lookup, MarfStore, OpenedBlock,
    StoredNode,
};
use crate::model::{first_slot, lemma_first_slot, lemma_first_slot_is, NodeModel};
use crate::node::{copied_ptr, TrieNodeType};
use crate::node_id::{is_backptr, law_ctrl_bits, TrieNodeID};
use crate::ptr::TriePtr;
use crate::value::{MARFValue, MarfTrieId};
use vstd::prelude::*;

verus! {

/// Does each path character lead to the slot that is marked with it, and to no other?
pub open spec fn slots_sound(node: StoredNode) -> bool {
    &&& forall|i: int|
        0 <= i < node.slots().len() && (#[trigger] node.slots()[i]).id != 0 ==> node.child(
            node.slots()[i].chr,
        ) == Some(node.slots()[i])
    &&& forall|c: u8| (#[trigger] node.child(c)) is Some ==> exists|i: int|
        0 <= i < node.slots().len() && node.slots()[i].id != 0 && node.slots()[i].chr == c
            && #[trigger] node.slots()[i] == node.child(c).unwrap()
}

/// Is the trie under `ptr` sound, `depth` nodes deep: pointers to leaves say so, and slots are
/// sound?
pub open spec fn trie_sound<T>(st: MarfStore<T>, block: T, ptr: TriePtr, depth: nat) -> bool
    decreases depth,
{
    let (b, node) = StoredNode::at(st, block, ptr);
    &&& node.leaf_value() is Some ==> hints_leaf(ptr)
    &&& slots_sound(node)
    &&& depth > 0 ==> forall|i: int|
        0 <= i < node.slots().len() && (#[trigger] node.slots()[i]).id != 0 ==> trie_sound(
            st,
            b,
            node.slots()[i],
            (depth - 1) as nat,
        )
}

/// The value at the end of a way down, at the end of its range where it is a squashed leaf's.
pub open spec fn end_value<T>(d: Descent<T>) -> Option<MARFValue> {
    match d {
        Descent::Leaf(leaf) => Some(leaf.data),
        Descent::Squashed(_, leaf) => Some(leaf.chunk.tip_value),
        _ => None,
    }
}

/// The way down from what `ptr` leads to, through a back-pointer or not.
pub open spec fn descend_through<T>(
    st: MarfStore<T>,
    path: Seq<u8>,
    index: int,
    block: T,
    ptr: TriePtr,
    fuel: nat,
) -> Descent<T> {
    if is_backptr(ptr.id) {
        descend(st, path, index, (st.block)(ptr.back_block), ptr.spec_from_backptr(), fuel)
    } else {
        descend(st, path, index, block, ptr, fuel)
    }
}

proof fn lemma_slot_member<T>(
    st: MarfStore<T>,
    block: T,
    slots: Seq<TriePtr>,
    full: Seq<u8>,
    n: nat,
    leaf: LeafModel,
) -> (i: int)
    requires
        n <= slots.len(),
        slot_leaves(st, block, slots, full, n) is Some,
        slot_leaves(st, block, slots, full, n).unwrap().contains(leaf),
    ensures
        0 <= i < n,
        slots[i].id != 0,
        full.len() < 32,
        leaves(st, block, slots[i], full.push(slots[i].chr)) is Some,
        leaves(st, block, slots[i], full.push(slots[i].chr)).unwrap().contains(leaf),
    decreases n,
{
    let all = slot_leaves(st, block, slots, full, n).unwrap();
    if n == 0 {
        assert(false);
        0
    } else {
        let p = slots[n - 1];
        if p.id == 0 || full.len() >= 32 {
            lemma_slot_member(st, block, slots, full, (n - 1) as nat, leaf)
        } else {
            let a = leaves(st, block, p, full.push(p.chr)).unwrap();
            let b = slot_leaves(st, block, slots, full, (n - 1) as nat).unwrap();
            let k = choose|k: int| 0 <= k < all.len() && all[k] == leaf;
            if k < a.len() {
                assert(a[k] == leaf);
                n - 1
            } else {
                assert(b[k - a.len()] == leaf);
                lemma_slot_member(st, block, slots, full, (n - 1) as nat, leaf)
            }
        }
    }
}

proof fn lemma_slot_holds<T>(
    st: MarfStore<T>,
    block: T,
    slots: Seq<TriePtr>,
    full: Seq<u8>,
    n: nat,
    i: int,
)
    requires
        0 <= i < n <= slots.len(),
        slots[i].id != 0,
        full.len() < 32,
        slot_leaves(st, block, slots, full, n) is Some,
    ensures
        leaves(st, block, slots[i], full.push(slots[i].chr)) is Some,
        forall|leaf: LeafModel| #[trigger]
            leaves(st, block, slots[i], full.push(slots[i].chr)).unwrap().contains(leaf)
                ==> slot_leaves(st, block, slots, full, n).unwrap().contains(leaf),
    decreases n,
{
    let all = slot_leaves(st, block, slots, full, n).unwrap();
    let p = slots[n - 1];
    if p.id == 0 {
        lemma_slot_holds(st, block, slots, full, (n - 1) as nat, i);
    } else {
        let a = leaves(st, block, p, full.push(p.chr)).unwrap();
        let b = slot_leaves(st, block, slots, full, (n - 1) as nat).unwrap();
        assert(all == a + b);
        if i == n - 1 {
            assert forall|leaf: LeafModel| #[trigger] a.contains(leaf) implies all.contains(leaf) by {
                let k = choose|k: int| 0 <= k < a.len() && a[k] == leaf;
                assert(all[k] == leaf);
            }
        } else {
            lemma_slot_holds(st, block, slots, full, (n - 1) as nat, i);
            let mine = leaves(st, block, slots[i], full.push(slots[i].chr)).unwrap();
            assert forall|leaf: LeafModel| #[trigger] mine.contains(leaf) implies all.contains(
                leaf,
            ) by {
                assert(b.contains(leaf));
                let k = choose|k: int| 0 <= k < b.len() && b[k] == leaf;
                assert(all[a.len() + k] == leaf);
            }
        }
    }
}

/// A step through a node whose whole path is followed.
pub proof fn lemma_step_through(
    path: Seq<u8>,
    index: int,
    node_path: Seq<u8>,
    child: spec_fn(u8) -> Option<TriePtr>,
)
    requires
        0 <= index,
        index + node_path.len() <= path.len(),
        path.subrange(index, index + node_path.len()) == node_path,
    ensures
        index + node_path.len() == path.len() ==> step(path, index, node_path, child).outcome
            == Ok::<Option<TriePtr>, CursorError>(None),
        index + node_path.len() < path.len() ==> {
            let s = step(path, index, node_path, child);
            &&& s.index == index + node_path.len() + 1
            &&& s.outcome == match child(path[index + node_path.len()]) {
                None => Err::<Option<TriePtr>, CursorError>(CursorError::ChrNotFound),
                Some(p) => if is_backptr(p.id) {
                    Err(CursorError::BackptrEncountered(p))
                } else {
                    Ok(Some(p))
                },
            }
        },
{
    let rest = path.skip(index);
    assert forall|i: int| 0 <= i < node_path.len() implies node_path[i] == rest[i] by {
        assert(path.subrange(index, index + node_path.len())[i] == path[index + i]);
    }
    lemma_common_prefix_is(node_path, rest, node_path.len() as int);
}

/// Every leaf of a sound trie is found under its path.
pub proof fn law_leaves_are_found<T>(
    st: MarfStore<T>,
    block: T,
    ptr: TriePtr,
    prefix: Seq<u8>,
    path: Seq<u8>,
    value: MARFValue,
    fuel: nat,
)
    requires
        prefix.len() <= 32,
        trie_sound(st, block, ptr, room(prefix.len())),
        leaves(st, block, ptr, prefix) is Some,
        leaves(st, block, ptr, prefix).unwrap().contains((path, value)),
        fuel > 32 - prefix.len(),
    ensures
        path.len() == 32,
        path.take(prefix.len() as int) == prefix,
        end_value(descend_through(st, path, prefix.len() as int, block, ptr, fuel)) == Some(value),
    decreases room(prefix.len()),
{
    let (b, node) = StoredNode::at(st, block, ptr);
    let all = leaves(st, block, ptr, prefix).unwrap();
    let full = prefix + node.path();
    let child = |c: u8| node.child(c);
    let q = if is_backptr(ptr.id) {
        ptr.spec_from_backptr()
    } else {
        ptr
    };
    law_ctrl_bits(ptr.id);
    law_ctrl_bits(q.id);
    assert(hints_leaf(q) == hints_leaf(ptr));
    if node.leaf_value() is Some {
        let k = choose|k: int| 0 <= k < all.len() && all[k] == (path, value);
        assert(all[k] == (full, node.leaf_value().unwrap()));
        assert(path.take(prefix.len() as int) =~= prefix);
        assert(path.subrange(prefix.len() as int, prefix.len() as int + node.path().len())
            =~= node.path());
        lemma_step_through(path, prefix.len() as int, node.path(), child);
        assert(step_at(st, path, prefix.len() as int, b, q) == step(
            path,
            prefix.len() as int,
            node.path(),
            child,
        ));
    } else {
        let i = lemma_slot_member(
            st,
            b,
            node.slots(),
            full,
            node.slots().len(),
            (path, value),
        );
        let p = node.slots()[i];
        let next = full.push(p.chr);
        lemma_sound_deep(st, b, p, (room(prefix.len()) - 1) as nat, room(next.len()));
        law_leaves_are_found(st, b, p, next, path, value, (fuel - 1) as nat);
        assert(path.take(prefix.len() as int) =~= prefix) by {
            assert(prefix =~= next.take(prefix.len() as int));
        }
        assert(path.subrange(prefix.len() as int, prefix.len() as int + node.path().len())
            =~= node.path()) by {
            assert forall|j: int| 0 <= j < node.path().len() implies path[prefix.len() + j]
                == node.path()[j] by {
                assert(path.take(next.len() as int)[prefix.len() + j] == next[prefix.len() + j]);
            }
        }
        assert(path[full.len() as int] == p.chr) by {
            assert(path.take(next.len() as int)[full.len() as int] == next[full.len() as int]);
        }
        lemma_step_through(path, prefix.len() as int, node.path(), child);
        assert(step_at(st, path, prefix.len() as int, b, q) == step(
            path,
            prefix.len() as int,
            node.path(),
            child,
        ));
        assert(child(p.chr) == Some(p));
        law_more_fuel(st, path, next.len() as int, b, p, (fuel - 1) as nat);
    }
}

/// More fuel than there are bytes left changes nothing.
proof fn law_more_fuel<T>(
    st: MarfStore<T>,
    path: Seq<u8>,
    index: int,
    block: T,
    ptr: TriePtr,
    fuel: nat,
)
    requires
        0 <= index <= path.len(),
        fuel > path.len() - index,
    ensures
        descend_through(st, path, index, block, ptr, fuel) == descend_through(
            st,
            path,
            index,
            block,
            ptr,
            (path.len() - index + 1) as nat,
        ),
{
    if is_backptr(ptr.id) {
        crate::marf_walk::law_descent_ends(
            st,
            path,
            index,
            (st.block)(ptr.back_block),
            ptr.spec_from_backptr(),
            fuel,
        );
    } else {
        crate::marf_walk::law_descent_ends(st, path, index, block, ptr, fuel);
    }
}

/// A trie that is sound so deep is sound less deep.
proof fn lemma_sound_deep<T>(st: MarfStore<T>, block: T, ptr: TriePtr, a: nat, b: nat)
    requires
        trie_sound(st, block, ptr, a),
        b <= a,
    ensures
        trie_sound(st, block, ptr, b),
    decreases a,
{
    let (at, node) = StoredNode::at(st, block, ptr);
    if b > 0 {
        assert forall|i: int|
            0 <= i < node.slots().len() && (#[trigger] node.slots()[i]).id != 0 implies trie_sound(
            st,
            at,
            node.slots()[i],
            (b - 1) as nat,
        ) by {
            lemma_sound_deep(st, at, node.slots()[i], (a - 1) as nat, (b - 1) as nat);
        }
    }
}

/// What is found under a path in a sound trie is one of its leaves.
pub proof fn law_found_is_a_leaf<T>(
    st: MarfStore<T>,
    block: T,
    ptr: TriePtr,
    prefix: Seq<u8>,
    path: Seq<u8>,
    fuel: nat,
)
    requires
        path.len() == 32,
        prefix.len() <= 32,
        path.take(prefix.len() as int) == prefix,
        trie_sound(st, block, ptr, room(prefix.len())),
        leaves(st, block, ptr, prefix) is Some,
        end_value(descend_through(st, path, prefix.len() as int, block, ptr, fuel)) is Some,
    ensures
        leaves(st, block, ptr, prefix).unwrap().contains(
            (
                path,
                end_value(
                    descend_through(st, path, prefix.len() as int, block, ptr, fuel),
                ).unwrap(),
            ),
        ),
    decreases room(prefix.len()),
{
    let (b, node) = StoredNode::at(st, block, ptr);
    let all = leaves(st, block, ptr, prefix).unwrap();
    let full = prefix + node.path();
    let child = |c: u8| node.child(c);
    let q = if is_backptr(ptr.id) {
        ptr.spec_from_backptr()
    } else {
        ptr
    };
    let index = prefix.len() as int;
    law_ctrl_bits(ptr.id);
    law_ctrl_bits(q.id);
    assert(hints_leaf(q) == hints_leaf(ptr));
    let s = step(path, index, node.path(), child);
    assert(step_at(st, path, index, b, q) == s);
    lemma_common_prefix(node.path(), path.skip(index));
    let k = common_prefix(node.path(), path.skip(index)) as int;
    let found = descend_through(st, path, index, block, ptr, fuel);
    let v = end_value(found).unwrap();
    if node.leaf_value() is Some {
        assert(full.len() == 32);
        assert forall|c: u8| (#[trigger] child(c)) is None by {
            if child(c) is Some {
                let i = choose|i: int|
                    0 <= i < node.slots().len() && node.slots()[i].id != 0 && node.slots()[i].chr
                        == c && #[trigger] node.slots()[i] == node.child(c).unwrap();
                assert(node.slots().len() == 0);
            }
        }
        assert(s.outcome == Ok::<Option<TriePtr>, CursorError>(None));
        if index < 32 {
            assert(index + k >= 32);
            assert(k == node.path().len());
            assert forall|i: int| 0 <= i < node.path().len() implies node.path()[i] == path[index
                + i] by {
                assert(node.path()[i] == path.skip(index)[i]);
            }
        }
        assert(full =~= path) by {
            assert forall|i: int| 0 <= i < 32 implies full[i] == path[i] by {
                if i < index {
                    assert(path.take(index)[i] == prefix[i]);
                }
            }
        }
        assert(all[0] == (path, v));
    } else {
        assert(s.outcome is Ok ==> s.outcome.unwrap() is Some);
        let c = path[s.index - 1];
        let p = child(c).unwrap();
        assert(index < 32);
        assert(k == node.path().len());
        assert(s.index == full.len() + 1);
        let i = choose|i: int|
            0 <= i < node.slots().len() && node.slots()[i].id != 0 && node.slots()[i].chr == c
                && #[trigger] node.slots()[i] == node.child(c).unwrap();
        assert(node.slots()[i] == p);
        let next = full.push(c);
        lemma_slot_holds(st, b, node.slots(), full, node.slots().len(), i);
        assert(path.take(next.len() as int) =~= next) by {
            assert forall|j: int| 0 <= j < next.len() implies path[j] == next[j] by {
                if j < index {
                    assert(path.take(index)[j] == prefix[j]);
                } else if j < full.len() {
                    assert(node.path()[j - index] == path.skip(index)[j - index]);
                }
            }
        }
        lemma_sound_deep(st, b, p, (room(prefix.len()) - 1) as nat, room(next.len()));
        assert(found == descend_through(st, path, next.len() as int, b, p, (fuel - 1) as nat));
        law_found_is_a_leaf(st, b, p, next, path, (fuel - 1) as nat);
    }
}

/// Looking a key up for a block outside of squashed ranges finds exactly the leaves of its trie.
pub proof fn law_lookup_finds_exactly_the_leaves<T: MarfTrieId>(
    st: MarfStore<T>,
    user: OpenedBlock<T>,
    root_ptr: TriePtr,
    path: Seq<u8>,
    value: MARFValue,
)
    requires
        path.len() == 32,
        !is_backptr(root_ptr.id),
        query_height(st, user) is None,
        trie_sound(st, user.block_hash, root_ptr, 33),
        leaves(st, user.block_hash, root_ptr, Seq::empty()) is Some,
    ensures
        (lookup(st, user, root_ptr, path) matches Lookup::Found(_, v) && v == value) <==> leaves(
            st,
            user.block_hash,
            root_ptr,
            Seq::empty(),
        ).unwrap().contains((path, value)),
{
    let none = Seq::<u8>::empty();
    assert(path.take(0) =~= none);
    let d = descend_through(st, path, 0, user.block_hash, root_ptr, 33);
    if leaves(st, user.block_hash, root_ptr, none).unwrap().contains((path, value)) {
        law_leaves_are_found(st, user.block_hash, root_ptr, none, path, value, 33);
    }
    if end_value(d) is Some {
        law_found_is_a_leaf(st, user.block_hash, root_ptr, none, path, 33);
    }
}

/// The children of a copy are the copies of the children.
pub proof fn lemma_copied_child(m: NodeModel, block_id: u32, c: u8)
    requires
        m.shaped(),
    ensures
        copied_node(m, block_id).child(c) == match m.child(c) {
            Some(p) => Some(copied_ptr(p, block_id)),
            None => None,
        },
{
    let n = copied_node(m, block_id);
    if !(m.kind is Leaf) {
        assert(n.ptrs.len() == m.ptrs.len());
        assert forall|i: int| 0 <= i < m.ptrs.len() implies (#[trigger] n.ptrs[i]) == copied_ptr(
            m.ptrs[i],
            block_id,
        ) && n.ptrs[i].is_empty() == m.ptrs[i].is_empty() && n.ptrs[i].chr == m.ptrs[i].chr by {
            crate::node::law_copy_idempotent(m.ptrs[i], block_id, 0);
        }
        lemma_first_slot(m.ptrs, c);
        lemma_first_slot(n.ptrs, c);
        if let Some(i) = first_slot(m.ptrs, c) {
            lemma_first_slot_is(n.ptrs, c, i);
        }
    }
}

/// Where a block holds a copy of a node of an earlier block, the way down from either is the same.
/// So a new block, whose root is a copy of its parent's, starts with the state of its parent, and
/// copying a node forward changes nothing.
pub proof fn law_copy_keeps_state<T>(
    st: MarfStore<T>,
    path: Seq<u8>,
    index: int,
    from: T,
    ptr: TriePtr,
    from_id: u32,
    node: TrieNodeType,
    now: T,
    copy_ptr: TriePtr,
    copy: TrieNodeType,
    fuel: nat,
)
    requires
        (st.block)(from_id) == from,
        (st.node)(from, ptr) == StoredNode::Node(node),
        (st.node)(now, copy_ptr) == StoredNode::Node(copy),
        copy.model() == copied_node(node.model(), from_id),
        node.model().shaped(),
        !(node.model().kind is Leaf),
        forall|i: int|
            0 <= i < node.model().ptrs.len() && !is_backptr((#[trigger] node.model().ptrs[i]).id)
                ==> node.model().ptrs[i].back_block == 0,
    ensures
        descend(st, path, index, now, copy_ptr, fuel) == descend(
            st,
            path,
            index,
            from,
            ptr,
            fuel,
        ),
{
    if fuel > 0 {
        let a = StoredNode::Node(node);
        let b = StoredNode::Node(copy);
        let old_step = step_at(st, path, index, from, ptr);
        let new_step = step_at(st, path, index, now, copy_ptr);
        if index < path.len() {
            let k = common_prefix(node.model().path, path.skip(index)) as int;
            lemma_common_prefix(node.model().path, path.skip(index));
            if index + k < path.len() && k >= node.model().path.len() {
                let c = path[index + k];
                lemma_copied_child(node.model(), from_id, c);
                if let Some(p) = node.model().child(c) {
                    lemma_child_is_slot(node.model(), c);
                    let i = choose|i: int|
                        0 <= i < node.model().ptrs.len() && #[trigger] node.model().ptrs[i] == p;
                    assert(node.model().ptrs[i] == p);
                    law_ctrl_bits(p.id);
                    crate::node::law_copy_idempotent(p, from_id, 0);
                    let q = copied_ptr(p, from_id);
                    assert(b.child(c) == Some(q));
                    assert(is_backptr(q.id));
                    if !is_backptr(p.id) {
                        assert(q.spec_from_backptr() == p);
                    }
                }
            }
        }
    }
}

/// A child that is found stands in an occupied slot.
pub proof fn lemma_child_is_slot(m: NodeModel, c: u8)
    requires
        m.shaped(),
    ensures
        m.child(c) matches Some(p) ==> !p.is_empty() && exists|i: int|
            0 <= i < m.ptrs.len() && #[trigger] m.ptrs[i] == p,
{
    lemma_first_slot(m.ptrs, c);
    if let Some(p) = m.child(c) {
        match m.kind {
            TrieNodeID::Node4 | TrieNodeID::Node16 => {
                let i = first_slot(m.ptrs, c).unwrap();
                assert(m.ptrs[i] == p);
            },
            TrieNodeID::Node48 => {
                let i = m.indexes[c as int] as int;
                assert(m.ptrs[i] == p);
            },
            _ => {
                assert(m.ptrs[c as int] == p);
            },
        }
    }
}

} // verus!
