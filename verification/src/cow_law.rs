//! Copying nodes forward into a new trie changes nothing of what can be found.

use crate::cursor::{common_prefix, lemma_common_prefix, step};
use crate::error::CursorError;
use crate::hash::sha512_256;
use crate::marf_cow::{
    are_copies, copied_node, copy_of, cow_descend, cow_walk, walked, CopyModel,
    CowModel, CowStore, CowWrite, TrailModel,
};
use crate::marf_walk::{descend, hints_leaf, step_at, Descent, MarfStore, StoredNode};
use crate::model::{first_slot, lemma_first_slot, lemma_first_slot_is, NodeModel};
use crate::node::{copied_ptr, TrieNodeType};
use crate::node_id::{clear_backptr, is_backptr, law_ctrl_bits, TrieNodeID};
use crate::ptr::TriePtr;
use crate::value::MarfTrieId;
use crate::walk_law::leads_to;
use vstd::prelude::*;

verus! {

/// Do all nodes have the parts that their kinds call for, and name a block only in back-pointers?
pub open spec fn well_stored<T>(node: spec_fn(T, TriePtr) -> StoredNode) -> bool {
    forall|b: T, p: TriePtr| (#[trigger] node(b, p)) matches StoredNode::Node(n) ==> {
        &&& n.model().shaped()
        &&& forall|i: int|
            0 <= i < n.model().ptrs.len() && !is_backptr((#[trigger] n.model().ptrs[i]).id)
                ==> n.model().ptrs[i].back_block == 0
    }
}

/// Is this what lookups see of the same forest, in which the number of a block with a number leads
/// back to that block?
pub open spec fn same_forest<T>(st: CowStore<T>, ms: MarfStore<T>) -> bool {
    &&& ms.node == st.node
    &&& ms.block == st.block
    &&& forall|k: u32| (st.block)((st.id)(#[trigger] (st.block)(k))) == (st.block)(k)
    &&& well_stored(st.node)
}

// ---------------------------------------------------------------------------------------
// Each copy
// ---------------------------------------------------------------------------------------
/// Is this the copy of what its back-pointer leads to?
spec fn comes_from<T>(st: CowStore<T>, copies: Seq<CopyModel<T>>, k: int) -> bool {
    is_backptr(copies[k].source.id) && copy_of(st, copies[k].source, k as nat) == Some(copies[k])
}

proof fn lemma_cow_copies<T>(
    st: CowStore<T>,
    path: Seq<u8>,
    index: int,
    block: T,
    node: NodeModel,
    trail: TrailModel<T>,
    copies: Seq<CopyModel<T>>,
    fuel: nat,
)
    requires
        forall|k: int| 0 <= k < copies.len() ==> #[trigger] comes_from(st, copies, k),
    ensures
        cow_descend(st, path, index, block, node, trail, copies, fuel) matches Some(m) ==> forall|
            k: int,
        |
            0 <= k < m.copies.len() ==> #[trigger] comes_from(st, m.copies, k),
    decreases fuel,
{
    if fuel > 0 {
        let s = step(path, index, node.path, |c: u8| node.child(c));
        let seen = trail.seen(node);
        match s.outcome {
            Ok(Some(p)) => {
                lemma_cow_copies(
                    st,
                    path,
                    s.index,
                    block,
                    walked((st.node)(block, p)),
                    seen.followed(p, block),
                    copies,
                    (fuel - 1) as nat,
                );
            },
            Err(CursorError::BackptrEncountered(p)) => {
                if let Some(c) = copy_of(st, p, copies.len()) {
                    let more = copies.push(c);
                    assert(is_backptr(p.id));
                    assert forall|k: int| 0 <= k < more.len() implies #[trigger] comes_from(
                        st,
                        more,
                        k,
                    ) by {
                        if k < copies.len() {
                            assert(comes_from(st, copies, k));
                        }
                    }
                    lemma_cow_copies(
                        st,
                        path,
                        s.index,
                        block,
                        c.node,
                        seen.copied(p, c),
                        more,
                        (fuel - 1) as nat,
                    );
                }
            },
            _ => {},
        }
    }
}

/// Does every slot of a copy lead where the same slot of the original leads from the block that holds
/// it: to the same place in the same block? An unoccupied slot stays so, and an occupied one is a
/// back-pointer in the copy, so it leads there from any block.
pub open spec fn slots_lead_alike<T>(
    block_of: spec_fn(u32) -> T,
    copy: NodeModel,
    from: T,
    was: NodeModel,
) -> bool {
    &&& copy.kind == was.kind
    &&& copy.path == was.path
    &&& copy.indexes == was.indexes
    &&& copy.data == was.data
    &&& copy.ptrs.len() == was.ptrs.len()
    &&& forall|i: int|
        0 <= i < was.ptrs.len() ==> {
            let p = was.ptrs[i];
            let q = #[trigger] copy.ptrs[i];
            if p.id == 0 {
                q == p
            } else {
                &&& is_backptr(q.id)
                &&& q.chr == p.chr
                &&& q.ptr == p.ptr
                &&& clear_backptr(q.id) == clear_backptr(p.id)
                &&& block_of(q.back_block) == if is_backptr(p.id) {
                    block_of(p.back_block)
                } else {
                    from
                }
            }
        }
}

/// Every node that a copying walk writes is a copy of what a back-pointer leads to, at the place
/// that is free then. A node with slots, of whatever kind, leads where the original leads, slot by
/// slot, and waits for its hash. A leaf is the leaf as it was, with its hash; of a squashed range it
/// has the value in the block that it was read in, at that block's height, and else the value at the
/// end of the range.
pub proof fn law_copies_lead_where_originals_lead<T: MarfTrieId>(
    st: CowStore<T>,
    ms: MarfStore<T>,
    path: Seq<u8>,
    block: T,
    root_ptr: TriePtr,
    writes: Seq<CowWrite<T>>,
    k: int,
)
    requires
        same_forest(st, ms),
        cow_walk(st, path, block, root_ptr) is Some,
        are_copies(writes, cow_walk(st, path, block, root_ptr).unwrap().copies),
        0 <= k < writes.len(),
    ensures
        ({
            let w = writes[k];
            let source = cow_walk(st, path, block, root_ptr).unwrap().copies[k].source;
            let copy = w.node.model();
            let (from, there) = leads_to(ms, block, source);
            &&& is_backptr(source.id)
            &&& w.from == from
            &&& w.at == (st.last_ptr)(k as nat)
            &&& w.hash@ == if copy.kind is Leaf {
                sha512_256(copy.bytes())
            } else {
                Seq::new(32, |i: int| 0u8)
            }
            &&& match (st.node)(from, there) {
                StoredNode::Node(n) => slots_lead_alike(st.block, copy, from, n.model()),
                StoredNode::Squashed(leaf) => {
                    &&& copy.kind is Leaf
                    &&& copy.path == leaf.path@
                    &&& copy.ptrs.len() == 0
                    &&& match (st.height)(from) {
                        None => copy.data == leaf.chunk.tip_value@,
                        Some(h) => leaf.has_history && ((st.history)(from, leaf.chunk, h) matches Some(
                            v,
                        ) && copy.data == v@),
                    }
                },
            }
        }),
{
    let none = Seq::<CopyModel<T>>::empty();
    let m = cow_walk(st, path, block, root_ptr).unwrap();
    lemma_cow_copies(
        st,
        path,
        0,
        block,
        walked((st.node)(block, root_ptr)),
        TrailModel { ptrs: seq![root_ptr], blocks: Seq::empty(), nodes: Seq::empty() },
        none,
        33,
    );
    assert(comes_from(st, m.copies, k));
    let c = m.copies[k];
    assert(crate::marf_cow::is_copy(writes[k], c));
    if let StoredNode::Node(n) = (st.node)(c.from, c.source.spec_from_backptr()) {
        lemma_copied_slots(st, c.from, n.model());
    }
}

// ---------------------------------------------------------------------------------------
// Lookups through copies
// ---------------------------------------------------------------------------------------
/// Do the two children, seen from these blocks, lead to the same place?
pub open spec fn lead_alike<T>(
    ms: MarfStore<T>,
    here: T,
    a: Option<TriePtr>,
    there: T,
    b: Option<TriePtr>,
) -> bool {
    match (a, b) {
        (None, None) => true,
        (Some(p), Some(q)) => leads_to(ms, here, p) == leads_to(ms, there, q),
        _ => false,
    }
}

/// Is `m`, in the trie of `here`, as good as the node `n` in the trie of `there`: the same path, and
/// children that lead to the same places?
pub open spec fn stands_for<T>(
    ms: MarfStore<T>,
    here: T,
    m: NodeModel,
    there: T,
    n: StoredNode,
) -> bool {
    &&& m.path == n.path()
    &&& forall|c: u8| lead_alike(ms, here, #[trigger] m.child(c), there, n.child(c))
}

/// A node whose slots lead where those of another lead stands for it.
proof fn lemma_slots_stand<T>(
    ms: MarfStore<T>,
    here: T,
    copy: NodeModel,
    there: T,
    n: TrieNodeType,
)
    requires
        n.model().shaped(),
        forall|i: int|
            0 <= i < n.model().ptrs.len() && !is_backptr((#[trigger] n.model().ptrs[i]).id)
                ==> n.model().ptrs[i].back_block == 0,
        slots_lead_alike(ms.block, copy, there, n.model()),
    ensures
        stands_for(ms, here, copy, there, StoredNode::Node(n)),
{
    let m = n.model();
    assert forall|i: int| 0 <= i < m.ptrs.len() implies (#[trigger] copy.ptrs[i]).is_empty()
        == m.ptrs[i].is_empty() && copy.ptrs[i].chr == m.ptrs[i].chr && lead_alike(
        ms,
        here,
        Some(copy.ptrs[i]),
        there,
        Some(m.ptrs[i]),
    ) || m.ptrs[i].is_empty() && copy.ptrs[i] == m.ptrs[i] by {
        law_ctrl_bits(m.ptrs[i].id);
        law_ctrl_bits(copy.ptrs[i].id);
    }
    assert forall|c: u8| lead_alike(ms, here, #[trigger] copy.child(c), there, m.child(c)) by {
        lemma_first_slot(m.ptrs, c);
        lemma_first_slot(copy.ptrs, c);
        match m.kind {
            TrieNodeID::Node4 | TrieNodeID::Node16 => {
                match first_slot(m.ptrs, c) {
                    Some(i) => {
                        assert(copy.ptrs[i].chr == c);
                        lemma_first_slot_is(copy.ptrs, c, i);
                    },
                    None => {
                        if let Some(i) = first_slot(copy.ptrs, c) {
                            assert(copy.ptrs[i].chr == m.ptrs[i].chr);
                        }
                    },
                }
            },
            TrieNodeID::Node48 => {
                let i = m.indexes[c as int] as int;
                if 0 <= i < 48 {
                    assert(copy.ptrs[i].is_empty() == m.ptrs[i].is_empty());
                }
            },
            TrieNodeID::Node256 => {
                assert(copy.ptrs[c as int].is_empty() == m.ptrs[c as int].is_empty());
            },
            _ => {},
        }
    }
}

/// Copying a node by its slots.
proof fn lemma_copied_slots<T>(st: CowStore<T>, from: T, m: NodeModel)
    requires
        (st.block)((st.id)(from)) == from,
        m.kind is Leaf ==> m.ptrs.len() == 0,
    ensures
        slots_lead_alike(st.block, copied_node(m, (st.id)(from)), from, m),
{
    let c = copied_node(m, (st.id)(from));
    assert((st.block)((st.id)(from)) == from);
    assert forall|i: int| 0 <= i < m.ptrs.len() implies (#[trigger] c.ptrs[i]) == copied_ptr(
        m.ptrs[i],
        (st.id)(from),
    ) by {}
    assert forall|i: int| 0 <= i < m.ptrs.len() implies {
        let p = m.ptrs[i];
        let q = #[trigger] c.ptrs[i];
        if p.id == 0 {
            q == p
        } else {
            &&& is_backptr(q.id)
            &&& q.chr == p.chr
            &&& q.ptr == p.ptr
            &&& clear_backptr(q.id) == clear_backptr(p.id)
            &&& (st.block)(q.back_block) == if is_backptr(p.id) {
                (st.block)(p.back_block)
            } else {
                from
            }
        }
    } by {
        law_ctrl_bits(m.ptrs[i].id);
    }
}

/// A lookup that starts at a node which stands for another ends like one that starts at that one.
pub proof fn law_stand_in_keeps_state<T>(
    ms: MarfStore<T>,
    path: Seq<u8>,
    index: int,
    here: T,
    copy_ptr: TriePtr,
    copy: TrieNodeType,
    there: T,
    ptr: TriePtr,
    n: TrieNodeType,
    fuel: nat,
)
    requires
        0 <= index <= path.len(),
        (ms.node)(here, copy_ptr) == StoredNode::Node(copy),
        (ms.node)(there, ptr) == StoredNode::Node(n),
        stands_for(ms, here, copy.model(), there, StoredNode::Node(n)),
        !(copy is Leaf),
        !(n is Leaf),
    ensures
        descend(ms, path, index, here, copy_ptr, fuel) == descend(
            ms,
            path,
            index,
            there,
            ptr,
            fuel,
        ),
{
    if fuel > 0 {
        lemma_same_steps(ms, path, index, here, copy.model(), there, StoredNode::Node(n));
    }
}

/// Once a node that a copying walk writes stands in the new trie, a lookup of any key that starts at
/// it ends like one that starts at the original.
pub proof fn law_lookup_from_a_copy<T: MarfTrieId>(
    st: CowStore<T>,
    ms: MarfStore<T>,
    path: Seq<u8>,
    block: T,
    root_ptr: TriePtr,
    writes: Seq<CowWrite<T>>,
    k: int,
    after: MarfStore<T>,
    copy_ptr: TriePtr,
    key: Seq<u8>,
    index: int,
    fuel: nat,
)
    requires
        same_forest(st, ms),
        cow_walk(st, path, block, root_ptr) is Some,
        are_copies(writes, cow_walk(st, path, block, root_ptr).unwrap().copies),
        0 <= k < writes.len(),
        !(writes[k].node is Leaf),
        after.block == st.block,
        (after.node)(block, copy_ptr) == StoredNode::Node(writes[k].node),
        ({
            let source = cow_walk(st, path, block, root_ptr).unwrap().copies[k].source;
            let (from, there) = leads_to(ms, block, source);
            (after.node)(from, there) == (st.node)(from, there)
        }),
        0 <= index <= key.len(),
    ensures
        ({
            let source = cow_walk(st, path, block, root_ptr).unwrap().copies[k].source;
            let (from, there) = leads_to(ms, block, source);
            descend(after, key, index, block, copy_ptr, fuel) == descend(
                after,
                key,
                index,
                from,
                there,
                fuel,
            )
        }),
{
    law_copies_lead_where_originals_lead(st, ms, path, block, root_ptr, writes, k);
    let source = cow_walk(st, path, block, root_ptr).unwrap().copies[k].source;
    let (from, there) = leads_to(ms, block, source);
    if let StoredNode::Node(n) = (st.node)(from, there) {
        lemma_slots_stand(after, block, writes[k].node.model(), from, n);
        law_stand_in_keeps_state(
            after,
            key,
            index,
            block,
            copy_ptr,
            writes[k].node,
            from,
            there,
            n,
            fuel,
        );
    }
}

/// The steps through two nodes, one of which stands for the other, get as far and lead to the same
/// place.
proof fn lemma_same_steps<T>(
    ms: MarfStore<T>,
    path: Seq<u8>,
    index: int,
    here: T,
    m: NodeModel,
    there: T,
    n: StoredNode,
)
    requires
        0 <= index <= path.len(),
        stands_for(ms, here, m, there, n),
    ensures
        ({
            let a = step(path, index, m.path, |c: u8| m.child(c));
            let b = step(path, index, n.path(), |c: u8| n.child(c));
            &&& a.index == b.index
            &&& index <= a.index <= path.len()
            &&& match (next_ptr(a.outcome), next_ptr(b.outcome)) {
                (None, None) => a.outcome == b.outcome,
                (Some(p), Some(q)) => leads_to(ms, here, p) == leads_to(ms, there, q),
                _ => false,
            }
        }),
{
    if index < path.len() {
        let k = common_prefix(m.path, path.skip(index)) as int;
        lemma_common_prefix(m.path, path.skip(index));
        if index + k < path.len() && k >= m.path.len() {
            assert(lead_alike(ms, here, m.child(path[index + k]), there, n.child(path[index + k])));
        }
    }
}

/// The pointer that a step leads on to.
pub open spec fn next_ptr(outcome: Result<Option<TriePtr>, CursorError>) -> Option<TriePtr> {
    match outcome {
        Ok(Some(p)) => Some(p),
        Err(CursorError::BackptrEncountered(p)) => Some(p),
        _ => None,
    }
}

/// Is the last node that the walk passed the leaf at the end of the way down?
pub open spec fn ends_alike<T>(st: CowStore<T>, m: CowModel<T>, d: Descent<T>) -> bool {
    &&& m.trail.nodes.len() > 0
    &&& m.trail.nodes.last() matches Some(leaf)
    &&& leaf.kind is Leaf
    &&& match d {
        Descent::Leaf(l) => leaf.path == l.path@ && leaf.data == l.data@,
        Descent::Squashed(b, l) => leaf.path == l.path@ && (leaf.data == l.chunk.tip_value@ || (
        l.has_history && ((st.height)(b) matches Some(h) && ((st.history)(b, l.chunk, h)
            matches Some(v) && leaf.data == v@)))),
        _ => false,
    }
}

/// Is the node there a leaf of a squashed range that has no value at the height of its block?
pub open spec fn cannot_be_copied<T>(st: CowStore<T>, b: T, ptr: TriePtr) -> bool {
    (st.node)(b, ptr) matches StoredNode::Squashed(l) && ((st.height)(b) matches Some(h) && (
    !l.has_history || (st.history)(b, l.chunk, h) is None))
}

/// Does a way down that ends like this lead to a leaf that cannot be copied?
pub open spec fn gives_up<T>(st: CowStore<T>, d: Descent<T>) -> bool {
    exists|b: T, ptr: TriePtr| #[trigger]
        cannot_be_copied(st, b, ptr) && match d {
            Descent::Squashed(t, l) => t == b && (st.node)(b, ptr) == StoredNode::Squashed(l),
            Descent::Leaf(_) => false,
            _ => true,
        }
}

proof fn lemma_cow_follows<T>(
    st: CowStore<T>,
    ms: MarfStore<T>,
    path: Seq<u8>,
    index: int,
    block: T,
    node: NodeModel,
    there: T,
    ptr: TriePtr,
    trail: TrailModel<T>,
    copies: Seq<CopyModel<T>>,
    fuel: nat,
)
    requires
        same_forest(st, ms),
        0 <= index <= path.len(),
        stands_for(ms, block, node, there, (st.node)(there, ptr)),
        trail.ptrs.len() > 0,
        hints_leaf(trail.ptrs.last()) == hints_leaf(ptr),
        match (st.node)(there, ptr) {
            StoredNode::Node(TrieNodeType::Leaf(l)) => node.kind is Leaf && node.data == l.data@,
            StoredNode::Node(n) => !(node.kind is Leaf),
            StoredNode::Squashed(l) => node.kind is Leaf && (node.data == l.chunk.tip_value@ || (
            l.has_history && ((st.height)(there) matches Some(h) && ((st.history)(there, l.chunk, h)
                matches Some(v) && node.data == v@)))),
        },
    ensures
        ({
            let d = descend(ms, path, index, there, ptr, fuel);
            match cow_descend(st, path, index, block, node, trail, copies, fuel) {
                Some(m) => if m.error is Some {
                    d is NotFound
                } else {
                    ends_alike(st, m, d)
                },
                None => d is Broken || gives_up(st, d),
            }
        }),
    decreases fuel,
{
    if fuel > 0 {
        let n = (st.node)(there, ptr);
        lemma_same_steps(ms, path, index, block, node, there, n);
        let a = step(path, index, node.path, |c: u8| node.child(c));
        let b = step(path, index, n.path(), |c: u8| n.child(c));
        assert(step_at(ms, path, index, there, ptr) == b);
        let seen = trail.seen(node);
        let d = descend(ms, path, index, there, ptr, fuel);
        match a.outcome {
            Ok(Some(p)) => {
                let q = next_ptr(b.outcome).unwrap();
                let (t, x) = leads_to(ms, there, q);
                lemma_read_stands(st, ms, block, p);
                assert((t, x) == (block, p));
                lemma_cow_follows(
                    st,
                    ms,
                    path,
                    a.index,
                    block,
                    walked((st.node)(block, p)),
                    block,
                    p,
                    seen.followed(p, block),
                    copies,
                    (fuel - 1) as nat,
                );
            },
            Err(CursorError::BackptrEncountered(p)) => {
                let q = next_ptr(b.outcome).unwrap();
                let (t, x) = leads_to(ms, there, q);
                assert((t, x) == ((st.block)(p.back_block), p.spec_from_backptr()));
                assert(d == descend(ms, path, a.index, t, x, (fuel - 1) as nat));
                match copy_of(st, p, copies.len()) {
                    Some(c) => {
                        lemma_copy_stands(st, ms, block, p, copies.len());
                        law_ctrl_bits(p.id);
                        let after = seen.copied(p, c);
                        assert(hints_leaf(after.ptrs.last()) == hints_leaf(x));
                        lemma_cow_follows(
                            st,
                            ms,
                            path,
                            a.index,
                            block,
                            c.node,
                            t,
                            x,
                            after,
                            copies.push(c),
                            (fuel - 1) as nat,
                        );
                    },
                    None => {
                        lemma_leaf_ends(ms, path, a.index, t, x, (fuel - 1) as nat);
                        assert(cannot_be_copied(st, t, x));
                    },
                }
            },
            _ => {},
        }
    }
}

/// From a leaf of a squashed range, no way leads on.
proof fn lemma_leaf_ends<T>(
    ms: MarfStore<T>,
    path: Seq<u8>,
    index: int,
    there: T,
    ptr: TriePtr,
    fuel: nat,
)
    requires
        0 <= index <= path.len(),
        (ms.node)(there, ptr) is Squashed,
    ensures
        descend(ms, path, index, there, ptr, fuel) is Broken || descend(
            ms,
            path,
            index,
            there,
            ptr,
            fuel,
        ) is NotFound || (descend(ms, path, index, there, ptr, fuel) matches Descent::Squashed(b, l)
            && b == there && (ms.node)(there, ptr) == StoredNode::Squashed(l)),
{
}

/// A node that is read stands for itself.
proof fn lemma_read_stands<T>(st: CowStore<T>, ms: MarfStore<T>, block: T, p: TriePtr)
    ensures
        stands_for(ms, block, walked((st.node)(block, p)), block, (st.node)(block, p)),
{
    let n = (st.node)(block, p);
    let m = walked(n);
    assert forall|c: u8| lead_alike(ms, block, #[trigger] m.child(c), block, n.child(c)) by {}
}

/// A copy stands for what it is a copy of.
proof fn lemma_copy_stands<T>(st: CowStore<T>, ms: MarfStore<T>, block: T, p: TriePtr, k: nat)
    requires
        same_forest(st, ms),
    ensures
        copy_of(st, p, k) matches Some(c) ==> {
            let from = (st.block)(p.back_block);
            let n = (st.node)(from, p.spec_from_backptr());
            &&& stands_for(ms, block, c.node, from, n)
            &&& match n {
                StoredNode::Node(TrieNodeType::Leaf(l)) => c.node.kind is Leaf && c.node.data
                    == l.data@,
                StoredNode::Node(n) => !(c.node.kind is Leaf),
                StoredNode::Squashed(l) => c.node.kind is Leaf && (c.node.data
                    == l.chunk.tip_value@ || (l.has_history && ((st.height)(from) matches Some(h)
                    && ((st.history)(from, l.chunk, h) matches Some(v) && c.node.data == v@)))),
            }
        },
{
    if let Some(c) = copy_of(st, p, k) {
        let from = (st.block)(p.back_block);
        match (st.node)(from, p.spec_from_backptr()) {
            StoredNode::Node(n) => {
                lemma_copied_slots(st, from, n.model());
                lemma_slots_stand(ms, block, c.node, from, n);
            },
            StoredNode::Squashed(l) => {
                let n = (st.node)(from, p.spec_from_backptr());
                assert forall|x: u8| lead_alike(ms, block, #[trigger] c.node.child(x), from, n.child(x)) by {}
            },
        }
    }
}

/// A copying walk finds what a lookup finds: where it ends at a leaf, that is the leaf at the end of
/// the key's way, and where it ends with an error, the key is not there. It gives up only where the
/// trie is broken, or where the way comes to a leaf of a squashed range that has no value at the
/// height of its block.
pub proof fn law_copying_walk_finds_the_same<T>(
    st: CowStore<T>,
    ms: MarfStore<T>,
    path: Seq<u8>,
    block: T,
    root_ptr: TriePtr,
)
    requires
        same_forest(st, ms),
        path.len() == 32,
    ensures
        ({
            let d = descend(ms, path, 0, block, root_ptr, 33);
            match cow_walk(st, path, block, root_ptr) {
                Some(m) => if m.error is Some {
                    d is NotFound
                } else {
                    ends_alike(st, m, d)
                },
                None => d is Broken || gives_up(st, d),
            }
        }),
{
    lemma_read_stands(st, ms, block, root_ptr);
    lemma_cow_follows(
        st,
        ms,
        path,
        0,
        block,
        walked((st.node)(block, root_ptr)),
        block,
        root_ptr,
        TrailModel { ptrs: seq![root_ptr], blocks: Seq::empty(), nodes: Seq::empty() },
        Seq::empty(),
        33,
    );
}

// ---------------------------------------------------------------------------------------
// What the walk passed
// ---------------------------------------------------------------------------------------
/// Does the pointer after node `i` follow from it? Behind a node of the new trie comes the pointer
/// to its child for some byte, within the new block or back in the block that the child is in;
/// behind a node that was come to by a back-pointer comes the pointer to its copy, which stands for
/// the same byte and is known by the same block.
pub open spec fn linked<T>(st: CowStore<T>, block: T, t: TrailModel<T>, i: int) -> bool {
    let q = t.ptrs[i + 1];
    if i > 0 && is_backptr(t.ptrs[i].id) {
        !is_backptr(q.id) && q.id == clear_backptr(t.ptrs[i].id) && q.chr == t.ptrs[i].chr
            && q.back_block == 0 && t.blocks[i] == t.blocks[i - 1]
    } else {
        t.nodes[i] matches Some(n) && exists|c: u8|
            (#[trigger] n.child(c)) matches Some(p) && if is_backptr(p.id) {
                is_backptr(q.id) && clear_backptr(q.id) == clear_backptr(p.id) && q.chr == p.chr
                    && q.ptr == p.ptr && t.blocks[i] == (st.block)(p.back_block)
            } else {
                q == p && t.blocks[i] == block
            }
    }
}

spec fn trail_ok<T>(st: CowStore<T>, block: T, root_ptr: TriePtr, t: TrailModel<T>) -> bool {
    &&& t.ptrs.len() > 0
    &&& t.ptrs[0] == root_ptr
    &&& t.blocks.len() + 1 == t.ptrs.len()
    &&& t.nodes.len() + 1 >= t.ptrs.len()
    &&& forall|i: int| 0 <= i < t.ptrs.len() - 1 ==> #[trigger] linked(st, block, t, i)
}

proof fn lemma_seen<T>(st: CowStore<T>, block: T, root_ptr: TriePtr, t: TrailModel<T>, n: NodeModel)
    requires
        trail_ok(st, block, root_ptr, t),
    ensures
        trail_ok(st, block, root_ptr, t.seen(n)),
{
    let u = t.seen(n);
    assert forall|i: int| 0 <= i < u.ptrs.len() - 1 implies #[trigger] linked(st, block, u, i) by {
        assert(linked(st, block, t, i));
        assert(u.nodes[i] == t.nodes[i]);
    }
}

proof fn lemma_followed<T>(
    st: CowStore<T>,
    block: T,
    root_ptr: TriePtr,
    t: TrailModel<T>,
    p: TriePtr,
    b: T,
)
    requires
        trail_ok(st, block, root_ptr, t),
        t.nodes.len() == t.ptrs.len(),
        linked(st, block, t.followed(p, b), t.ptrs.len() - 1),
    ensures
        trail_ok(st, block, root_ptr, t.followed(p, b)),
{
    let u = t.followed(p, b);
    assert forall|i: int| 0 <= i < u.ptrs.len() - 1 implies #[trigger] linked(st, block, u, i) by {
        if i < t.ptrs.len() - 1 {
            assert(linked(st, block, t, i));
            assert(u.ptrs[i] == t.ptrs[i] && u.ptrs[i + 1] == t.ptrs[i + 1]);
            assert(u.blocks[i] == t.blocks[i]);
            if i > 0 {
                assert(u.blocks[i - 1] == t.blocks[i - 1]);
            }
        }
    }
}

proof fn lemma_trail<T>(
    st: CowStore<T>,
    path: Seq<u8>,
    index: int,
    block: T,
    root_ptr: TriePtr,
    node: NodeModel,
    trail: TrailModel<T>,
    copies: Seq<CopyModel<T>>,
    fuel: nat,
)
    requires
        0 <= index <= path.len(),
        trail_ok(st, block, root_ptr, trail),
        trail.nodes.len() + 1 == trail.ptrs.len(),
        trail.ptrs.len() > 1 ==> !is_backptr(trail.ptrs.last().id),
    ensures
        cow_descend(st, path, index, block, node, trail, copies, fuel) matches Some(m) ==> trail_ok(
            st,
            block,
            root_ptr,
            m.trail,
        ) && m.trail.nodes.len() == m.trail.ptrs.len(),
    decreases fuel,
{
    if fuel > 0 {
        let s = step(path, index, node.path, |c: u8| node.child(c));
        crate::cursor::law_step_advances(path, index, node.path, |c: u8| node.child(c));
        lemma_common_prefix(node.path, path.skip(index));
        let seen = trail.seen(node);
        lemma_seen(st, block, root_ptr, trail, node);
        let last = seen.ptrs.len() - 1;
        assert(seen.nodes[last] == Some(node));
        match s.outcome {
            Ok(Some(p)) => {
                let next = seen.followed(p, block);
                assert(node.child(path[s.index - 1]) == Some(p));
                assert(linked(st, block, next, last));
                lemma_followed(st, block, root_ptr, seen, p, block);
                lemma_trail(
                    st,
                    path,
                    s.index,
                    block,
                    root_ptr,
                    walked((st.node)(block, p)),
                    next,
                    copies,
                    (fuel - 1) as nat,
                );
            },
            Err(CursorError::BackptrEncountered(p)) => {
                if let Some(c) = copy_of(st, p, copies.len()) {
                    law_ctrl_bits(p.id);
                    law_ctrl_bits(p.spec_from_backptr().id);
                    let there = p.spec_from_backptr();
                    let back = TriePtr {
                        id: crate::node_id::set_backptr(there.id),
                        chr: there.chr,
                        ptr: there.ptr,
                        back_block: 0,
                    };
                    law_ctrl_bits(back.id);
                    let one = seen.followed(back, c.from);
                    assert(node.child(path[s.index - 1]) == Some(p));
                    assert(linked(st, block, one, last));
                    lemma_followed(st, block, root_ptr, seen, back, c.from);
                    lemma_seen(st, block, root_ptr, one, c.was);
                    let two = one.seen(c.was);
                    let q = crate::marf_cow::ptr_to_copy(p, c.at);
                    let three = two.followed(q, c.from);
                    assert(three.ptrs[last + 1] == back);
                    assert(three.blocks[last] == c.from);
                    assert(linked(st, block, three, last + 1));
                    lemma_followed(st, block, root_ptr, two, q, c.from);
                    assert(three == seen.copied(p, c));
                    lemma_trail(
                        st,
                        path,
                        s.index,
                        block,
                        root_ptr,
                        c.node,
                        three,
                        copies.push(c),
                        (fuel - 1) as nat,
                    );
                }
            },
            _ => {},
        }
    }
}

/// What a copying walk passed hangs together: it starts with the root, there is a node for each
/// pointer, a block for each but the first, and each pointer follows from the node before it.
pub proof fn law_copying_walk_hangs_together<T>(
    st: CowStore<T>,
    path: Seq<u8>,
    block: T,
    root_ptr: TriePtr,
)
    requires
        cow_walk(st, path, block, root_ptr) is Some,
    ensures
        ({
            let t = cow_walk(st, path, block, root_ptr).unwrap().trail;
            &&& t.ptrs.len() > 0
            &&& t.ptrs[0] == root_ptr
            &&& t.nodes.len() == t.ptrs.len()
            &&& t.blocks.len() + 1 == t.ptrs.len()
            &&& forall|i: int| 0 <= i < t.ptrs.len() - 1 ==> #[trigger] linked(st, block, t, i)
        }),
{
    lemma_trail(
        st,
        path,
        0,
        block,
        root_ptr,
        walked((st.node)(block, root_ptr)),
        TrailModel { ptrs: seq![root_ptr], blocks: Seq::empty(), nodes: Seq::empty() },
        Seq::empty(),
        33,
    );
}

} // verus!
