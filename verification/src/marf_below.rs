//! What is below a pointer: everything that can be reached from it, through back-pointers or not.

use crate::bytes::{lemma_distinct_strings, lemma_push_unique, strings_of};
use crate::error::{corruption, Error};
use crate::marf_leaves::{nodes_from, read_node_for_ptr};
use crate::marf_walk::{MarfStore, StoredNode};
use crate::node::TrieNodeType;
use crate::node_id::is_backptr;
use crate::ptr::{law_ptr_round_trip, parse_ptr, ptr_bytes, TriePtr};
use crate::value::{same_id, MarfTrieId};
use vstd::prelude::*;

verus! {

/// A pointer, seen from the trie of a block.
pub type Spot<T> = (T, TriePtr);

/// Is `y` the `i`-th slot of the node that `x` leads to?
pub open spec fn child_of<T>(st: MarfStore<T>, x: Spot<T>, i: int, y: Spot<T>) -> bool {
    let (b, node) = StoredNode::at(st, x.0, x.1);
    0 <= i < node.slots().len() && node.slots()[i].id != 0 && y == (b, node.slots()[i])
}

/// Does the way from `start` to `y` take `d` pointers?
pub open spec fn reachable<T>(st: MarfStore<T>, start: Spot<T>, y: Spot<T>, d: nat) -> bool
    decreases d,
{
    if d == 0 {
        y == start
    } else {
        exists|x: Spot<T>, i: int| #[trigger]
            child_of(st, x, i, y) && reachable(st, start, x, (d - 1) as nat)
    }
}

/// Can `y` be reached from `start`?
pub open spec fn is_below<T>(st: MarfStore<T>, start: Spot<T>, y: Spot<T>) -> bool {
    exists|d: nat| #[trigger] reachable(st, start, y, d)
}

/// Can no leaf be reached from `ptr`, seen from `block`?
pub open spec fn no_leaf_below<T>(st: MarfStore<T>, block: T, ptr: TriePtr) -> bool {
    forall|y: Spot<T>| #[trigger]
        is_below(st, (block, ptr), y) ==> StoredNode::at(st, y.0, y.1).1.leaf_value() is None
}

/// Can reading the node that `ptr` leads to from `block` have failed with `e`?
pub open spec fn at_failed<
    T: MarfTrieId,
    N: Fn(&T, &TriePtr) -> Result<StoredNode, Error>,
    B: Fn(u32) -> Result<T, Error>,
>(read_node: N, block_of: B, st: MarfStore<T>, block: T, ptr: TriePtr, e: Error) -> bool {
    if is_backptr(ptr.id) {
        ||| block_of.ensures((ptr.back_block,), Err(e))
        ||| read_node.ensures((&(st.block)(ptr.back_block), &ptr.spec_from_backptr()), Err(e))
    } else {
        read_node.ensures((&block, &ptr), Err(e))
    }
}

/// Can reading a node that is below `start` have failed with `e`?
pub open spec fn below_failed<
    T: MarfTrieId,
    N: Fn(&T, &TriePtr) -> Result<StoredNode, Error>,
    B: Fn(u32) -> Result<T, Error>,
>(read_node: N, block_of: B, st: MarfStore<T>, start: Spot<T>, e: Error) -> bool {
    exists|y: Spot<T>| #[trigger]
        is_below(st, start, y) && at_failed(read_node, block_of, st, y.0, y.1, e)
}

/// Everything is below itself.
pub proof fn lemma_below_self<T>(st: MarfStore<T>, x: Spot<T>)
    ensures
        is_below(st, x, x),
{
    assert(reachable(st, x, x, 0));
}

/// The child of what is below something is below it.
pub proof fn lemma_below_child<T>(
    st: MarfStore<T>,
    start: Spot<T>,
    x: Spot<T>,
    i: int,
    y: Spot<T>,
)
    requires
        is_below(st, start, x),
        child_of(st, x, i, y),
    ensures
        is_below(st, start, y),
{
    let d = choose|d: nat| #[trigger] reachable(st, start, x, d);
    assert(reachable(st, start, y, d + 1));
}

/// What is below something that is below another is below that one.
pub proof fn lemma_below_trans<T>(st: MarfStore<T>, a: Spot<T>, b: Spot<T>, c: Spot<T>, d: nat)
    requires
        is_below(st, a, b),
        reachable(st, b, c, d),
    ensures
        is_below(st, a, c),
    decreases d,
{
    if d > 0 {
        let (x, i) = choose|x: Spot<T>, i: int| #[trigger]
            child_of(st, x, i, c) && reachable(st, b, x, (d - 1) as nat);
        lemma_below_trans(st, a, b, x, (d - 1) as nat);
        lemma_below_child(st, a, x, i, c);
    }
}

/// What fails below something that is below another fails below that one.
pub proof fn lemma_below_failed<
    T: MarfTrieId,
    N: Fn(&T, &TriePtr) -> Result<StoredNode, Error>,
    B: Fn(u32) -> Result<T, Error>,
>(read_node: N, block_of: B, st: MarfStore<T>, a: Spot<T>, b: Spot<T>, e: Error)
    requires
        is_below(st, a, b),
        below_failed(read_node, block_of, st, b, e),
    ensures
        below_failed(read_node, block_of, st, a, e),
{
    let y = choose|y: Spot<T>| #[trigger]
        is_below(st, b, y) && at_failed(read_node, block_of, st, y.0, y.1, e);
    let d = choose|d: nat| #[trigger] reachable(st, b, y, d);
    lemma_below_trans(st, a, b, y, d);
    assert(is_below(st, a, y));
}

// ---------------------------------------------------------------------------------------
// The search
// ---------------------------------------------------------------------------------------
/// Has the search come to `x`, or will it?
spec fn covered<T>(stack: Seq<Spot<T>>, seen: Seq<Spot<T>>, x: Spot<T>) -> bool {
    stack.contains(x) || seen.contains(x)
}

/// Is `x` done with: no leaf, and all that follows is covered?
spec fn done<T>(
    st: MarfStore<T>,
    start: Spot<T>,
    stack: Seq<Spot<T>>,
    seen: Seq<Spot<T>>,
    x: Spot<T>,
) -> bool {
    &&& StoredNode::at(st, x.0, x.1).1.leaf_value() is None
    &&& forall|i: int, y: Spot<T>| #[trigger] child_of(st, x, i, y) ==> covered(stack, seen, y)
}

/// What holds of the search.
spec fn search_inv<T>(
    st: MarfStore<T>,
    start: Spot<T>,
    stack: Seq<Spot<T>>,
    seen: Seq<Spot<T>>,
) -> bool {
    &&& covered(stack, seen, start)
    &&& forall|x: Spot<T>| #[trigger] stack.contains(x) ==> is_below(st, start, x)
    &&& forall|x: Spot<T>| #[trigger] seen.contains(x) ==> done(st, start, stack, seen, x)
}

/// A search that comes to what it has seen goes on.
proof fn lemma_seen_again<T>(
    st: MarfStore<T>,
    start: Spot<T>,
    stack: Seq<Spot<T>>,
    seen: Seq<Spot<T>>,
)
    requires
        search_inv(st, start, stack, seen),
        stack.len() > 0,
        seen.contains(stack.last()),
    ensures
        search_inv(st, start, stack.drop_last(), seen),
{
    let rest = stack.drop_last();
    assert forall|x: Spot<T>| covered(stack, seen, x) implies covered(rest, seen, x) by {
        if stack.contains(x) {
            let k = choose|k: int| 0 <= k < stack.len() && stack[k] == x;
            if k < rest.len() {
                assert(rest[k] == x);
            }
        }
    }
    assert forall|x: Spot<T>| #[trigger] rest.contains(x) implies is_below(st, start, x) by {
        let k = choose|k: int| 0 <= k < rest.len() && rest[k] == x;
        assert(stack[k] == x);
        assert(stack.contains(x));
    }
    assert forall|x: Spot<T>| #[trigger] seen.contains(x) implies done(st, start, rest, seen, x) by {
        assert(done(st, start, stack, seen, x));
    }
}

/// A search that comes to a node that is no leaf goes on with its children.
proof fn lemma_seen_first<T>(
    st: MarfStore<T>,
    start: Spot<T>,
    stack: Seq<Spot<T>>,
    seen: Seq<Spot<T>>,
    next: Seq<Spot<T>>,
)
    requires
        search_inv(st, start, stack, seen),
        stack.len() > 0,
        StoredNode::at(st, stack.last().0, stack.last().1).1.leaf_value() is None,
        forall|y: Spot<T>| #[trigger]
            next.contains(y) <==> stack.drop_last().contains(y) || exists|i: int| #[trigger]
                child_of(st, stack.last(), i, y),
    ensures
        search_inv(st, start, next, seen.push(stack.last())),
{
    let rest = stack.drop_last();
    let x = stack.last();
    let now = seen.push(x);
    assert(stack[stack.len() - 1] == x);
    assert(stack.contains(x));
    assert(now[seen.len() as int] == x);
    assert forall|y: Spot<T>| seen.contains(y) implies now.contains(y) by {
        let k = choose|k: int| 0 <= k < seen.len() && seen[k] == y;
        assert(now[k] == y);
    }
    assert forall|y: Spot<T>| covered(stack, seen, y) implies covered(next, now, y) by {
        if stack.contains(y) {
            let k = choose|k: int| 0 <= k < stack.len() && stack[k] == y;
            if k < rest.len() {
                assert(rest[k] == y);
                assert(rest.contains(y));
            }
        }
    }
    assert forall|y: Spot<T>| #[trigger] next.contains(y) implies is_below(st, start, y) by {
        if rest.contains(y) {
            let k = choose|k: int| 0 <= k < rest.len() && rest[k] == y;
            assert(stack[k] == y);
            assert(stack.contains(y));
        } else {
            let i = choose|i: int| #[trigger] child_of(st, x, i, y);
            lemma_below_child(st, start, x, i, y);
        }
    }
    assert forall|y: Spot<T>| #[trigger] now.contains(y) implies done(st, start, next, now, y) by {
        let k = choose|k: int| 0 <= k < now.len() && now[k] == y;
        if k < seen.len() {
            assert(seen[k] == y);
            assert(seen.contains(y));
            assert(done(st, start, stack, seen, y));
        } else {
            assert forall|i: int, z: Spot<T>| #[trigger] child_of(st, y, i, z) implies covered(
                next,
                now,
                z,
            ) by {
                assert(next.contains(z));
            }
        }
    }
}

/// When the search is over, all that is below was seen.
proof fn lemma_all_seen<T>(
    st: MarfStore<T>,
    start: Spot<T>,
    seen: Seq<Spot<T>>,
    y: Spot<T>,
    d: nat,
)
    requires
        search_inv(st, start, Seq::empty(), seen),
        reachable(st, start, y, d),
    ensures
        seen.contains(y),
    decreases d,
{
    if d > 0 {
        let (x, i) = choose|x: Spot<T>, i: int| #[trigger]
            child_of(st, x, i, y) && reachable(st, start, x, (d - 1) as nat);
        lemma_all_seen(st, start, seen, x, (d - 1) as nat);
        assert(done(st, start, Seq::empty(), seen, x));
        assert(covered(Seq::empty(), seen, y));
    }
}

/// There are only so many different pointers.
proof fn lemma_spots_bounded<T: MarfTrieId>(seen: Seq<Spot<T>>)
    requires
        seen.no_duplicates(),
    ensures
        seen.len() <= strings_of(42),
{
    let bytes = Seq::new(seen.len(), |i: int| seen[i].0.id_bytes()@ + ptr_bytes(seen[i].1));
    assert forall|i: int| 0 <= i < bytes.len() implies (#[trigger] bytes[i]).len() == 42 by {
        law_ptr_round_trip(seen[i].1, Seq::empty());
    }
    assert forall|i: int, j: int|
        0 <= i < bytes.len() && 0 <= j < bytes.len() && i != j implies bytes[i] != bytes[j] by {
        if bytes[i] == bytes[j] {
            let (a, b) = (seen[i], seen[j]);
            assert(a.0.id_bytes()@ =~= bytes[i].take(32));
            assert(b.0.id_bytes()@ =~= bytes[j].take(32));
            T::lemma_id_bytes_determine(a.0, b.0);
            assert(ptr_bytes(a.1) =~= bytes[i].skip(32));
            assert(ptr_bytes(b.1) =~= bytes[j].skip(32));
            law_ptr_round_trip(a.1, Seq::empty());
            law_ptr_round_trip(b.1, Seq::empty());
            assert(ptr_bytes(a.1) + Seq::<u8>::empty() =~= ptr_bytes(b.1) + Seq::<u8>::empty());
            assert(parse_ptr(ptr_bytes(a.1) + Seq::<u8>::empty()) == a.1);
            assert(a == b);
        }
    }
    lemma_distinct_strings(bytes, 42);
}

fn is_seen<T: MarfTrieId>(seen: &[(T, TriePtr)], x: &(T, TriePtr)) -> (r: bool)
    ensures
        r == seen@.contains(*x),
{
    let mut i: usize = 0;
    while i < seen.len()
        invariant
            i <= seen@.len(),
            forall|j: int| 0 <= j < i ==> seen@[j] != *x,
        decreases seen@.len() - i,
    {
        if same_id(&seen[i].0, &x.0) && seen[i].1 == x.1 {
            assert(seen@[i as int] == *x);
            return true;
        }
        assert(seen@[i as int] != *x);
        i += 1;
    }
    false
}

/// Put the slots of a node of `block` onto the stack.
fn push_spots<T: MarfTrieId>(stack: &mut Vec<(T, TriePtr)>, slots: &[TriePtr], block: &T)
    ensures
        forall|y: Spot<T>| #[trigger]
            final(stack)@.contains(y) <==> old(stack)@.contains(y) || exists|i: int|
                0 <= i < slots@.len() && (#[trigger] slots@[i]).id != 0 && y == (*block, slots@[i]),
{
    let mut k: usize = 0;
    while k < slots.len()
        invariant
            k <= slots@.len(),
            forall|y: Spot<T>| #[trigger]
                stack@.contains(y) <==> old(stack)@.contains(y) || exists|i: int|
                    0 <= i < k && (#[trigger] slots@[i]).id != 0 && y == (*block, slots@[i]),
        decreases slots@.len() - k,
    {
        let p = slots[k];
        if p.id() != 0 {
            let ghost before = stack@;
            stack.push((*block, p));
            assert forall|y: Spot<T>| #[trigger]
                stack@.contains(y) <==> before.contains(y) || y == (*block, p) by {
                assert(stack@[before.len() as int] == (*block, p));
                if before.contains(y) {
                    let j = choose|j: int| 0 <= j < before.len() && before[j] == y;
                    assert(stack@[j] == y);
                }
                if stack@.contains(y) {
                    let j = choose|j: int| 0 <= j < stack@.len() && stack@[j] == y;
                    if j < before.len() {
                        assert(before[j] == y);
                    }
                }
            }
            assert(slots@[k as int] == p);
        }
        k += 1;
    }
}

/// Check that no leaf can be reached from `ptr`, seen from `block`: there is no place for one. A
/// pointer that is come to again is not followed again.
pub fn check_no_leaf<
    T: MarfTrieId,
    N: Fn(&T, &TriePtr) -> Result<StoredNode, Error>,
    B: Fn(u32) -> Result<T, Error>,
>(block: &T, ptr: &TriePtr, read_node: &N, block_of: &B) -> (r: Result<(), Error>)
    requires
        forall|block: T, ptr: TriePtr| read_node.requires((&block, &ptr)),
        forall|id: u32| block_of.requires((id,)),
    ensures
        forall|st: MarfStore<T>| #[trigger]
            nodes_from(*read_node, *block_of, st) ==> match r {
                Ok(_) => no_leaf_below(st, *block, *ptr),
                Err(e) => below_failed(*read_node, *block_of, st, (*block, *ptr), e) || (
                e is CorruptionError && !no_leaf_below(st, *block, *ptr)),
            },
{
    let ghost start = (*block, *ptr);
    let mut seen: Vec<(T, TriePtr)> = Vec::new();
    let mut stack: Vec<(T, TriePtr)> = Vec::new();
    stack.push((*block, *ptr));
    proof {
        assert(stack@[0] == start);
        assert forall|st: MarfStore<T>| #[trigger]
            nodes_from(*read_node, *block_of, st) implies search_inv(st, start, stack@, seen@) by {
            lemma_below_self(st, start);
        }
        lemma_spots_bounded(seen@);
    }
    while stack.len() > 0
        invariant
            forall|block: T, ptr: TriePtr| read_node.requires((&block, &ptr)),
            forall|id: u32| block_of.requires((id,)),
            start == (*block, *ptr),
            seen@.no_duplicates(),
            seen@.len() <= strings_of(42),
            forall|st: MarfStore<T>| #[trigger]
                nodes_from(*read_node, *block_of, st) ==> search_inv(st, start, stack@, seen@),
        decreases strings_of(42) - seen@.len(), stack@.len(),
    {
        let ghost before = stack@;
        let x = stack.pop().unwrap();
        let ghost rest = stack@;
        proof {
            assert(rest =~= before.drop_last());
            assert(before[before.len() - 1] == x);
            assert(before.contains(x));
        }
        if is_seen(seen.as_slice(), &x) {
            assert forall|st: MarfStore<T>| #[trigger]
                nodes_from(*read_node, *block_of, st) implies search_inv(
                st,
                start,
                stack@,
                seen@,
            ) by {
                lemma_seen_again(st, start, before, seen@);
            }
            continue ;
        }
        let (at, node) = match read_node_for_ptr(&x.0, &x.1, read_node, block_of) {
            Ok(found) => found,
            Err(e) => {
                assert forall|st: MarfStore<T>| #[trigger]
                    nodes_from(*read_node, *block_of, st) implies below_failed(
                    *read_node,
                    *block_of,
                    st,
                    start,
                    e,
                ) by {
                    assert(is_below(st, start, x));
                }
                return Err(e);
            },
        };
        let leaf = match &node {
            StoredNode::Node(TrieNodeType::Leaf(_)) => true,
            StoredNode::Node(_) => false,
            StoredNode::Squashed(_) => true,
        };
        if leaf {
            assert forall|st: MarfStore<T>| #[trigger]
                nodes_from(*read_node, *block_of, st) implies !no_leaf_below(st, *block, *ptr) by {
                assert(is_below(st, start, x));
            }
            return Err(corruption("Leaf path length invalid"));
        }
        let ghost had = seen@;
        seen.push(x);
        if let StoredNode::Node(n) = &node {
            push_spots(&mut stack, n.ptrs(), &at);
        }
        proof {
            lemma_push_unique(had, x);
            lemma_spots_bounded(seen@);
            assert forall|st: MarfStore<T>| #[trigger]
                nodes_from(*read_node, *block_of, st) implies search_inv(
                st,
                start,
                stack@,
                seen@,
            ) by {
                assert(StoredNode::at(st, x.0, x.1) == (at, node));
                assert forall|y: Spot<T>| #[trigger]
                    stack@.contains(y) <==> rest.contains(y) || exists|i: int| #[trigger]
                        child_of(st, x, i, y) by {
                    let slots = node.slots();
                    if exists|i: int|
                        0 <= i < slots.len() && (#[trigger] slots[i]).id != 0 && y == (
                        at,
                        slots[i],
                    ) {
                        let i = choose|i: int|
                            0 <= i < slots.len() && (#[trigger] slots[i]).id != 0 && y == (
                            at,
                            slots[i],
                        );
                        assert(child_of(st, x, i, y));
                    }
                    if exists|i: int| #[trigger] child_of(st, x, i, y) {
                        let i = choose|i: int| #[trigger] child_of(st, x, i, y);
                        assert(slots[i].id != 0 && y == (at, slots[i]));
                    }
                }
                lemma_seen_first(st, start, before, had, stack@);
            }
        }
    }
    proof {
        assert forall|st: MarfStore<T>| #[trigger]
            nodes_from(*read_node, *block_of, st) implies no_leaf_below(st, *block, *ptr) by {
            assert(stack@ =~= Seq::empty());
            assert forall|y: Spot<T>| #[trigger] is_below(st, start, y) implies StoredNode::at(
                st,
                y.0,
                y.1,
            ).1.leaf_value() is None by {
                let d = choose|d: nat| #[trigger] reachable(st, start, y, d);
                lemma_all_seen(st, start, seen@, y, d);
                assert(done(st, start, stack@, seen@, y));
            }
        }
    }
    Ok(())
}

} // verus!
