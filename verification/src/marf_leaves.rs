//! All leaves of a block's trie, those in the tries of earlier blocks included.

use crate::bytes::push_all;
use crate::error::{corruption, Error};
use crate::hash::TrieHash;
use crate::marf_below::{
    at_failed, below_failed, check_no_leaf, child_of, is_below, lemma_below_child, lemma_below_failed,
    lemma_below_self, no_leaf_below, Spot,
};
use crate::marf_walk::{MarfStore, StoredNode};
use crate::node::TrieNodeType;
use crate::node_id::is_backptr;
use crate::ptr::TriePtr;
use crate::value::{MARFValue, MarfTrieId};
use vstd::prelude::*;

verus! {

/// A leaf's full path and its value.
pub type LeafModel = (Seq<u8>, MARFValue);

impl StoredNode {
    /// The value of a leaf. A squashed one counts with the value at the end of its range.
    pub open spec fn leaf_value(&self) -> Option<MARFValue> {
        match self {
            StoredNode::Node(TrieNodeType::Leaf(leaf)) => Some(leaf.data),
            StoredNode::Node(_) => None,
            StoredNode::Squashed(leaf) => Some(leaf.chunk.tip_value),
        }
    }

    /// The slots of a node. A leaf has none.
    pub open spec fn slots(&self) -> Seq<TriePtr> {
        match self {
            StoredNode::Node(n) => n.model().ptrs,
            StoredNode::Squashed(_) => Seq::empty(),
        }
    }

    /// The block and the node that a pointer from a node of `block` leads to.
    pub open spec fn at<T>(st: MarfStore<T>, block: T, ptr: TriePtr) -> (T, StoredNode) {
        if is_backptr(ptr.id) {
            let b = (st.block)(ptr.back_block);
            (b, (st.node)(b, ptr.spec_from_backptr()))
        } else {
            (block, (st.node)(block, ptr))
        }
    }
}

/// Both lists, if there are both.
pub open spec fn cat<A>(a: Option<Seq<A>>, b: Option<Seq<A>>) -> Option<Seq<A>> {
    match (a, b) {
        (Some(x), Some(y)) => Some(x + y),
        _ => None,
    }
}

/// How many bytes are left of a path after `n`.
pub open spec fn room(n: nat) -> nat {
    if n <= 33 {
        (33 - n) as nat
    } else {
        0
    }
}

/// The leaves under the node that `ptr` leads to from `block`, where the path to it is `prefix`.
/// `None` where a leaf's path does not have the length of a path.
pub open spec fn leaves<T>(st: MarfStore<T>, block: T, ptr: TriePtr, prefix: Seq<u8>) -> Option<
    Seq<LeafModel>,
>
    decreases room(prefix.len()), 1nat, 0nat,
{
    let (b, node) = StoredNode::at(st, block, ptr);
    let full = prefix + node.path();
    match node.leaf_value() {
        Some(v) => if full.len() == 32 {
            Some(seq![(full, v)])
        } else {
            None
        },
        None => slot_leaves(st, b, node.slots(), full, node.slots().len()),
    }
}

/// The leaves under the first `n` slots, those of later slots first.
pub open spec fn slot_leaves<T>(
    st: MarfStore<T>,
    block: T,
    slots: Seq<TriePtr>,
    full: Seq<u8>,
    n: nat,
) -> Option<Seq<LeafModel>>
    decreases room(full.len()), 0nat, n,
{
    if n == 0 {
        Some(Seq::empty())
    } else {
        let p = slots[n - 1];
        if p.id == 0 {
            slot_leaves(st, block, slots, full, (n - 1) as nat)
        } else if full.len() >= 32 {
            // too deep for a leaf
            if no_leaf_below(st, block, p) {
                slot_leaves(st, block, slots, full, (n - 1) as nat)
            } else {
                None
            }
        } else {
            cat(
                leaves(st, block, p, full.push(p.chr)),
                slot_leaves(st, block, slots, full, (n - 1) as nat),
            )
        }
    }
}

/// A node that is still to be looked at.
#[derive(Debug)]
pub struct Pending<T: MarfTrieId> {
    pub ptr: TriePtr,
    pub prefix: Vec<u8>,
    pub block: T,
}

/// The leaves under everything on the stack, from its top on.
pub open spec fn stack_leaves<T: MarfTrieId>(st: MarfStore<T>, stack: Seq<Pending<T>>) -> Option<
    Seq<LeafModel>,
>
    decreases stack.len(),
{
    if stack.len() == 0 {
        Some(Seq::empty())
    } else {
        let top = stack.last();
        cat(leaves(st, top.block, top.ptr, top.prefix@), stack_leaves(st, stack.drop_last()))
    }
}

/// The leaves that were collected.
pub open spec fn collected(out: Seq<(TrieHash, MARFValue)>) -> Seq<LeafModel> {
    Seq::new(out.len(), |i: int| (out[i].0@, out[i].1))
}

/// Do the lookups answer from this forest?
pub open spec fn nodes_from<
    T: MarfTrieId,
    N: Fn(&T, &TriePtr) -> Result<StoredNode, Error>,
    B: Fn(u32) -> Result<T, Error>,
>(read_node: N, block_of: B, st: MarfStore<T>) -> bool {
    &&& forall|block: T, ptr: TriePtr, n: StoredNode| #[trigger]
        read_node.ensures((&block, &ptr), Ok(n)) ==> (st.node)(block, ptr) == n
    &&& forall|id: u32, block: T| #[trigger]
        block_of.ensures((id,), Ok(block)) ==> (st.block)(id) == block
}

/// Read the node that `ptr` leads to from `block`, following a back-pointer. Returns the block it
/// is in, too.
pub fn read_node_for_ptr<
    T: MarfTrieId,
    N: Fn(&T, &TriePtr) -> Result<StoredNode, Error>,
    B: Fn(u32) -> Result<T, Error>,
>(block: &T, ptr: &TriePtr, read_node: &N, block_of: &B) -> (r: Result<(T, StoredNode), Error>)
    requires
        forall|block: T, ptr: TriePtr| read_node.requires((&block, &ptr)),
        forall|id: u32| block_of.requires((id,)),
    ensures
        forall|st: MarfStore<T>| #[trigger]
            nodes_from(*read_node, *block_of, st) ==> match r {
                Ok((b, node)) => StoredNode::at(st, *block, *ptr) == (b, node),
                Err(e) => at_failed(*read_node, *block_of, st, *block, *ptr, e),
            },
{
    if is_backptr(ptr.id()) {
        let back = match block_of(ptr.back_block()) {
            Ok(b) => b,
            Err(e) => {
                return Err(e);
            },
        };
        let p = ptr.from_backptr();
        match read_node(&back, &p) {
            Ok(node) => Ok((back, node)),
            Err(e) => Err(e),
        }
    } else {
        match read_node(block, ptr) {
            Ok(node) => Ok((*block, node)),
            Err(e) => Err(e),
        }
    }
}

/// How much work a node with `n` bytes of path left can make: more than all of its children
/// together.
spec fn weight(n: nat) -> nat
    decreases n,
{
    if n == 0 {
        1
    } else {
        257 * weight((n - 1) as nat)
    }
}

spec fn work<T: MarfTrieId>(stack: Seq<Pending<T>>) -> nat
    decreases stack.len(),
{
    if stack.len() == 0 {
        0
    } else {
        work(stack.drop_last()) + weight(room(stack.last().prefix@.len()))
    }
}

proof fn lemma_weight(a: nat, b: nat)
    requires
        a <= b,
    ensures
        1 <= weight(a) <= weight(b),
    decreases b,
{
    if a < b {
        lemma_weight(a, (b - 1) as nat);
    } else if a > 0 {
        lemma_weight((a - 1) as nat, (a - 1) as nat);
    }
}

fn copy_bytes(b: &[u8]) -> (r: Vec<u8>)
    ensures
        r@ == b@,
{
    let mut out: Vec<u8> = Vec::new();
    push_all(&mut out, b);
    assert(out@ =~= b@);
    out
}

/// Put the children of a node onto the stack.
fn push_children<T: MarfTrieId>(
    stack: &mut Vec<Pending<T>>,
    slots: &[TriePtr],
    full: &[u8],
    block: &T,
)
    requires
        slots@.len() <= 256,
        full@.len() < 32,
        forall|i: int| 0 <= i < old(stack)@.len() ==> (#[trigger] old(stack)@[i]).prefix@.len() <= 32,
    ensures
        forall|i: int|
            0 <= i < final(stack)@.len() ==> (#[trigger] final(stack)@[i]).prefix@.len() <= 32,
        forall|st: MarfStore<T>|
            #![trigger stack_leaves(st, final(stack)@)]
            stack_leaves(st, final(stack)@) == cat(
                slot_leaves(st, *block, slots@, full@, slots@.len()),
                stack_leaves(st, old(stack)@),
            ),
        work(final(stack)@) < work(old(stack)@) + weight(room(full@.len())),
        forall|j: int|
            0 <= j < final(stack)@.len() ==> {
                ||| j < old(stack)@.len() && (#[trigger] final(stack)@[j]) == old(stack)@[j]
                ||| final(stack)@[j].block == *block && exists|i: int|
                    0 <= i < slots@.len() && (#[trigger] slots@[i]).id != 0
                        && final(stack)@[j].ptr == slots@[i]
            },
{
    let ghost was = stack@;
    let ghost w = weight(room((full@.len() + 1) as nat));
    let mut i: usize = 0;
    proof {
        lemma_weight(0, room((full@.len() + 1) as nat));
        lemma_weight(0, room(full@.len()));
        assert(forall|st: MarfStore<T>| (#[trigger] stack_leaves(st, was)) == cat(
            Some(Seq::<LeafModel>::empty()),
            stack_leaves(st, was),
        )) by {
            assert forall|st: MarfStore<T>| (#[trigger] stack_leaves(st, was)) == cat(
                Some(Seq::<LeafModel>::empty()),
                stack_leaves(st, was),
            ) by {
                if let Some(x) = stack_leaves(st, was) {
                    assert(Seq::<LeafModel>::empty() + x =~= x);
                }
            }
        }
    }
    while i < slots.len()
        invariant
            i <= slots@.len() <= 256,
            was == old(stack)@,
            w == weight(room((full@.len() + 1) as nat)),
            w >= 1,
            forall|j: int| 0 <= j < stack@.len() ==> (#[trigger] stack@[j]).prefix@.len() <= 32,
            forall|st: MarfStore<T>|
                #![trigger stack_leaves(st, stack@)]
                stack_leaves(st, stack@) == cat(
                    slot_leaves(st, *block, slots@, full@, i as nat),
                    stack_leaves(st, was),
                ),
            work(stack@) <= work(was) + i * w,
            full@.len() < 32,
            forall|j: int|
                0 <= j < stack@.len() ==> {
                    ||| j < was.len() && (#[trigger] stack@[j]) == was[j]
                    ||| stack@[j].block == *block && exists|k: int|
                        0 <= k < slots@.len() && (#[trigger] slots@[k]).id != 0 && stack@[j].ptr
                            == slots@[k]
                },
        decreases slots@.len() - i,
    {
        let p = slots[i];
        if p.id() != 0 {
            let mut prefix = copy_bytes(full);
            prefix.push(p.chr());
            let ghost before = stack@;
            stack.push(Pending { ptr: p, prefix, block: *block });
            proof {
                assert(stack@.drop_last() =~= before);
                assert(prefix@ =~= full@.push(p.chr));
                assert forall|st: MarfStore<T>|
                    #![trigger stack_leaves(st, stack@)]
                    stack_leaves(st, stack@) == cat(
                        slot_leaves(st, *block, slots@, full@, i as nat + 1),
                        stack_leaves(st, was),
                    ) by {
                    assert(stack_leaves(st, before) == cat(
                        slot_leaves(st, *block, slots@, full@, i as nat),
                        stack_leaves(st, was),
                    ));
                    lemma_cat_assoc(
                        leaves(st, *block, p, full@.push(p.chr)),
                        slot_leaves(st, *block, slots@, full@, i as nat),
                        stack_leaves(st, was),
                    );
                }
                assert((i + 1) * w == i * w + w) by (nonlinear_arith);
            }
        } else {
            proof {
                assert((i + 1) * w == i * w + w) by (nonlinear_arith);
            }
        }
        i += 1;
    }
    proof {
        assert(room(full@.len()) == room((full@.len() + 1) as nat) + 1);
        assert(weight(room(full@.len())) == 257 * w);
        assert(i * w < 257 * w) by (nonlinear_arith)
            requires
                i <= 256,
                w >= 1,
        ;
    }
}

/// Check that no leaf can be reached from any of the slots of a node of `block`, to which the path
/// is `full` already. The last slot is looked at first.
fn check_slots<
    T: MarfTrieId,
    N: Fn(&T, &TriePtr) -> Result<StoredNode, Error>,
    B: Fn(u32) -> Result<T, Error>,
>(slots: &[TriePtr], full: &[u8], block: &T, read_node: &N, block_of: &B) -> (r: Result<(), Error>)
    requires
        full@.len() >= 32,
        forall|block: T, ptr: TriePtr| read_node.requires((&block, &ptr)),
        forall|id: u32| block_of.requires((id,)),
    ensures
        forall|st: MarfStore<T>| #[trigger]
            nodes_from(*read_node, *block_of, st) ==> {
                let found = slot_leaves(st, *block, slots@, full@, slots@.len());
                match r {
                    Ok(_) => found == Some(Seq::<LeafModel>::empty()),
                    Err(e) => (e is CorruptionError && found is None) || exists|i: int|
                        0 <= i < slots@.len() && (#[trigger] slots@[i]).id != 0 && below_failed(
                            *read_node,
                            *block_of,
                            st,
                            (*block, slots@[i]),
                            e,
                        ),
                }
            },
{
    let mut i: usize = slots.len();
    while i > 0
        invariant
            full@.len() >= 32,
            forall|block: T, ptr: TriePtr| read_node.requires((&block, &ptr)),
            forall|id: u32| block_of.requires((id,)),
            i <= slots@.len(),
            forall|st: MarfStore<T>| #[trigger]
                nodes_from(*read_node, *block_of, st) ==> slot_leaves(
                    st,
                    *block,
                    slots@,
                    full@,
                    slots@.len(),
                ) == slot_leaves(st, *block, slots@, full@, i as nat),
        decreases i,
    {
        let p = slots[i - 1];
        if p.id() != 0 {
            match check_no_leaf(block, &p, read_node, block_of) {
                Ok(_) => {},
                Err(e) => {
                    assert(slots@[i - 1] == p);
                    return Err(e);
                },
            }
        }
        i -= 1;
    }
    Ok(())
}

proof fn lemma_cat_assoc<A>(a: Option<Seq<A>>, b: Option<Seq<A>>, c: Option<Seq<A>>)
    ensures
        cat(cat(a, b), c) == cat(a, cat(b, c)),
{
    if a is Some && b is Some && c is Some {
        assert(a.unwrap() + b.unwrap() + c.unwrap() =~= a.unwrap() + (b.unwrap() + c.unwrap()));
    }
}

/// Was every leaf taken?
pub open spec fn all_handled<F: Fn(TrieHash, MARFValue) -> Result<(), Error>>(
    handle_leaf: F,
    leaves: Seq<(TrieHash, MARFValue)>,
) -> bool {
    forall|i: int|
        0 <= i < leaves.len() ==> handle_leaf.ensures(
            ((#[trigger] leaves[i]).0, leaves[i].1),
            Ok(()),
        )
}

/// Was `e` the answer to the leaf that follows those that were taken?
pub open spec fn refused_leaf<T, F: Fn(TrieHash, MARFValue) -> Result<(), Error>>(
    handle_leaf: F,
    st: MarfStore<T>,
    root: Spot<T>,
    taken: Seq<LeafModel>,
    e: Error,
) -> bool {
    exists|path: TrieHash, value: MARFValue, y: Spot<T>| #[trigger]
        handle_leaf.ensures((path, value), Err(e)) && #[trigger] is_below(st, root, y)
            && StoredNode::at(st, y.0, y.1).1.leaf_value() == Some(value) && (leaves(
            st,
            root.0,
            root.1,
            Seq::empty(),
        ) matches Some(all) ==> all.len() > taken.len() && all.take(taken.len() as int) == taken
            && all[taken.len() as int] == (path@, value))
}

/// Hand the leaves of a block's trie to `handle_leaf`, with their full paths, and count them. A leaf
/// that stands for a squashed range counts with the value at the end of the range. `out` gets the
/// leaves that were taken, in order.
///
/// `read_node` reads a node of a block's trie and `block_of` gives the block with a number; their
/// errors, and those of `handle_leaf`, are passed on. A leaf whose path does not have the length of
/// a path is corruption.
pub fn for_each_leaf<
    T: MarfTrieId,
    N: Fn(&T, &TriePtr) -> Result<StoredNode, Error>,
    B: Fn(u32) -> Result<T, Error>,
    F: Fn(TrieHash, MARFValue) -> Result<(), Error>,
>(
    block: &T,
    root_ptr: &TriePtr,
    read_node: &N,
    block_of: &B,
    handle_leaf: &F,
    out: &mut Vec<(TrieHash, MARFValue)>,
) -> (r: Result<usize, Error>)
    requires
        forall|block: T, ptr: TriePtr| read_node.requires((&block, &ptr)),
        forall|id: u32| block_of.requires((id,)),
        forall|path: TrieHash, value: MARFValue| handle_leaf.requires((path, value)),
    ensures
        final(out)@.len() >= old(out)@.len(),
        final(out)@.take(old(out)@.len() as int) == old(out)@,
        all_handled(*handle_leaf, final(out)@.skip(old(out)@.len() as int)),
        r matches Ok(n) ==> final(out)@.len() == old(out)@.len() + n,
        forall|st: MarfStore<T>| #[trigger]
            nodes_from(*read_node, *block_of, st) ==> {
                let taken = collected(final(out)@.skip(old(out)@.len() as int));
                match r {
                    Ok(n) => leaves(st, *block, *root_ptr, Seq::empty()) == Some(taken),
                    Err(e) => {
                        ||| e is CorruptionError && leaves(
                            st,
                            *block,
                            *root_ptr,
                            Seq::empty(),
                        ) is None
                        ||| below_failed(*read_node, *block_of, st, (*block, *root_ptr), e)
                        ||| refused_leaf(*handle_leaf, st, (*block, *root_ptr), taken, e)
                    },
                }
            },
{
    let ghost had = out@.len() as int;
    let mut stack: Vec<Pending<T>> = Vec::new();
    stack.push(Pending { ptr: *root_ptr, prefix: Vec::new(), block: *block });
    let first = out.len();
    proof {
        assert(collected(out@.skip(had)) =~= Seq::<LeafModel>::empty());
        assert(stack@[0].prefix@ =~= Seq::<u8>::empty());
        assert forall|st: MarfStore<T>| is_below(st, (*block, *root_ptr), (*block, *root_ptr)) by {
            lemma_below_self(st, (*block, *root_ptr));
        }
        assert forall|st: MarfStore<T>| #[trigger]
            nodes_from(*read_node, *block_of, st) implies leaves(
            st,
            *block,
            *root_ptr,
            Seq::empty(),
        ) == cat(Some(collected(out@.skip(had))), stack_leaves(st, stack@)) by {
            let all = leaves(st, *block, *root_ptr, Seq::empty());
            assert(stack@.drop_last() =~= Seq::empty());
            assert(stack_leaves(st, stack@.drop_last()) == Some(Seq::<LeafModel>::empty()));
            if let Some(x) = all {
                assert(x + Seq::<LeafModel>::empty() =~= x);
                assert(Seq::<LeafModel>::empty() + x =~= x);
            }
        }
    }
    while stack.len() > 0
        invariant
            forall|block: T, ptr: TriePtr| read_node.requires((&block, &ptr)),
            forall|id: u32| block_of.requires((id,)),
            had == old(out)@.len(),
            first == had,
            had <= out@.len(),
            out@.take(had) == old(out)@,
            forall|path: TrieHash, value: MARFValue| handle_leaf.requires((path, value)),
            all_handled(*handle_leaf, out@.skip(had)),
            forall|i: int| 0 <= i < stack@.len() ==> (#[trigger] stack@[i]).prefix@.len() <= 32,
            forall|st: MarfStore<T>, i: int|
                #[trigger] nodes_from(*read_node, *block_of, st) && 0 <= i < stack@.len()
                    ==> #[trigger] is_below(
                    st,
                    (*block, *root_ptr),
                    (stack@[i].block, stack@[i].ptr),
                ),
            forall|st: MarfStore<T>| #[trigger]
                nodes_from(*read_node, *block_of, st) ==> leaves(
                    st,
                    *block,
                    *root_ptr,
                    Seq::empty(),
                ) == cat(Some(collected(out@.skip(had))), stack_leaves(st, stack@)),
        decreases work(stack@),
    {
        let ghost before = stack@;
        let Pending { ptr, prefix, block: from } = stack.pop().unwrap();
        let ghost rest = stack@;
        proof {
            assert(rest =~= before.drop_last());
            assert(before.last().prefix@.len() <= 32);
            lemma_weight(0, room(prefix@.len()));
        }
        let (at, node) = match read_node_for_ptr(&from, &ptr, read_node, block_of) {
            Ok(x) => x,
            Err(e) => {
                assert forall|st: MarfStore<T>| #[trigger]
                    nodes_from(*read_node, *block_of, st) implies below_failed(
                    *read_node,
                    *block_of,
                    st,
                    (*block, *root_ptr),
                    e,
                ) by {
                    assert(is_below(
                        st,
                        (*block, *root_ptr),
                        (before[before.len() - 1].block, before[before.len() - 1].ptr),
                    ));
                    assert(is_below(st, (*block, *root_ptr), (from, ptr)));
                }
                return Err(e);
            },
        };
        let mut full = prefix;
        let ghost start = full@;
        match &node {
            StoredNode::Node(n) => {
                push_all(&mut full, n.path_bytes());
            },
            StoredNode::Squashed(s) => {
                push_all(&mut full, s.path.as_slice());
            },
        }
        assert(full@ =~= start + node.path());
        let value: Option<MARFValue> = match &node {
            StoredNode::Node(TrieNodeType::Leaf(leaf)) => Some(leaf.data),
            StoredNode::Node(_) => None,
            StoredNode::Squashed(leaf) => Some(leaf.chunk.tip_value),
        };
        match value {
            Some(v) => {
                let path = match TrieHash::from_bytes(full.as_slice()) {
                    Some(path) => path,
                    None => {
                        return Err(corruption("Leaf path length invalid"));
                    },
                };
                let ghost sofar = out@;
                match handle_leaf(path, v) {
                    Ok(u) => {
                        assert(u == ());
                    },
                    Err(e) => {
                        assert forall|st: MarfStore<T>| #[trigger]
                            nodes_from(*read_node, *block_of, st) implies refused_leaf(
                            *handle_leaf,
                            st,
                            (*block, *root_ptr),
                            collected(out@.skip(had)),
                            e,
                        ) by {
                            assert(handle_leaf.ensures((path, v), Err(e)));
                            assert(is_below(
                                st,
                                (*block, *root_ptr),
                                (before[before.len() - 1].block, before[before.len() - 1].ptr),
                            ));
                            assert(is_below(st, (*block, *root_ptr), (from, ptr)));
                            let taken = collected(out@.skip(had));
                            assert(leaves(st, from, ptr, start) == Some(seq![(full@, v)]));
                            if let Some(all) = leaves(st, *block, *root_ptr, Seq::empty()) {
                                let others = stack_leaves(st, rest).unwrap();
                                assert(all == taken + (seq![(full@, v)] + others));
                                assert(all.take(taken.len() as int) =~= taken);
                                assert(all[taken.len() as int] == (full@, v));
                            }
                        }
                        return Err(e);
                    },
                }
                out.push((path, v));
                assert(out@.skip(had) =~= sofar.skip(had).push((path, v)));
                proof {
                    assert(out@.take(had) =~= old(out)@);
                    assert(collected(out@.skip(had)) =~= collected(sofar.skip(had)).push(
                        (full@, v),
                    ));
                    assert forall|st: MarfStore<T>| #[trigger]
                        nodes_from(*read_node, *block_of, st) implies leaves(
                        st,
                        *block,
                        *root_ptr,
                        Seq::empty(),
                    ) == cat(Some(collected(out@.skip(had))), stack_leaves(st, stack@)) by {
                        assert(leaves(st, from, ptr, start) == Some(seq![(full@, v)]));
                        let one = seq![(full@, v)];
                        lemma_cat_assoc(
                            Some(collected(sofar.skip(had))),
                            Some(one),
                            stack_leaves(st, rest),
                        );
                        assert(collected(sofar.skip(had)) + one =~= collected(out@.skip(had)));
                    }
                }
            },
            None => {
                let slots: &[TriePtr] = match &node {
                    StoredNode::Node(n) => {
                        proof {
                            lemma_slot_count(*n);
                        }
                        n.ptrs()
                    },
                    StoredNode::Squashed(_) => {
                        return Err(corruption("Leaf path length invalid"));
                    },
                };
                proof {
                    assert forall|st: MarfStore<T>, i: int|
                        #[trigger] nodes_from(*read_node, *block_of, st) && 0 <= i < slots@.len()
                            && (#[trigger] slots@[i]).id != 0 implies is_below(
                        st,
                        (*block, *root_ptr),
                        (at, slots@[i]),
                    ) by {
                        assert(is_below(
                            st,
                            (*block, *root_ptr),
                            (before[before.len() - 1].block, before[before.len() - 1].ptr),
                        ));
                        assert(child_of(st, (from, ptr), i, (at, slots@[i])));
                        lemma_below_child(
                            st,
                            (*block, *root_ptr),
                            (from, ptr),
                            i,
                            (at, slots@[i]),
                        );
                    }
                }
                if full.len() >= 32 {
                    match check_slots(slots, full.as_slice(), &at, read_node, block_of) {
                        Ok(_) => {},
                        Err(e) => {
                            assert forall|st: MarfStore<T>| #[trigger]
                                nodes_from(*read_node, *block_of, st) implies (e is CorruptionError
                                && leaves(st, *block, *root_ptr, Seq::empty()) is None)
                                || below_failed(
                                *read_node,
                                *block_of,
                                st,
                                (*block, *root_ptr),
                                e,
                            ) by {
                                let found = slot_leaves(st, at, slots@, full@, slots@.len());
                                assert(leaves(st, from, ptr, start) == found);
                                if !(e is CorruptionError && found is None) {
                                    let i = choose|i: int|
                                        0 <= i < slots@.len() && (#[trigger] slots@[i]).id != 0
                                            && below_failed(
                                            *read_node,
                                            *block_of,
                                            st,
                                            (at, slots@[i]),
                                            e,
                                        );
                                    lemma_below_failed(
                                        *read_node,
                                        *block_of,
                                        st,
                                        (*block, *root_ptr),
                                        (at, slots@[i]),
                                        e,
                                    );
                                }
                            }
                            return Err(e);
                        },
                    }
                    assert forall|st: MarfStore<T>| #[trigger]
                        nodes_from(*read_node, *block_of, st) implies stack_leaves(st, stack@)
                        == cat(
                        slot_leaves(st, at, slots@, full@, slots@.len()),
                        stack_leaves(st, rest),
                    ) by {
                        if let Some(x) = stack_leaves(st, rest) {
                            assert(Seq::<LeafModel>::empty() + x =~= x);
                        }
                    }
                } else {
                    push_children(&mut stack, slots, full.as_slice(), &at);
                    assert forall|st: MarfStore<T>, j: int|
                        #[trigger] nodes_from(*read_node, *block_of, st) && 0 <= j < stack@.len()
                            implies #[trigger] is_below(
                        st,
                        (*block, *root_ptr),
                        (stack@[j].block, stack@[j].ptr),
                    ) by {
                        if j < rest.len() && stack@[j] == rest[j] {
                            assert(is_below(
                                st,
                                (*block, *root_ptr),
                                (before[j].block, before[j].ptr),
                            ));
                        } else {
                            let i = choose|i: int|
                                0 <= i < slots@.len() && (#[trigger] slots@[i]).id != 0
                                    && stack@[j].ptr == slots@[i];
                            assert(slots@[i].id != 0);
                        }
                    }
                }
                proof {
                    assert forall|st: MarfStore<T>| #[trigger]
                        nodes_from(*read_node, *block_of, st) implies leaves(
                        st,
                        *block,
                        *root_ptr,
                        Seq::empty(),
                    ) == cat(Some(collected(out@.skip(had))), stack_leaves(st, stack@)) by {
                        assert(leaves(st, from, ptr, start) == slot_leaves(
                            st,
                            at,
                            slots@,
                            full@,
                            slots@.len(),
                        ));
                        assert(stack_leaves(st, stack@) == cat(
                            slot_leaves(st, at, slots@, full@, slots@.len()),
                            stack_leaves(st, rest),
                        ));
                    }
                    lemma_weight(room(full@.len()), room(start.len()));
                }
            },
        }
    }
    proof {
        assert forall|st: MarfStore<T>| #[trigger]
            nodes_from(*read_node, *block_of, st) implies leaves(
            st,
            *block,
            *root_ptr,
            Seq::empty(),
        ) == Some(collected(out@.skip(had))) by {
            assert(stack@ =~= Seq::empty());
            let c = collected(out@.skip(had));
            assert(c + Seq::<LeafModel>::empty() =~= c);
        }
    }
    Ok(out.len() - first)
}

proof fn lemma_slot_count(n: TrieNodeType)
    ensures
        n.model().ptrs.len() <= 256,
{
    match n {
        TrieNodeType::Node4(d) => {
            assert(d.ptrs@.len() == 4);
        },
        TrieNodeType::Node16(d) => {
            assert(d.ptrs@.len() == 16);
        },
        TrieNodeType::Node48(d) => {
            assert(d.ptrs@.len() == 48);
        },
        TrieNodeType::Node256(d) => {
            assert(d.ptrs@.len() == 256);
        },
        TrieNodeType::Leaf(d) => {},
    }
}

} // verus!
