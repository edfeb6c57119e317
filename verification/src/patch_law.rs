//! A patch rebuilds the node that it was made from.

use crate::model::{
    children_valid, first_slot, law_child_chr, law_put, law_slot_is_child, lemma_first_slot, NodeModel,
};
use crate::node::{copied_ptr, copied_ptrs, law_copy_then_normalize, normalized_ptr, normalized_ptrs};
use crate::node_id::{is_backptr, is_compressed, law_ctrl_bits};
use crate::patch::{insert_diffs, is_changed, last_slot, patched, ptr_diff, rebased};
use crate::ptr::TriePtr;
use vstd::prelude::*;

verus! {

/// The node with every slot mapped by `f`.
pub open spec fn mapped(m: NodeModel, f: spec_fn(TriePtr) -> TriePtr) -> NodeModel {
    NodeModel { ptrs: m.ptrs.map_values(f), ..m }
}

/// Mapping the slots by a function that keeps characters and emptiness maps every child.
proof fn lemma_mapped_children(m: NodeModel, f: spec_fn(TriePtr) -> TriePtr)
    requires
        m.shaped(),
        children_valid(m),
        forall|i: int|
            0 <= i < m.ptrs.len() ==> f(#[trigger] m.ptrs[i]).chr == m.ptrs[i].chr && f(
                m.ptrs[i],
            ).is_empty() == m.ptrs[i].is_empty(),
    ensures
        mapped(m, f).shaped(),
        children_valid(mapped(m, f)),
        forall|c: u8|
            #[trigger] mapped(m, f).child(c) == match m.child(c) {
                Some(p) => Some(f(p)),
                None => None,
            },
{
    let m2 = mapped(m, f);
    assert forall|i: int| 0 <= i < m.ptrs.len() implies (#[trigger] m2.ptrs[i]).chr
        == m.ptrs[i].chr && m2.ptrs[i].is_empty() == m.ptrs[i].is_empty() && m2.ptrs[i] == f(
        m.ptrs[i],
    ) by {
        assert(f(m.ptrs[i]).chr == m.ptrs[i].chr);
    }
    assert forall|c: u8|
        #[trigger] m2.child(c) == match m.child(c) {
            Some(p) => Some(f(p)),
            None => None,
        } by {
        lemma_first_slot(m.ptrs, c);
        lemma_first_slot(m2.ptrs, c);
        if m.kind is Node4 || m.kind is Node16 {
            match first_slot(m.ptrs, c) {
                Some(i) => {
                    assert(m2.ptrs[i].chr == c);
                    assert forall|j: int| 0 <= j < i implies (#[trigger] m2.ptrs[j]).is_empty()
                        || m2.ptrs[j].chr != c by {
                        assert(m.ptrs[j].is_empty() || m.ptrs[j].chr != c);
                    }
                    crate::model::lemma_first_slot_is(m2.ptrs, c, i);
                },
                None => {
                    if let Some(i) = first_slot(m2.ptrs, c) {
                        assert(m.ptrs[i].is_empty() || m.ptrs[i].chr != c);
                    }
                },
            }
        }
    }
    assert(children_valid(m2)) by {
        if m.kind is Node4 || m.kind is Node16 {
            assert forall|i: int, j: int|
                0 <= i < m2.ptrs.len() && 0 <= j < m2.ptrs.len() && i != j
                    && !(#[trigger] m2.ptrs[i]).is_empty()
                    && !(#[trigger] m2.ptrs[j]).is_empty() implies m2.ptrs[i].chr
                != m2.ptrs[j].chr by {
                assert(!m.ptrs[i].is_empty() && !m.ptrs[j].is_empty());
            }
        } else if m.kind is Node48 {
            assert forall|i: int| 0 <= i < 48 && !(#[trigger] m2.ptrs[i]).is_empty() implies m2.indexes[m2.ptrs[i].chr as int]
                == i by {
                assert(!m.ptrs[i].is_empty());
            }
        } else if m.kind is Node256 {
            assert forall|c: int| 0 <= c < 256 && !(#[trigger] m2.ptrs[c]).is_empty() implies m2.ptrs[c].chr
                == c by {
                assert(!m.ptrs[c].is_empty());
            }
        }
    }
}

/// What [`last_slot`] finds is an occupied slot with the character; where it finds nothing,
/// there is none.
proof fn lemma_last_slot(ptrs: Seq<TriePtr>, chr: u8)
    ensures
        match last_slot(ptrs, chr) {
            Some(p) => !p.is_empty() && p.chr == chr && exists|i: int|
                0 <= i < ptrs.len() && #[trigger] ptrs[i] == p,
            None => forall|i: int|
                0 <= i < ptrs.len() ==> (#[trigger] ptrs[i]).is_empty() || ptrs[i].chr != chr,
        },
    decreases ptrs.len(),
{
    if ptrs.len() > 0 {
        let front = ptrs.drop_last();
        lemma_last_slot(front, chr);
        if !ptrs.last().is_empty() && ptrs.last().chr == chr {
            assert(ptrs[ptrs.len() - 1] == ptrs.last());
        } else if let Some(p) = last_slot(front, chr) {
            let i = choose|i: int| 0 <= i < front.len() && #[trigger] front[i] == p;
            assert(ptrs[i] == p);
        } else {
            assert forall|i: int| 0 <= i < ptrs.len() implies (#[trigger] ptrs[i]).is_empty()
                || ptrs[i].chr != chr by {
                if i < front.len() {
                    assert(front[i] == ptrs[i]);
                }
            }
        }
    }
}

/// In a node whose children stand where they are looked up, the last slot with a character is
/// the child for it.
proof fn lemma_last_slot_is_child(m: NodeModel, c: u8)
    requires
        m.shaped(),
        children_valid(m),
        !(m.kind is Leaf),
    ensures
        last_slot(m.ptrs, c) == m.child(c),
{
    lemma_last_slot(m.ptrs, c);
    lemma_first_slot(m.ptrs, c);
    match last_slot(m.ptrs, c) {
        Some(p) => {
            let i = choose|i: int| 0 <= i < m.ptrs.len() && #[trigger] m.ptrs[i] == p;
            law_slot_is_child(m, i);
        },
        None => {
            if let Some(p) = m.child(c) {
                let i = if m.kind is Node48 {
                    m.indexes[c as int] as int
                } else if m.kind is Node256 {
                    c as int
                } else {
                    first_slot(m.ptrs, c).unwrap()
                };
                assert(m.ptrs[i] == p);
            }
        },
    }
}

/// Everything in a diff is an occupied slot of the new node.
proof fn lemma_diff_from_new(b: u32, old: Seq<TriePtr>, new: Seq<TriePtr>, j: int)
    requires
        0 <= j < ptr_diff(b, old, new).len(),
    ensures
        !ptr_diff(b, old, new)[j].is_empty(),
        exists|i: int| 0 <= i < new.len() && #[trigger] new[i] == ptr_diff(b, old, new)[j],
    decreases new.len(),
{
    let front = ptr_diff(b, old, new.drop_last());
    if j < front.len() {
        lemma_diff_from_new(b, old, new.drop_last(), j);
        let i = choose|i: int| 0 <= i < new.len() - 1 && #[trigger] new.drop_last()[i] == front[j];
        assert(new[i] == front[j]);
    } else {
        assert(new[new.len() - 1] == ptr_diff(b, old, new)[j]);
    }
}

/// Every changed slot of the new node is in the diff.
proof fn lemma_changed_in_diff(b: u32, old: Seq<TriePtr>, new: Seq<TriePtr>, i: int)
    requires
        0 <= i < new.len(),
        is_changed(b, last_slot(old, new[i].chr), new[i]),
    ensures
        exists|j: int|
            0 <= j < ptr_diff(b, old, new).len() && #[trigger] ptr_diff(b, old, new)[j] == new[i],
    decreases new.len(),
{
    let front = ptr_diff(b, old, new.drop_last());
    let all = ptr_diff(b, old, new);
    if i == new.len() - 1 {
        assert(all[front.len() as int] == new[i]);
    } else {
        assert(new.drop_last()[i] == new[i]);
        lemma_changed_in_diff(b, old, new.drop_last(), i);
        let j = choose|j: int| 0 <= j < front.len() && #[trigger] front[j] == new[i];
        assert(all[j] == new[i]);
    }
}

/// The characters of the slots.
spec fn chars(ptrs: Seq<TriePtr>) -> Seq<u8> {
    ptrs.map_values(|p: TriePtr| p.chr)
}

/// A full node has no child that another node of its kind has besides all of its own.
proof fn lemma_no_room(m: NodeModel, new: NodeModel, p: TriePtr)
    requires
        m.shaped(),
        children_valid(m),
        new.shaped(),
        children_valid(new),
        new.kind == m.kind,
        !(m.kind is Leaf),
        forall|i: int| 0 <= i < m.ptrs.len() ==> !(#[trigger] m.ptrs[i]).is_empty(),
        forall|i: int| 0 <= i < m.ptrs.len() ==> new.child((#[trigger] m.ptrs[i]).chr) is Some,
        new.child(p.chr) is Some,
    ensures
        m.child(p.chr) is Some,
{
    if m.child(p.chr) is None {
        let mine = chars(m.ptrs).push(p.chr);
        let theirs = chars(new.ptrs);
        assert forall|i: int, j: int|
            0 <= i < mine.len() && 0 <= j < mine.len() && i != j implies mine[i] != mine[j] by {
            if i < m.ptrs.len() {
                law_slot_is_child(m, i);
            }
            if j < m.ptrs.len() {
                law_slot_is_child(m, j);
            }
            if i < m.ptrs.len() && j < m.ptrs.len() {
                assert(mine[i] == m.ptrs[i].chr && mine[j] == m.ptrs[j].chr);
                assert(!m.ptrs[i].is_empty() && !m.ptrs[j].is_empty());
            }
        }
        assert(mine.no_duplicates());
        mine.unique_seq_to_set();
        theirs.lemma_cardinality_of_set();
        assert forall|c: u8| #[trigger] mine.to_set().contains(c) implies theirs.to_set().contains(
            c,
        ) by {
            let i = choose|i: int| 0 <= i < mine.len() && mine[i] == c;
            if i < m.ptrs.len() {
                assert(new.child(m.ptrs[i].chr) is Some);
            }
            assert(new.child(c) is Some);
            lemma_last_slot_is_child(new, c);
            lemma_last_slot(new.ptrs, c);
            let q = new.child(c).unwrap();
            let k = choose|k: int| 0 <= k < new.ptrs.len() && #[trigger] new.ptrs[k] == q;
            assert(theirs[k] == c);
        }
        assert(mine.to_set().subset_of(theirs.to_set()));
        vstd::set_lib::lemma_len_subset(mine.to_set(), theirs.to_set());
    }
}

/// What the diffs inserted so far leave: every diff finds room, and a character leads to the
/// last diff that has it, or else to the base child.
proof fn lemma_insert_diffs(base: NodeModel, new: NodeModel, diff: Seq<TriePtr>, k: nat)
    requires
        base.shaped(),
        children_valid(base),
        new.shaped(),
        children_valid(new),
        new.kind == base.kind,
        !(base.kind is Leaf),
        k <= diff.len(),
        forall|j: int|
            0 <= j < diff.len() ==> !(#[trigger] diff[j]).is_empty() && new.child(diff[j].chr) is Some,
        forall|c: u8| #[trigger] base.child(c) is Some ==> new.child(c) is Some,
    ensures
        insert_diffs(base, diff, k).1,
        insert_diffs(base, diff, k).0.shaped(),
        insert_diffs(base, diff, k).0.kind == base.kind,
        insert_diffs(base, diff, k).0.path == base.path,
        children_valid(insert_diffs(base, diff, k).0),
        forall|c: u8|
            #[trigger] insert_diffs(base, diff, k).0.child(c) == match last_slot(
                diff.take(k as int),
                c,
            ) {
                Some(p) => Some(p),
                None => base.child(c),
            },
    decreases k,
{
    if k == 0 {
        assert forall|c: u8| last_slot(diff.take(0), c) is None by {}
    } else {
        lemma_insert_diffs(base, new, diff, (k - 1) as nat);
        let prev = insert_diffs(base, diff, (k - 1) as nat).0;
        let p = diff[k - 1];
        law_put(prev, p);
        assert forall|c: u8| #[trigger] prev.child(c) is Some implies new.child(c) is Some by {
            if let Some(q) = last_slot(diff.take(k - 1), c) {
                lemma_last_slot(diff.take(k - 1), c);
                let j = choose|j: int|
                    0 <= j < diff.take(k - 1).len() && #[trigger] diff.take(k - 1)[j] == q;
                assert(diff[j] == q);
            } else {
                assert(base.child(c) is Some);
            }
        }
        if prev.put(p) is None {
            assert forall|i: int| 0 <= i < prev.ptrs.len() implies new.child(
                (#[trigger] prev.ptrs[i]).chr,
            ) is Some by {
                law_slot_is_child(prev, i);
                assert(prev.child(prev.ptrs[i].chr) is Some);
            }
            lemma_no_room(prev, new, p);
            assert(false);
        }
        let now = insert_diffs(base, diff, k).0;
        assert forall|c: u8|
            #[trigger] now.child(c) == match last_slot(diff.take(k as int), c) {
                Some(q) => Some(q),
                None => base.child(c),
            } by {
            assert(diff.take(k as int).drop_last() =~= diff.take(k - 1));
            assert(diff.take(k as int).last() == p);
        }
    }
}

/// The node that a patch was made from, as its block sees it: slots without the compressed
/// bit; plain pointers into the block itself, back-pointers into others.
pub open spec fn settled(m: NodeModel, block: u32) -> bool {
    forall|i: int|
        0 <= i < m.ptrs.len() && !(#[trigger] m.ptrs[i]).is_empty() ==> {
            &&& !is_compressed(m.ptrs[i].id)
            &&& is_backptr(m.ptrs[i].id) ==> m.ptrs[i].back_block != block
            &&& !is_backptr(m.ptrs[i].id) ==> m.ptrs[i].back_block == 0
        }
}

/// A pointer of a settled node comes out of a patch as it went in.
proof fn lemma_settled_ptr(p: TriePtr, block: u32)
    requires
        is_backptr(p.id) ==> p.back_block != block,
        !is_backptr(p.id) ==> p.back_block == 0,
    ensures
        normalized_ptr(copied_ptr(p, block), block) == p,
{
    law_ctrl_bits(p.id);
    if !is_backptr(p.id) {
        law_copy_then_normalize(p, block);
    }
}

/// A patch rebuilds the node that it was made from.
///
/// `old` is stored where `base_block` sees it, `new` is a node of `block` that kept every child
/// character of `old`, and both have each child where it is looked up. Then the difference of
/// the two, applied to `old` and read from `block`, finds room for every diff and leads every
/// character to the child that `new` has for it.
pub proof fn law_patch_rebuilds(old: NodeModel, new: NodeModel, base_block: u32, block: u32)
    requires
        old.shaped(),
        new.shaped(),
        old.kind == new.kind,
        !(old.kind is Leaf),
        children_valid(old),
        children_valid(new),
        settled(new, block),
        forall|c: u8| #[trigger] old.child(c) is Some ==> new.child(c) is Some,
    ensures
        ({
            let diff = ptr_diff(base_block, old.ptrs, new.ptrs);
            let (m, ok) = patched(old, base_block, diff, block, block);
            &&& ok
            &&& m.kind == new.kind
            &&& m.path == old.path
            &&& forall|c: u8| #[trigger] m.child(c) == new.child(c)
        }),
{
    let diff = ptr_diff(base_block, old.ptrs, new.ptrs);
    let to_base = |p: TriePtr| copied_ptr(p, base_block);
    let base = rebased(old, base_block);
    assert(base == mapped(old, to_base));
    assert forall|i: int| 0 <= i < old.ptrs.len() implies to_base(#[trigger] old.ptrs[i]).chr
        == old.ptrs[i].chr && to_base(old.ptrs[i]).is_empty() == old.ptrs[i].is_empty() by {
        crate::node::law_copy_idempotent(old.ptrs[i], base_block, base_block);
    }
    lemma_mapped_children(old, to_base);
    assert forall|j: int| 0 <= j < diff.len() implies !(#[trigger] diff[j]).is_empty() && new.child(
        diff[j].chr,
    ) == Some(diff[j]) by {
        lemma_diff_from_new(base_block, old.ptrs, new.ptrs, j);
        let i = choose|i: int| 0 <= i < new.ptrs.len() && #[trigger] new.ptrs[i] == diff[j];
        law_slot_is_child(new, i);
    }
    assert forall|c: u8| #[trigger] base.child(c) is Some implies new.child(c) is Some by {
        assert(old.child(c) is Some);
    }
    lemma_insert_diffs(base, new, diff, diff.len());
    let m = insert_diffs(base, diff, diff.len()).0;
    assert(diff.take(diff.len() as int) =~= diff);
    // the child that the insertions leave is the one that `new` has
    assert forall|c: u8| #[trigger] m.child(c) == new.child(c) by {
        match last_slot(diff, c) {
            Some(p) => {
                lemma_last_slot(diff, c);
                let j = choose|j: int| 0 <= j < diff.len() && #[trigger] diff[j] == p;
                assert(new.child(diff[j].chr) == Some(diff[j]));
            },
            None => {
                assert(m.child(c) == base.child(c));
                lemma_last_slot_is_child(old, c);
                lemma_last_slot_is_child(new, c);
                match new.child(c) {
                    Some(q) => {
                        lemma_last_slot(new.ptrs, c);
                        let i = choose|i: int|
                            0 <= i < new.ptrs.len() && #[trigger] new.ptrs[i] == q;
                        if is_changed(base_block, last_slot(old.ptrs, c), q) {
                            lemma_changed_in_diff(base_block, old.ptrs, new.ptrs, i);
                            let j = choose|j: int|
                                0 <= j < diff.len() && #[trigger] diff[j] == new.ptrs[i];
                            lemma_last_slot(diff, c);
                            assert(diff[j].is_empty() || diff[j].chr != c);
                        }
                        let o = old.child(c).unwrap();
                        law_ctrl_bits(q.id);
                        law_ctrl_bits(o.id);
                        law_child_chr(old, c);
                        assert(copied_ptr(o, base_block) == q);
                    },
                    None => {
                        assert(old.child(c) is None);
                    },
                }
            },
        }
    }
    // and seeing it from the block leaves it as it is
    let from_block = |p: TriePtr| normalized_ptr(copied_ptr(p, block), block);
    assert forall|i: int| 0 <= i < m.ptrs.len() implies from_block(#[trigger] m.ptrs[i])
        == m.ptrs[i] by {
        if m.ptrs[i].is_empty() {
            law_ctrl_bits(m.ptrs[i].id);
        } else {
            law_slot_is_child(m, i);
            let c = m.ptrs[i].chr;
            assert(new.child(c) == Some(m.ptrs[i]));
            lemma_last_slot_is_child(new, c);
            lemma_last_slot(new.ptrs, c);
            let k = choose|k: int| 0 <= k < new.ptrs.len() && #[trigger] new.ptrs[k] == m.ptrs[i];
            assert(!new.ptrs[k].is_empty());
            lemma_settled_ptr(m.ptrs[i], block);
        }
    }
    assert(normalized_ptrs(copied_ptrs(m.ptrs, block), block) =~= m.ptrs) by {
        assert forall|i: int| 0 <= i < m.ptrs.len() implies #[trigger] normalized_ptrs(
            copied_ptrs(m.ptrs, block),
            block,
        )[i] == m.ptrs[i] by {
            assert(from_block(m.ptrs[i]) == m.ptrs[i]);
        }
    }
}

/// Are the plain pointers of a node as they are made: without the compressed bit, and into their
/// own block?
pub open spec fn plain_ptrs(ptrs: Seq<TriePtr>) -> bool {
    forall|i: int|
        0 <= i < ptrs.len() && !is_backptr((#[trigger] ptrs[i]).id) ==> !is_compressed(ptrs[i].id)
            && ptrs[i].back_block == 0
}

proof fn lemma_no_diff(base_block: u32, old: NodeModel, new: Seq<TriePtr>, n: nat)
    requires
        old.shaped(),
        !(old.kind is Leaf),
        children_valid(old),
        plain_ptrs(old.ptrs),
        n <= old.ptrs.len(),
        new == copied_ptrs(old.ptrs, base_block).take(n as int),
    ensures
        ptr_diff(base_block, old.ptrs, new) == Seq::<TriePtr>::empty(),
    decreases n,
{
    if n > 0 {
        let i = n - 1;
        let all = copied_ptrs(old.ptrs, base_block);
        assert(new.drop_last() =~= all.take(i));
        lemma_no_diff(base_block, old, new.drop_last(), i as nat);
        let o = old.ptrs[i];
        let q = new.last();
        assert(q == copied_ptr(o, base_block));
        law_ctrl_bits(o.id);
        crate::node::law_copy_idempotent(o, base_block, base_block);
        if !o.is_empty() {
            law_slot_is_child(old, i);
            lemma_last_slot_is_child(old, o.chr);
            assert(last_slot(old.ptrs, o.chr) == Some(o));
        }
        assert(!is_changed(base_block, last_slot(old.ptrs, q.chr), q));
    }
}

/// A node that is only copied forward from `base_block` needs no patch: nothing differs but the
/// view from a later block.
pub proof fn law_copy_needs_no_patch(old: NodeModel, base_block: u32)
    requires
        old.shaped(),
        !(old.kind is Leaf),
        children_valid(old),
        plain_ptrs(old.ptrs),
    ensures
        ptr_diff(base_block, old.ptrs, copied_ptrs(old.ptrs, base_block)) == Seq::<
            TriePtr,
        >::empty(),
{
    let all = copied_ptrs(old.ptrs, base_block);
    assert(all.take(all.len() as int) =~= all);
    lemma_no_diff(base_block, old, all, old.ptrs.len());
}

/// Read from another block, a patched node leads where it leads when it is read from the block of
/// the patch: what is in that block is behind back-pointers to it, and what is in the block that it
/// is read from is not.
pub proof fn law_patch_read_from_another_block(
    m: NodeModel,
    base_block: u32,
    diff: Seq<TriePtr>,
    patch_block: u32,
    cur_block: u32,
    i: int,
)
    requires
        0 <= i < patched(m, base_block, diff, patch_block, patch_block).0.ptrs.len(),
        patched(m, base_block, diff, patch_block, patch_block).1,
        !patched(m, base_block, diff, patch_block, patch_block).0.ptrs[i].is_empty(),
    ensures
        ({
            let here = patched(m, base_block, diff, patch_block, patch_block).0;
            let there = patched(m, base_block, diff, patch_block, cur_block).0;
            &&& patched(m, base_block, diff, patch_block, cur_block).1
            &&& there.kind == here.kind && there.path == here.path && there.indexes == here.indexes
            &&& there.ptrs.len() == here.ptrs.len()
            &&& there.ptrs[i] == normalized_ptr(copied_ptr(here.ptrs[i], patch_block), cur_block)
        }),
{
    let (next, ok) = crate::patch::insert_diffs(rebased(m, base_block), diff, diff.len());
    let x = next.ptrs[i];
    law_ctrl_bits(x.id);
    law_ctrl_bits(crate::node_id::clear_backptr(x.id));
    law_ctrl_bits(crate::node_id::set_backptr(x.id));
}

} // verus!
