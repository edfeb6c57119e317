//! Patch nodes: a node stored as its difference from an earlier one.

use crate::bits::{parse_dense, ptrs_dense};
use crate::error::{corruption, CodecError, Error};
use crate::model::NodeModel;
use crate::node::{
    copied_ptrs, node_copy_update_ptrs, node_normalize_ptrs, normalized_ptrs, TrieNode, TrieNode16,
    TrieNode256, TrieNode4, TrieNode48, TrieNodeType,
};
use crate::node_id::{clear_ctrl_bits, is_backptr, law_ctrl_bits, TrieNodeID};
use crate::node_ref::TrieNodeRef;
use crate::ptr::{
    law_ptr_compressed_round_trip, parse_ptr_compressed, ptr_bytes_compressed, ptr_storable,
    TriePtr,
};
use crate::text::push_number;
use vstd::prelude::*;

verus! {

/// A non-consensus "patch node" that applies a diff atop a base node.
#[derive(Debug, PartialEq)]
pub struct TrieNodePatch {
    /// Pointer to the node we're patching (will always be a back-block ptr)
    pub ptr: TriePtr,
    /// Field of ptrs to insert atop the base node
    pub ptr_diff: Vec<TriePtr>,
}

impl Clone for TrieNodePatch {
    fn clone(&self) -> (r: TrieNodePatch)
        ensures
            r.ptr == self.ptr,
            r.ptr_diff@ == self.ptr_diff@,
    {
        let mut ptr_diff: Vec<TriePtr> = Vec::new();
        let mut i: usize = 0;
        while i < self.ptr_diff.len()
            invariant
                i <= self.ptr_diff@.len(),
                ptr_diff@ == self.ptr_diff@.take(i as int),
            decreases self.ptr_diff@.len() - i,
        {
            ptr_diff.push(self.ptr_diff[i]);
            assert(self.ptr_diff@.take(i + 1) =~= self.ptr_diff@.take(i as int).push(
                self.ptr_diff@[i as int],
            ));
            i += 1;
        }
        assert(self.ptr_diff@.take(i as int) =~= self.ptr_diff@);
        TrieNodePatch { ptr: self.ptr, ptr_diff }
    }
}

/// The stored form of a patch: its kind, the base pointer, the number of diffs less one, and
/// the diffs; all pointers compressed.
pub open spec fn patch_bytes(ptr: TriePtr, diff: Seq<TriePtr>) -> Seq<u8> {
    seq![TrieNodeID::Patch.spec_to_u8()] + ptr_bytes_compressed(ptr) + seq![
        (diff.len() - 1) as u8,
    ] + ptrs_dense(diff)
}

/// The patch at the head of `s`, and the bytes it takes.
pub open spec fn parse_patch(s: Seq<u8>) -> Option<(TriePtr, Seq<TriePtr>, nat)> {
    if s.len() == 0 || s[0] != TrieNodeID::Patch.spec_to_u8() {
        None
    } else {
        match parse_ptr_compressed(s.skip(1)) {
            None => None,
            Some((ptr, n)) => if s.len() <= 1 + n {
                None
            } else {
                match parse_dense(s.skip(2 + n), s[1 + n] as nat + 1) {
                    None => None,
                    Some((diff, used)) => Some((ptr, diff, 2 + n as nat + used)),
                }
            },
        }
    }
}

/// A patch with 1 to 256 storable diffs reads back as itself, whatever follows it.
pub proof fn law_patch_round_trip(ptr: TriePtr, diff: Seq<TriePtr>, rest: Seq<u8>)
    requires
        1 <= diff.len() <= 256,
        ptr_storable(ptr),
        forall|i: int| 0 <= i < diff.len() ==> ptr_storable(#[trigger] diff[i]),
    ensures
        parse_patch(patch_bytes(ptr, diff) + rest) == Some(
            (ptr, diff, patch_bytes(ptr, diff).len()),
        ),
{
    let s = patch_bytes(ptr, diff) + rest;
    let n = ptr_bytes_compressed(ptr).len();
    let tail = seq![(diff.len() - 1) as u8] + ptrs_dense(diff) + rest;
    law_ptr_compressed_round_trip(ptr, tail);
    assert(s.skip(1) =~= ptr_bytes_compressed(ptr) + tail);
    assert(s[1 + n as int] == (diff.len() - 1) as u8);
    assert(s.skip(2 + n as int) =~= ptrs_dense(diff) + rest);
    crate::bits::lemma_dense_round_trip(diff, rest);
}

proof fn lemma_ptr_extends(s: Seq<u8>, rest: Seq<u8>)
    requires
        parse_ptr_compressed(s) is Some,
    ensures
        parse_ptr_compressed(s + rest) == parse_ptr_compressed(s),
        0 < parse_ptr_compressed(s).unwrap().1 <= s.len(),
{
    let t = s + rest;
    assert(t[0] == s[0] && t[1] == s[1]);
    assert(t.subrange(2, 6) =~= s.subrange(2, 6));
    if is_backptr(crate::node_id::clear_compressed(s[0])) {
        assert(t.subrange(6, 10) =~= s.subrange(6, 10));
    }
}

proof fn lemma_dense_extends(s: Seq<u8>, rest: Seq<u8>, n: nat)
    requires
        parse_dense(s, n) is Some,
    ensures
        parse_dense(s + rest, n) == parse_dense(s, n),
        parse_dense(s, n).unwrap().1 <= s.len(),
    decreases n,
{
    if n > 0 {
        lemma_dense_extends(s, rest, (n - 1) as nat);
        let used = parse_dense(s, (n - 1) as nat).unwrap().1 as int;
        assert((s + rest).skip(used) =~= s.skip(used) + rest);
        lemma_ptr_extends(s.skip(used), rest);
    }
}

/// A stored patch that is cut short is no patch.
pub proof fn law_cut_patch_refused(ptr: TriePtr, diff: Seq<TriePtr>, k: int)
    requires
        1 <= diff.len() <= 256,
        ptr_storable(ptr),
        forall|i: int| 0 <= i < diff.len() ==> ptr_storable(#[trigger] diff[i]),
        0 <= k < patch_bytes(ptr, diff).len(),
    ensures
        parse_patch(patch_bytes(ptr, diff).take(k)) is None,
{
    let whole = patch_bytes(ptr, diff);
    let s = whole.take(k);
    let rest = whole.skip(k);
    assert(s + rest =~= whole);
    law_patch_round_trip(ptr, diff, Seq::empty());
    assert(whole + Seq::<u8>::empty() =~= whole);
    if parse_patch(s) is Some {
        let (p, n) = parse_ptr_compressed(s.skip(1)).unwrap();
        assert(whole.skip(1) =~= s.skip(1) + rest);
        lemma_ptr_extends(s.skip(1), rest);
        assert(whole[0] == s[0]);
        assert(whole[1 + n as int] == s[1 + n as int]);
        assert(whole.skip(2 + n as int) =~= s.skip(2 + n as int) + rest);
        lemma_dense_extends(s.skip(2 + n as int), rest, s[1 + n as int] as nat + 1);
        assert(parse_patch(whole) == parse_patch(s));
        assert(parse_patch(whole).unwrap().2 <= k);
    }
}

/// The last occupied slot with path character `chr`.
pub open spec fn last_slot(ptrs: Seq<TriePtr>, chr: u8) -> Option<TriePtr>
    decreases ptrs.len(),
{
    if ptrs.len() == 0 {
        None
    } else if !ptrs.last().is_empty() && ptrs.last().chr == chr {
        Some(ptrs.last())
    } else {
        last_slot(ptrs.drop_last(), chr)
    }
}

/// Must a new pointer stand in the patch, where the old node has `old` for its character? It
/// need not where the new pointer is the old one seen from a later block.
pub open spec fn is_changed(base_block: u32, old: Option<TriePtr>, new: TriePtr) -> bool {
    if new.is_empty() {
        false
    } else {
        match old {
            None => true,
            Some(o) => if !is_backptr(o.id) && is_backptr(new.id) && new.back_block == base_block {
                o != (TriePtr {
                    id: clear_ctrl_bits(new.id),
                    chr: new.chr,
                    ptr: new.ptr,
                    back_block: 0,
                })
            } else {
                o != new || !is_backptr(new.id)
            },
        }
    }
}

/// The pointers of `new` that must stand in the patch, in order.
pub open spec fn ptr_diff(base_block: u32, old: Seq<TriePtr>, new: Seq<TriePtr>) -> Seq<TriePtr>
    decreases new.len(),
{
    if new.len() == 0 {
        Seq::empty()
    } else {
        let front = ptr_diff(base_block, old, new.drop_last());
        if is_changed(base_block, last_slot(old, new.last().chr), new.last()) {
            front.push(new.last())
        } else {
            front
        }
    }
}

/// The node after the first `k` diffs were put into it, and whether all of them found room. Stops
/// at the first that did not.
pub open spec fn insert_diffs(m: NodeModel, diff: Seq<TriePtr>, k: nat) -> (NodeModel, bool)
    decreases k,
{
    if k == 0 {
        (m, true)
    } else {
        let (prev, ok) = insert_diffs(m, diff, (k - 1) as nat);
        if !ok {
            (prev, false)
        } else {
            match prev.put(diff[k - 1]) {
                Some(next) => (next, true),
                None => (prev, false),
            }
        }
    }
}

/// The base node with its pointers seen from a later block than `base_block`.
pub open spec fn rebased(m: NodeModel, base_block: u32) -> NodeModel {
    NodeModel { ptrs: copied_ptrs(m.ptrs, base_block), ..m }
}

/// What applying a patch to `m` leaves, and whether it could be applied: the base pointers are
/// seen from the patch, the diffs are put into it, and the result is seen from `cur_block`.
pub open spec fn patched(
    m: NodeModel,
    base_block: u32,
    diff: Seq<TriePtr>,
    patch_block: u32,
    cur_block: u32,
) -> (NodeModel, bool) {
    let (next, ok) = insert_diffs(rebased(m, base_block), diff, diff.len());
    if ok {
        (
            NodeModel {
                ptrs: normalized_ptrs(copied_ptrs(next.ptrs, patch_block), cur_block),
                ..next
            },
            true,
        )
    } else {
        (next, false)
    }
}

impl TrieNodePatch {
    /// Append the stored form. The number of diffs must be 1 to 256; else nothing but the kind
    /// and the base pointer is written.
    pub fn consensus_serialize(&self, fd: &mut Vec<u8>) -> (r: Result<(), CodecError>)
        ensures
            r is Ok <==> 1 <= self.ptr_diff@.len() <= 256,
            r is Ok ==> final(fd)@ == old(fd)@ + patch_bytes(self.ptr, self.ptr_diff@),
            r matches Err(e) ==> e is SerializeError && final(fd)@ == old(fd)@ + seq![
                TrieNodeID::Patch.spec_to_u8(),
            ] + ptr_bytes_compressed(self.ptr),
    {
        let ghost start = fd@;
        fd.push(TrieNodeID::Patch.to_u8());
        self.ptr.write_bytes_compressed(fd);
        assert(fd@ =~= start + seq![TrieNodeID::Patch.spec_to_u8()] + ptr_bytes_compressed(
            self.ptr,
        ));
        let num_ptrs = self.ptr_diff.len();
        if num_ptrs == 0 || num_ptrs > 256 {
            let mut m = "Cannot serialize TrieNodePatch with invalid ptrs len ".to_owned();
            push_number(&mut m, num_ptrs as u64, 10, 0);
            m.append(" (expected 1..=256)");
            return Err(CodecError::SerializeError(m));
        }
        // the count is stored less one, to fit in a byte
        fd.push((num_ptrs - 1) as u8);
        let ghost head = fd@;
        let mut i: usize = 0;
        assert(fd@ =~= head + ptrs_dense(self.ptr_diff@.take(0)));
        while i < num_ptrs
            invariant
                i <= num_ptrs,
                num_ptrs == self.ptr_diff@.len(),
                fd@ == head + ptrs_dense(self.ptr_diff@.take(i as int)),
            decreases num_ptrs - i,
        {
            let ghost nxt = self.ptr_diff@.take(i + 1);
            assert(nxt.drop_last() =~= self.ptr_diff@.take(i as int));
            self.ptr_diff[i].write_bytes_compressed(fd);
            assert(fd@ =~= head + ptrs_dense(nxt));
            i += 1;
        }
        assert(self.ptr_diff@.take(i as int) =~= self.ptr_diff@);
        assert(fd@ =~= start + patch_bytes(self.ptr, self.ptr_diff@));
        Ok(())
    }

    /// Read the stored form from the head of `bytes`. Returns the patch and the bytes it takes.
    /// Bytes that spell no patch, or end too early, do not deserialize.
    pub fn consensus_deserialize(bytes: &[u8]) -> (r: Result<(TrieNodePatch, usize), CodecError>)
        ensures
            r matches Ok((p, n)) ==> parse_patch(bytes@) == Some((p.ptr, p.ptr_diff@, n as nat)),
            r matches Err(e) ==> e is DeserializeError && parse_patch(bytes@) is None,
    {
        match TrieNodePatch::from_slice(bytes) {
            Ok(x) => Ok(x),
            Err(e) => Err(CodecError::DeserializeError(e.message())),
        }
    }

    /// Compute the difference between `old_ptrs` and `new_ptrs`. A pointer in `new_ptrs` that
    /// points back into the block named by `old_node_ptr` is compared, as a plain pointer, with
    /// the one in `old_ptrs`, which may be that very pointer before it was copied.
    fn make_ptr_diff(old_node_ptr: &TriePtr, old_ptrs: &[TriePtr], new_ptrs: &[TriePtr]) -> (r: Vec<
        TriePtr,
    >)
        ensures
            r@ == ptr_diff(old_node_ptr.back_block, old_ptrs@, new_ptrs@),
    {
        let mut ret: Vec<TriePtr> = Vec::new();
        let mut mapped: [Option<TriePtr>; 256] = [None; 256];
        let mut i: usize = 0;
        while i < old_ptrs.len()
            invariant
                i <= old_ptrs@.len(),
                mapped@.len() == 256,
                forall|c: int|
                    0 <= c < 256 ==> #[trigger] mapped@[c] == last_slot(
                        old_ptrs@.take(i as int),
                        c as u8,
                    ),
            decreases old_ptrs@.len() - i,
        {
            let ghost nxt = old_ptrs@.take(i + 1);
            assert(nxt.drop_last() =~= old_ptrs@.take(i as int));
            let p = old_ptrs[i];
            if !p.is_empty() {
                mapped[p.chr() as usize] = Some(p);
            }
            i += 1;
        }
        assert(old_ptrs@.take(i as int) =~= old_ptrs@);
        let mut k: usize = 0;
        while k < new_ptrs.len()
            invariant
                k <= new_ptrs@.len(),
                mapped@.len() == 256,
                forall|c: int|
                    0 <= c < 256 ==> #[trigger] mapped@[c] == last_slot(old_ptrs@, c as u8),
                ret@ == ptr_diff(old_node_ptr.back_block, old_ptrs@, new_ptrs@.take(k as int)),
            decreases new_ptrs@.len() - k,
        {
            let ghost nxt = new_ptrs@.take(k + 1);
            assert(nxt.drop_last() =~= new_ptrs@.take(k as int));
            let new_ptr = new_ptrs[k];
            if !new_ptr.is_empty() {
                let changed: bool = match mapped[new_ptr.chr() as usize] {
                    Some(old_ptr) => {
                        if !is_backptr(old_ptr.id()) && is_backptr(new_ptr.id())
                            && new_ptr.back_block == old_node_ptr.back_block {
                            // may be the copied version of old_ptr
                            let normalized = TriePtr::new(
                                clear_ctrl_bits(new_ptr.id()),
                                new_ptr.chr(),
                                new_ptr.ptr(),
                            );
                            old_ptr != normalized
                        } else {
                            old_ptr != new_ptr || !is_backptr(new_ptr.id())
                        }
                    },
                    None => true,
                };
                assert(mapped@[new_ptr.chr as int] == last_slot(old_ptrs@, new_ptr.chr));
                if changed {
                    ret.push(new_ptr);
                }
            }
            assert(ret@ =~= ptr_diff(old_node_ptr.back_block, old_ptrs@, nxt));
            k += 1;
        }
        assert(new_ptrs@.take(k as int) =~= new_ptrs@);
        ret
    }

    /// The difference between two pointer lists, as a patch would hold it.
    pub fn make_ptr_diff_for_test(
        old_node_ptr: &TriePtr,
        old_ptrs: &[TriePtr],
        new_ptrs: &[TriePtr],
    ) -> (r: Vec<TriePtr>)
        ensures
            r@ == ptr_diff(old_node_ptr.back_block, old_ptrs@, new_ptrs@),
    {
        TrieNodePatch::make_ptr_diff(old_node_ptr, old_ptrs, new_ptrs)
    }

    /// Create a patch from one node4 to another
    pub fn from_node4(old_node_ptr: TriePtr, old_node: &TrieNode4, new_node: &TrieNode4) -> (r:
        TrieNodePatch)
        ensures
            r.ptr == old_node_ptr,
            r.ptr_diff@ == ptr_diff(old_node_ptr.back_block, old_node.ptrs@, new_node.ptrs@),
    {
        let ptr_diff = TrieNodePatch::make_ptr_diff(&old_node_ptr, &old_node.ptrs, &new_node.ptrs);
        TrieNodePatch { ptr: old_node_ptr, ptr_diff }
    }

    /// Create a patch from one node16 to another
    pub fn from_node16(old_node_ptr: TriePtr, old_node: &TrieNode16, new_node: &TrieNode16) -> (r:
        TrieNodePatch)
        ensures
            r.ptr == old_node_ptr,
            r.ptr_diff@ == ptr_diff(old_node_ptr.back_block, old_node.ptrs@, new_node.ptrs@),
    {
        let ptr_diff = TrieNodePatch::make_ptr_diff(&old_node_ptr, &old_node.ptrs, &new_node.ptrs);
        TrieNodePatch { ptr: old_node_ptr, ptr_diff }
    }

    /// Create a patch from one node48 to another
    pub fn from_node48(old_node_ptr: TriePtr, old_node: &TrieNode48, new_node: &TrieNode48) -> (r:
        TrieNodePatch)
        ensures
            r.ptr == old_node_ptr,
            r.ptr_diff@ == ptr_diff(old_node_ptr.back_block, old_node.ptrs@, new_node.ptrs@),
    {
        let ptr_diff = TrieNodePatch::make_ptr_diff(&old_node_ptr, &old_node.ptrs, &new_node.ptrs);
        TrieNodePatch { ptr: old_node_ptr, ptr_diff }
    }

    /// Create a patch from one node256 to another
    pub fn from_node256(old_node_ptr: TriePtr, old_node: &TrieNode256, new_node: &TrieNode256) -> (r:
        TrieNodePatch)
        ensures
            r.ptr == old_node_ptr,
            r.ptr_diff@ == ptr_diff(old_node_ptr.back_block, old_node.ptrs@, new_node.ptrs@),
    {
        let ptr_diff = TrieNodePatch::make_ptr_diff(&old_node_ptr, &old_node.ptrs, &new_node.ptrs);
        TrieNodePatch { ptr: old_node_ptr, ptr_diff }
    }

    /// Create a patch from one node to another. If they're not of the same kind, or are leaves,
    /// or do not differ, then this function returns None.
    pub fn try_from_nodetype(
        old_node_ptr: TriePtr,
        old_node: &TrieNodeType,
        new_node: &TrieNodeType,
    ) -> (r: Option<TrieNodePatch>)
        ensures
            r is Some <==> {
                &&& old_node.model().kind == new_node.model().kind
                &&& !(old_node.model().kind is Leaf)
                &&& ptr_diff(
                    old_node_ptr.back_block,
                    old_node.model().ptrs,
                    new_node.model().ptrs,
                ).len() > 0
            },
            r matches Some(p) ==> p.ptr == old_node_ptr && p.ptr_diff@ == ptr_diff(
                old_node_ptr.back_block,
                old_node.model().ptrs,
                new_node.model().ptrs,
            ),
    {
        let patch = match (old_node, new_node) {
            (TrieNodeType::Node4(old_data), TrieNodeType::Node4(new_data)) => {
                TrieNodePatch::from_node4(old_node_ptr, old_data, new_data)
            },
            (TrieNodeType::Node16(old_data), TrieNodeType::Node16(new_data)) => {
                TrieNodePatch::from_node16(old_node_ptr, old_data, new_data)
            },
            (TrieNodeType::Node48(old_data), TrieNodeType::Node48(new_data)) => {
                TrieNodePatch::from_node48(old_node_ptr, old_data, new_data)
            },
            (TrieNodeType::Node256(old_data), TrieNodeType::Node256(new_data)) => {
                TrieNodePatch::from_node256(old_node_ptr, old_data, new_data)
            },
            (_, _) => {
                return None;
            },
        };
        if patch.ptr_diff.len() == 0 {
            return None;
        }
        Some(patch)
    }

    /// Create a patch from a borrowed node to another node. If they're not of the same kind, or
    /// are leaves, or do not differ, then this function returns None.
    pub fn try_from_noderef(
        old_node_ptr: TriePtr,
        old_node: TrieNodeRef<'_>,
        new_node: &TrieNodeType,
    ) -> (r: Option<TrieNodePatch>)
        ensures
            r is Some <==> {
                &&& old_node.model().kind == new_node.model().kind
                &&& !(old_node.model().kind is Leaf)
                &&& ptr_diff(
                    old_node_ptr.back_block,
                    old_node.model().ptrs,
                    new_node.model().ptrs,
                ).len() > 0
            },
            r matches Some(p) ==> p.ptr == old_node_ptr && p.ptr_diff@ == ptr_diff(
                old_node_ptr.back_block,
                old_node.model().ptrs,
                new_node.model().ptrs,
            ),
    {
        proof {
            law_ctrl_bits(old_node.model().kind.spec_to_u8());
            law_ctrl_bits(new_node.model().kind.spec_to_u8());
        }
        if clear_ctrl_bits(old_node.id()) != clear_ctrl_bits(new_node.id()) {
            return None;
        }
        if old_node.is_leaf() {
            return None;
        }
        let ptr_diff = TrieNodePatch::make_ptr_diff(
            &old_node_ptr,
            old_node.ptrs(),
            new_node.ptrs(),
        );
        if ptr_diff.len() == 0 {
            return None;
        }
        Some(TrieNodePatch { ptr: old_node_ptr, ptr_diff })
    }

    /// Create a patch from one patch to a node. If the patch is not of a node of the same kind,
    /// or nothing differs, then this function returns None.
    pub fn try_from_patch(
        old_patch_ptr: TriePtr,
        old_patch: &TrieNodePatch,
        new_node: &TrieNodeType,
    ) -> (r: Option<TrieNodePatch>)
        ensures
            r is Some <==> {
                &&& clear_ctrl_bits(old_patch.ptr.id) == new_node.model().kind.spec_to_u8()
                &&& ptr_diff(
                    old_patch_ptr.back_block,
                    old_patch.ptr_diff@,
                    new_node.model().ptrs,
                ).len() > 0
            },
            r matches Some(p) ==> p.ptr == old_patch_ptr && p.ptr_diff@ == ptr_diff(
                old_patch_ptr.back_block,
                old_patch.ptr_diff@,
                new_node.model().ptrs,
            ),
    {
        proof {
            law_ctrl_bits(new_node.model().kind.spec_to_u8());
        }
        if clear_ctrl_bits(old_patch.ptr.id) != clear_ctrl_bits(new_node.id()) {
            return None;
        }
        let ptr_diff = TrieNodePatch::make_ptr_diff(
            &old_patch_ptr,
            old_patch.ptr_diff.as_slice(),
            new_node.ptrs(),
        );
        if ptr_diff.len() == 0 {
            return None;
        }
        Some(TrieNodePatch { ptr: old_patch_ptr, ptr_diff })
    }

    /// Apply this patch to a node4, given the node, block ID where the patch was found, and
    /// block ID where the node was written. Returns false where a diff finds no room.
    pub fn apply_node4_in_place(
        &self,
        old_node: &mut TrieNode4,
        patch_block_id: u32,
        cur_block_id: u32,
    ) -> (r: bool)
        requires
            old(old_node).model().valid(),
        ensures
            (final(old_node).model(), r) == patched(
                old(old_node).model(),
                self.ptr.back_block,
                self.ptr_diff@,
                patch_block_id,
                cur_block_id,
            ),
            final(old_node).meta() == old(old_node).meta(),
            final(old_node).model().valid(),
    {
        let ghost before = old_node.model();
        node_copy_update_ptrs(&mut old_node.ptrs, self.ptr.back_block);
        assert(old_node.model() =~= rebased(before, self.ptr.back_block));
        if !put_all(self.ptr_diff.as_slice(), old_node) {
            return false;
        }
        node_copy_update_ptrs(&mut old_node.ptrs, patch_block_id);
        node_normalize_ptrs(&mut old_node.ptrs, cur_block_id);
        assert(old_node.model() =~= patched(
            before,
            self.ptr.back_block,
            self.ptr_diff@,
            patch_block_id,
            cur_block_id,
        ).0);
        true
    }

    /// Apply this patch to a node16, given the node, block ID where the patch was found, and
    /// block ID where the node was written. Returns false where a diff finds no room.
    pub fn apply_node16_in_place(
        &self,
        old_node: &mut TrieNode16,
        patch_block_id: u32,
        cur_block_id: u32,
    ) -> (r: bool)
        requires
            old(old_node).model().valid(),
        ensures
            (final(old_node).model(), r) == patched(
                old(old_node).model(),
                self.ptr.back_block,
                self.ptr_diff@,
                patch_block_id,
                cur_block_id,
            ),
            final(old_node).meta() == old(old_node).meta(),
            final(old_node).model().valid(),
    {
        let ghost before = old_node.model();
        node_copy_update_ptrs(&mut old_node.ptrs, self.ptr.back_block);
        assert(old_node.model() =~= rebased(before, self.ptr.back_block));
        if !put_all(self.ptr_diff.as_slice(), old_node) {
            return false;
        }
        node_copy_update_ptrs(&mut old_node.ptrs, patch_block_id);
        node_normalize_ptrs(&mut old_node.ptrs, cur_block_id);
        assert(old_node.model() =~= patched(
            before,
            self.ptr.back_block,
            self.ptr_diff@,
            patch_block_id,
            cur_block_id,
        ).0);
        true
    }

    /// Apply this patch to a node48, given the node, block ID where the patch was found, and
    /// block ID where the node was written. Returns false where a diff finds no room.
    pub fn apply_node48_in_place(
        &self,
        old_node: &mut TrieNode48,
        patch_block_id: u32,
        cur_block_id: u32,
    ) -> (r: bool)
        requires
            old(old_node).model().valid(),
        ensures
            (final(old_node).model(), r) == patched(
                old(old_node).model(),
                self.ptr.back_block,
                self.ptr_diff@,
                patch_block_id,
                cur_block_id,
            ),
            final(old_node).meta() == old(old_node).meta(),
            final(old_node).model().valid(),
    {
        let ghost before = old_node.model();
        node_copy_update_ptrs(&mut old_node.ptrs, self.ptr.back_block);
        assert(old_node.model() =~= rebased(before, self.ptr.back_block));
        if !put_all(self.ptr_diff.as_slice(), old_node) {
            return false;
        }
        node_copy_update_ptrs(&mut old_node.ptrs, patch_block_id);
        node_normalize_ptrs(&mut old_node.ptrs, cur_block_id);
        assert(old_node.model() =~= patched(
            before,
            self.ptr.back_block,
            self.ptr_diff@,
            patch_block_id,
            cur_block_id,
        ).0);
        true
    }

    /// Apply this patch to a node256, given the node, block ID where the patch was found, and
    /// block ID where the node was written. Returns false where a diff finds no room.
    pub fn apply_node256_in_place(
        &self,
        old_node: &mut TrieNode256,
        patch_block_id: u32,
        cur_block_id: u32,
    ) -> (r: bool)
        requires
            old(old_node).model().valid(),
        ensures
            (final(old_node).model(), r) == patched(
                old(old_node).model(),
                self.ptr.back_block,
                self.ptr_diff@,
                patch_block_id,
                cur_block_id,
            ),
            final(old_node).meta() == old(old_node).meta(),
            final(old_node).model().valid(),
    {
        let ghost before = old_node.model();
        node_copy_update_ptrs(&mut old_node.ptrs, self.ptr.back_block);
        assert(old_node.model() =~= rebased(before, self.ptr.back_block));
        if !put_all(self.ptr_diff.as_slice(), old_node) {
            return false;
        }
        node_copy_update_ptrs(&mut old_node.ptrs, patch_block_id);
        node_normalize_ptrs(&mut old_node.ptrs, cur_block_id);
        assert(old_node.model() =~= patched(
            before,
            self.ptr.back_block,
            self.ptr_diff@,
            patch_block_id,
            cur_block_id,
        ).0);
        true
    }

    /// Compute the size of the patch. Its pointers are always compressed.
    pub fn size(&self) -> (r: usize)
        requires
            10 * self.ptr_diff@.len() + 12 <= usize::MAX,
        ensures
            r == patch_bytes(self.ptr, self.ptr_diff@).len(),
    {
        // ID, previous node ptr, length prefix
        let mut sz: usize = 1 + self.ptr.compressed_size() + 1;
        let ghost head = sz;
        let mut i: usize = 0;
        while i < self.ptr_diff.len()
            invariant
                i <= self.ptr_diff@.len(),
                10 * self.ptr_diff@.len() + 12 <= usize::MAX,
                head <= 12,
                sz == head + ptrs_dense(self.ptr_diff@.take(i as int)).len(),
                sz <= head + 10 * i,
            decreases self.ptr_diff@.len() - i,
        {
            let ghost nxt = self.ptr_diff@.take(i + 1);
            assert(nxt.drop_last() =~= self.ptr_diff@.take(i as int));
            sz = sz + self.ptr_diff[i].compressed_size();
            i += 1;
        }
        assert(self.ptr_diff@.take(i as int) =~= self.ptr_diff@);
        sz
    }

    /// Load a patch from a byte slice. Returns the number of bytes it takes. Where the bytes
    /// are no patch, `self` may hold parts of one.
    pub fn load_from_slice(&mut self, bytes: &[u8]) -> (r: Result<usize, Error>)
        ensures
            r matches Ok(n) ==> parse_patch(bytes@) == Some(
                (final(self).ptr, final(self).ptr_diff@, n as nat),
            ),
            r matches Err(e) ==> e is CorruptionError && parse_patch(bytes@) is None,
    {
        if bytes.len() == 0 {
            return Err(corruption("Failed to read patch node ID"));
        }
        if bytes[0] != TrieNodeID::Patch.to_u8() {
            return Err(corruption("Did not read a TrieNodeID::Patch"));
        }
        let mut offset: usize = 1;
        match TriePtr::read_bytes_compressed(bytes, &mut offset) {
            Ok(ptr) => {
                self.ptr = ptr;
            },
            Err(e) => {
                return Err(e);
            },
        }
        if offset >= bytes.len() {
            return Err(corruption("Failed to read patch diff length"));
        }
        let num_ptrs = bytes[offset] as usize + 1;
        let start = offset + 1;
        let ghost tail = bytes@.skip(start as int);
        offset = start;
        self.ptr_diff.clear();
        let mut i: usize = 0;
        while i < num_ptrs
            invariant
                i <= num_ptrs,
                start <= offset <= bytes@.len(),
                tail == bytes@.skip(start as int),
                self.ptr == parse_ptr_compressed(bytes@.skip(1)).unwrap().0,
                parse_dense(tail, i as nat) == Some((self.ptr_diff@, (offset - start) as nat)),
                parse_ptr_compressed(bytes@.skip(1)) matches Some((p, n)) && start == 2 + n
                    && bytes@[1 + n] + 1 == num_ptrs,
                bytes@.len() > 0 && bytes@[0] == TrieNodeID::Patch.spec_to_u8(),
                start <= bytes@.len(),
            decreases num_ptrs - i,
        {
            assert(tail.skip(offset - start) =~= bytes@.skip(offset as int));
            match TriePtr::read_bytes_compressed(bytes, &mut offset) {
                Ok(ptr) => {
                    self.ptr_diff.push(ptr);
                },
                Err(e) => {
                    proof {
                        crate::bits::lemma_dense_prefix_none(
                            tail,
                            (i + 1) as nat,
                            num_ptrs as nat,
                        );
                    }
                    return Err(e);
                },
            }
            i += 1;
        }
        Ok(offset)
    }

    /// Load a patch from the head of `bytes`.
    pub fn from_bytes(bytes: &[u8]) -> (r: Result<TrieNodePatch, Error>)
        ensures
            r matches Ok(p) ==> parse_patch(bytes@) matches Some((ptr, diff, _)) && p.ptr == ptr
                && p.ptr_diff@ == diff,
            r matches Err(e) ==> e is CorruptionError && parse_patch(bytes@) is None,
    {
        match TrieNodePatch::consensus_deserialize(bytes) {
            Ok((p, _)) => Ok(p),
            Err(e) => {
                let mut m = "Codec error: ".to_owned();
                let tail = e.message();
                m.append(tail.as_str());
                Err(Error::CorruptionError(m))
            },
        }
    }

    /// Load a patch from the head of `bytes`, with the number of bytes it takes.
    pub fn from_slice(bytes: &[u8]) -> (r: Result<(TrieNodePatch, usize), Error>)
        ensures
            r matches Ok((p, n)) ==> parse_patch(bytes@) == Some((p.ptr, p.ptr_diff@, n as nat)),
            r matches Err(e) ==> e is CorruptionError && parse_patch(bytes@) is None,
    {
        let mut patch = TrieNodePatch { ptr: TriePtr::default(), ptr_diff: Vec::new() };
        match patch.load_from_slice(bytes) {
            Ok(n) => Ok((patch, n)),
            Err(e) => Err(e),
        }
    }
}

/// Put all the diffs into a node. Returns false at the first that finds no room.
fn put_all<N: TrieNode>(diff: &[TriePtr], node: &mut N) -> (r: bool)
    requires
        !(N::kind() is Leaf),
        old(node).model().valid(),
    ensures
        (final(node).model(), r) == insert_diffs(old(node).model(), diff@, diff@.len()),
        final(node).meta() == old(node).meta(),
        final(node).model().valid(),
{
    let mut i: usize = 0;
    while i < diff.len()
        invariant
            !(N::kind() is Leaf),
            i <= diff@.len(),
            insert_diffs(old(node).model(), diff@, i as nat) == (node.model(), true),
            node.meta() == old(node).meta(),
            node.model().valid(),
        decreases diff@.len() - i,
    {
        if !node.replace(&diff[i]) && !node.insert(&diff[i]) {
            proof {
                lemma_insert_stops(old(node).model(), diff@, (i + 1) as nat, diff@.len());
            }
            return false;
        }
        i += 1;
    }
    true
}

proof fn lemma_insert_stops(m: NodeModel, diff: Seq<TriePtr>, k: nat, n: nat)
    requires
        k <= n,
        !insert_diffs(m, diff, k).1,
    ensures
        insert_diffs(m, diff, n) == insert_diffs(m, diff, k),
    decreases n,
{
    if k < n {
        lemma_insert_stops(m, diff, k, (n - 1) as nat);
    }
}

} // verus!
