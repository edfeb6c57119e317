//! The node types of a trie, their operations and their stored forms.

use crate::bits::{
    get_path_byte_len, get_ptrs_byte_len, get_ptrs_byte_len_compressed, lemma_list_lengths,
    path_bytes, path_from_bytes_slice_into, ptrs_compressed, ptrs_from_slice_into,
    write_path_to_bytes, write_ptrs_to_bytes, write_ptrs_to_bytes_compressed,
};
use crate::bytes::{array40, push_all};
use crate::error::{corruption, corruption_of, Error, Piece};
use crate::model::{
    byte_index, children_valid, first_empty, first_slot, index_bytes, indexes_valid, kind_slots,
    lemma_first_empty, lemma_first_slot, parse_node, unshadowed, NodeModel,
};
use crate::node_id::{
    clear_backptr, clear_ctrl_bits, is_backptr, law_ctrl_bits, set_backptr, set_compressed,
    TrieNodeID,
};
use crate::path::NodePath;
use crate::ptr::{empty_ptr, TriePtr};
use crate::value::{MARFValue, MarfTrieId, TrieLeaf};
use vstd::prelude::*;

verus! {

/// Copy-on-write pointer to a node: the trie block that holds the node which was copied, and
/// the pointer to it there. It is not stored; patches are computed from it.
#[derive(Debug, Clone, Copy, PartialEq)]
pub struct TrieCowPtr {
    block: [u8; 32],
    source: TriePtr,
}

impl TrieCowPtr {
    /// The bytes of the block identifier.
    pub closed spec fn spec_block(self) -> [u8; 32] {
        self.block
    }

    /// The pointer to the node that was copied.
    pub closed spec fn spec_ptr(self) -> TriePtr {
        self.source
    }

    pub fn new<T: MarfTrieId>(trie_id: T, ptr: TriePtr) -> (r: TrieCowPtr)
        ensures
            r.spec_block() == trie_id.id_bytes(),
            r.spec_ptr() == ptr,
    {
        TrieCowPtr { block: trie_id.to_bytes(), source: ptr }
    }

    pub fn block_id<T: MarfTrieId>(&self) -> (r: T)
        ensures
            r.id_bytes() == self.spec_block(),
    {
        T::from_bytes(self.block)
    }

    pub fn ptr(&self) -> (r: &TriePtr)
        ensures
            *r == self.spec_ptr(),
    {
        &self.source
    }
}

/// What a node carries in memory but not in its stored form: where it was copied from, how many
/// patches were applied to rebuild it, and the most recent of these.
#[derive(Debug, Clone, Copy)]
pub struct TrieNodeTransientMeta {
    pub cowptr: Option<TrieCowPtr>,
    pub patch_depth: usize,
    pub last_patch_source: Option<(u32, TriePtr)>,
}

/// The transient state of a node that was just read or made.
pub open spec fn no_meta() -> TrieNodeTransientMeta {
    TrieNodeTransientMeta { cowptr: None, patch_depth: 0, last_patch_source: None }
}

impl Default for TrieNodeTransientMeta {
    fn default() -> (m: TrieNodeTransientMeta)
        ensures
            m == no_meta(),
    {
        TrieNodeTransientMeta { cowptr: None, patch_depth: 0, last_patch_source: None }
    }
}

/// A node of this kind without path and children.
pub open spec fn empty_node(kind: TrieNodeID) -> NodeModel {
    NodeModel {
        kind,
        path: Seq::empty(),
        ptrs: Seq::new(kind_slots(kind), |i: int| empty_ptr()),
        indexes: if kind is Node48 {
            Seq::new(256, |i: int| -1i8)
        } else {
            Seq::empty()
        },
        data: if kind is Leaf {
            Seq::new(40, |i: int| 0u8)
        } else {
            Seq::empty()
        },
    }
}

/// What every trie node can do.
pub trait TrieNode: Sized {
    /// The node, apart from its layout in memory.
    spec fn model(&self) -> NodeModel;

    /// Its transient state.
    spec fn meta(&self) -> TrieNodeTransientMeta;

    /// The kind of every node of this type.
    spec fn kind() -> TrieNodeID;

    /// The parts of a node are those that its kind calls for.
    fn shape(&self)
        ensures
            self.model().kind == Self::kind(),
            self.model().shaped(),
    ;

    /// Node ID for encoding/decoding
    fn id(&self) -> (r: u8)
        ensures
            r == Self::kind().spec_to_u8(),
    ;

    /// Follow a path character to a child pointer
    fn walk(&self, chr: u8) -> (r: Option<TriePtr>)
        ensures
            r == self.model().child(chr),
    ;

    /// Insert a child pointer if there is no child for its path character. Returns true if
    /// inserted, false if there is such a child already, or no room; the node is then as it was.
    fn insert(&mut self, ptr: &TriePtr) -> (r: bool)
        requires
            !(Self::kind() is Leaf),
            old(self).model().valid(),
        ensures
            r == (old(self).model().inserted(*ptr) is Some),
            r ==> Some(final(self).model()) == old(self).model().inserted(*ptr),
            !r ==> *final(self) == *old(self),
            final(self).meta() == old(self).meta(),
            final(self).model().valid(),
    ;

    /// Replace an existing child pointer with a new one. Returns true if replaced; false if the
    /// child does not exist.
    fn replace(&mut self, ptr: &TriePtr) -> (r: bool)
        requires
            !(Self::kind() is Leaf),
            old(self).model().valid(),
        ensures
            r == (old(self).model().replaced(*ptr) is Some),
            r ==> Some(final(self).model()) == old(self).model().replaced(*ptr),
            !r ==> *final(self) == *old(self),
            final(self).meta() == old(self).meta(),
            final(self).model().valid(),
    ;

    /// Load an encoded instance of this node from bytes into `self`. Returns the number of
    /// bytes it takes. Where the bytes are no such node, `self` may hold parts of it.
    fn load_from_slice(&mut self, bytes: &[u8]) -> (r: Result<usize, Error>)
        ensures
            r matches Ok(n) ==> parse_node(Self::kind(), bytes@) == Some(
                (final(self).model(), n as nat),
            ) && final(self).meta() == no_meta() && final(self).model().valid(),
            r matches Err(e) ==> e is CorruptionError && parse_node(Self::kind(), bytes@) is None,
            old(self).model().valid() ==> final(self).model().valid(),
    ;

    /// Get a reference to the children of this node.
    fn ptrs(&self) -> (r: &[TriePtr])
        ensures
            r@ == self.model().ptrs,
    ;

    /// Get a reference to the node's compressed path.
    fn path(&self) -> (r: &NodePath)
        ensures
            r@ == self.model().path,
    ;

    /// Get the ptr to the node we were copied from (on COW)
    fn get_cow_ptr(&self) -> (r: Option<&TrieCowPtr>)
        ensures
            match r {
                Some(c) => self.meta().cowptr == Some(*c),
                None => self.meta().cowptr is None,
            },
    ;

    /// Set the ptr to the node we were copied from (on COW). A leaf has none.
    fn set_cow_ptr(&mut self, cowptr: TrieCowPtr)
        ensures
            final(self).model() == old(self).model(),
            final(self).meta() == if Self::kind() is Leaf {
                old(self).meta()
            } else {
                TrieNodeTransientMeta { cowptr: Some(cowptr), ..old(self).meta() }
            },
    ;

    /// Append this node, its pointers uncompressed.
    fn write_bytes(&self, w: &mut Vec<u8>)
        ensures
            final(w)@ == old(w)@ + self.model().bytes(),
    ;

    /// Append this node, its pointers compressed to the smallest possible size.
    fn write_bytes_compressed(&self, w: &mut Vec<u8>)
        ensures
            final(w)@ == old(w)@ + self.model().bytes_compressed(),
    ;

    /// Calculate how many bytes this node will take to encode.
    fn byte_len(&self) -> (r: usize)
        ensures
            r == self.model().bytes().len(),
    ;

    /// Calculate how many bytes this node will take to encode, compressed.
    fn byte_len_compressed(&self) -> (r: usize)
        ensures
            r == self.model().bytes_compressed().len(),
    ;
}

// ---------------------------------------------------------------------------------------
// Slots
// ---------------------------------------------------------------------------------------
/// The first occupied slot with path character `chr`.
pub(crate) fn find_slot(ptrs: &[TriePtr], chr: u8) -> (r: Option<usize>)
    ensures
        match r {
            Some(i) => first_slot(ptrs@, chr) == Some(i as int) && i < ptrs@.len(),
            None => first_slot(ptrs@, chr) is None,
        },
{
    let mut i: usize = 0;
    while i < ptrs.len()
        invariant
            i <= ptrs@.len(),
            forall|j: int| 0 <= j < i ==> (#[trigger] ptrs@[j]).is_empty() || ptrs@[j].chr != chr,
        decreases ptrs@.len() - i,
    {
        if !ptrs[i].is_empty() && ptrs[i].chr() == chr {
            proof {
                crate::model::lemma_first_slot_is(ptrs@, chr, i as int);
            }
            return Some(i);
        }
        i += 1;
    }
    proof {
        lemma_first_slot(ptrs@, chr);
    }
    None
}

/// The first unoccupied slot.
pub(crate) fn find_empty(ptrs: &[TriePtr]) -> (r: Option<usize>)
    ensures
        match r {
            Some(i) => first_empty(ptrs@) == Some(i as int) && i < ptrs@.len(),
            None => first_empty(ptrs@) is None,
        },
{
    proof {
        lemma_first_empty(ptrs@);
    }
    let mut i: usize = 0;
    while i < ptrs.len()
        invariant
            i <= ptrs@.len(),
            forall|j: int| 0 <= j < i ==> !(#[trigger] ptrs@[j]).is_empty(),
        decreases ptrs@.len() - i,
    {
        if ptrs[i].is_empty() {
            proof {
                lemma_first_empty(ptrs@);
            }
            return Some(i);
        }
        i += 1;
    }
    proof {
        lemma_first_empty(ptrs@);
    }
    None
}

/// Append the slots of a node of kind `kind`, compressed.
fn write_node_ptrs(kind: TrieNodeID, ptrs: &[TriePtr], w: &mut Vec<u8>)
    requires
        kind_slots(kind) > 0,
        ptrs@.len() == kind_slots(kind),
    ensures
        final(w)@ == old(w)@ + ptrs_compressed(kind.spec_to_u8(), ptrs@),
{
    let id = kind.to_u8();
    proof {
        law_ctrl_bits(id);
    }
    let r = write_ptrs_to_bytes_compressed(id, ptrs, w);
    assert(r is Ok);
}

/// Turn each non-empty, non-backptr in `ptrs` into a backptr pointing at `child_block_id`
pub fn node_copy_update_ptrs(ptrs: &mut [TriePtr], child_block_id: u32)
    ensures
        final(ptrs)@ == copied_ptrs(old(ptrs)@, child_block_id),
{
    let ghost before = ptrs@;
    let mut i: usize = 0;
    while i < ptrs.len()
        invariant
            i <= ptrs@.len(),
            ptrs@.len() == before.len(),
            forall|j: int| 0 <= j < i ==> #[trigger] ptrs@[j] == copied_ptr(before[j], child_block_id),
            forall|j: int| i <= j < ptrs@.len() ==> #[trigger] ptrs@[j] == before[j],
        decreases ptrs@.len() - i,
    {
        let p = ptrs[i];
        if !(p.id() == 0 || is_backptr(p.id())) {
            ptrs[i] = TriePtr {
                id: set_backptr(p.id),
                chr: p.chr,
                ptr: p.ptr,
                back_block: child_block_id,
            };
        }
        i += 1;
    }
    assert(ptrs@ =~= copied_ptrs(before, child_block_id));
}

/// Given the current block ID, convert every backptr whose back_block is equal to
/// `cur_block_id` to a normal pointer.
pub fn node_normalize_ptrs(ptrs: &mut [TriePtr], cur_block_id: u32)
    ensures
        final(ptrs)@ == normalized_ptrs(old(ptrs)@, cur_block_id),
{
    let ghost before = ptrs@;
    let mut i: usize = 0;
    while i < ptrs.len()
        invariant
            i <= ptrs@.len(),
            ptrs@.len() == before.len(),
            forall|j: int|
                0 <= j < i ==> #[trigger] ptrs@[j] == normalized_ptr(before[j], cur_block_id),
            forall|j: int| i <= j < ptrs@.len() ==> #[trigger] ptrs@[j] == before[j],
        decreases ptrs@.len() - i,
    {
        let p = ptrs[i];
        if is_backptr(p.id) && p.back_block == cur_block_id {
            ptrs[i] = TriePtr { id: clear_backptr(p.id), chr: p.chr, ptr: p.ptr, back_block: 0 };
        }
        i += 1;
    }
    assert(ptrs@ =~= normalized_ptrs(before, cur_block_id));
}

/// A pointer seen from a later block: an occupied slot that is no back-pointer yet becomes one
/// into `block`.
pub open spec fn copied_ptr(p: TriePtr, block: u32) -> TriePtr {
    if p.is_empty() || is_backptr(p.id) {
        p
    } else {
        TriePtr { id: set_backptr(p.id), chr: p.chr, ptr: p.ptr, back_block: block }
    }
}

/// Pointers seen from a later block.
pub open spec fn copied_ptrs(ptrs: Seq<TriePtr>, block: u32) -> Seq<TriePtr> {
    ptrs.map_values(|p: TriePtr| copied_ptr(p, block))
}

/// A pointer seen from `block` itself: a back-pointer into it becomes a plain one.
pub open spec fn normalized_ptr(p: TriePtr, block: u32) -> TriePtr {
    if is_backptr(p.id) && p.back_block == block {
        p.spec_from_backptr()
    } else {
        p
    }
}

/// Pointers seen from `block` itself.
pub open spec fn normalized_ptrs(ptrs: Seq<TriePtr>, block: u32) -> Seq<TriePtr> {
    ptrs.map_values(|p: TriePtr| normalized_ptr(p, block))
}

/// Copying a pointer out of a block and normalizing it there gives it back.
pub proof fn law_copy_then_normalize(p: TriePtr, block: u32)
    requires
        !is_backptr(p.id),
        p.back_block == 0,
    ensures
        normalized_ptr(copied_ptr(p, block), block) == p,
{
    law_ctrl_bits(p.id);
}

/// After a copy every occupied slot is a back-pointer, and a second copy changes nothing.
pub proof fn law_copy_idempotent(p: TriePtr, block: u32, later: u32)
    ensures
        copied_ptr(p, block).is_empty() || is_backptr(copied_ptr(p, block).id),
        copied_ptr(copied_ptr(p, block), later) == copied_ptr(p, block),
        copied_ptr(p, block).chr == p.chr,
        copied_ptr(p, block).is_empty() == p.is_empty(),
{
    law_ctrl_bits(p.id);
}

/// The slots, followed by unoccupied ones.
pub open spec fn widened(ptrs: Seq<TriePtr>, n: nat) -> Seq<TriePtr> {
    ptrs + Seq::new((n - ptrs.len()) as nat, |i: int| empty_ptr())
}

/// Each slot at the place of its character; of two with the same character the later one.
pub open spec fn spread(ptrs: Seq<TriePtr>) -> Seq<TriePtr>
    decreases ptrs.len(),
{
    if ptrs.len() == 0 {
        Seq::new(256, |i: int| empty_ptr())
    } else {
        spread(ptrs.drop_last()).update(ptrs.last().chr as int, ptrs.last())
    }
}

/// For each character the slot that has it; of two with the same character the later one.
pub open spec fn slots_index(ptrs: Seq<TriePtr>) -> Seq<i8>
    decreases ptrs.len(),
{
    if ptrs.len() == 0 {
        Seq::new(256, |i: int| -1i8)
    } else {
        slots_index(ptrs.drop_last()).update(ptrs.last().chr as int, (ptrs.len() - 1) as i8)
    }
}

fn spread_ptrs(ptrs: &[TriePtr]) -> (r: [TriePtr; 256])
    ensures
        r@ == spread(ptrs@),
{
    let mut out: [TriePtr; 256] = [empty_slot(); 256];
    let mut i: usize = 0;
    assert(out@ =~= spread(ptrs@.take(0)));
    while i < ptrs.len()
        invariant
            i <= ptrs@.len(),
            out@ == spread(ptrs@.take(i as int)),
        decreases ptrs@.len() - i,
    {
        let ghost nxt = ptrs@.take(i + 1);
        assert(nxt.drop_last() =~= ptrs@.take(i as int));
        let ghost before = out@;
        out[ptrs[i].chr() as usize] = ptrs[i];
        assert(out@ =~= spread(nxt));
        i += 1;
    }
    assert(ptrs@.take(i as int) =~= ptrs@);
    out
}

/// An unoccupied slot.
fn empty_slot() -> (p: TriePtr)
    ensures
        p == empty_ptr(),
{
    TriePtr { id: 0, chr: 0, ptr: 0, back_block: 0 }
}

proof fn lemma_spread(ptrs: Seq<TriePtr>)
    ensures
        spread(ptrs).len() == 256,
        forall|c: int|
            0 <= c < 256 ==> (#[trigger] spread(ptrs)[c] == empty_ptr() && forall|j: int|
                0 <= j < ptrs.len() ==> (#[trigger] ptrs[j]).chr != c) || exists|i: int|
                0 <= i < ptrs.len() && spread(ptrs)[c] == #[trigger] ptrs[i] && ptrs[i].chr == c
                    && forall|j: int| i < j < ptrs.len() ==> (#[trigger] ptrs[j]).chr != c,
    decreases ptrs.len(),
{
    if ptrs.len() > 0 {
        let front = ptrs.drop_last();
        lemma_spread(front);
        assert forall|c: int| 0 <= c < 256 implies (#[trigger] spread(ptrs)[c] == empty_ptr()
            && forall|j: int| 0 <= j < ptrs.len() ==> (#[trigger] ptrs[j]).chr != c) || exists|
            i: int,
        |
            0 <= i < ptrs.len() && spread(ptrs)[c] == #[trigger] ptrs[i] && ptrs[i].chr == c
                && forall|j: int| i < j < ptrs.len() ==> (#[trigger] ptrs[j]).chr != c by {
            if c == ptrs.last().chr {
                assert(spread(ptrs)[c] == ptrs[ptrs.len() - 1]);
            } else {
                assert(spread(ptrs)[c] == spread(front)[c]);
                if exists|i: int|
                    0 <= i < front.len() && spread(front)[c] == #[trigger] front[i] && front[i].chr
                        == c && forall|j: int|
                        i < j < front.len() ==> (#[trigger] front[j]).chr != c {
                    let i = choose|i: int|
                        0 <= i < front.len() && spread(front)[c] == #[trigger] front[i]
                            && front[i].chr == c && forall|j: int|
                            i < j < front.len() ==> (#[trigger] front[j]).chr != c;
                    assert(ptrs[i] == front[i]);
                    assert forall|j: int| i < j < ptrs.len() implies (#[trigger] ptrs[j]).chr
                        != c by {
                        if j < front.len() {
                            assert(ptrs[j] == front[j]);
                        }
                    }
                } else {
                    assert forall|j: int| 0 <= j < ptrs.len() implies (#[trigger] ptrs[j]).chr
                        != c by {
                        if j < front.len() {
                            assert(ptrs[j] == front[j]);
                        }
                    }
                }
            }
        }
    }
}

proof fn lemma_slots_index(ptrs: Seq<TriePtr>)
    requires
        ptrs.len() <= 48,
    ensures
        slots_index(ptrs).len() == 256,
        forall|c: int|
            0 <= c < 256 ==> {
                let i = #[trigger] slots_index(ptrs)[c];
                &&& i == -1 || 0 <= i < ptrs.len()
                &&& i == -1 ==> forall|j: int|
                    0 <= j < ptrs.len() ==> (#[trigger] ptrs[j]).chr != c
                &&& i >= 0 ==> ptrs[i as int].chr == c && forall|j: int|
                    i < j < ptrs.len() ==> (#[trigger] ptrs[j]).chr != c
            },
    decreases ptrs.len(),
{
    if ptrs.len() > 0 {
        let front = ptrs.drop_last();
        lemma_slots_index(front);
        assert forall|c: int| 0 <= c < 256 implies {
            let i = #[trigger] slots_index(ptrs)[c];
            &&& i == -1 || 0 <= i < ptrs.len()
            &&& i == -1 ==> forall|j: int| 0 <= j < ptrs.len() ==> (#[trigger] ptrs[j]).chr != c
            &&& i >= 0 ==> ptrs[i as int].chr == c && forall|j: int|
                i < j < ptrs.len() ==> (#[trigger] ptrs[j]).chr != c
        } by {
            let i = slots_index(front)[c];
            if c != ptrs.last().chr {
                assert(slots_index(ptrs)[c] == i);
                if i == -1 {
                    assert forall|j: int| 0 <= j < ptrs.len() implies (#[trigger] ptrs[j]).chr
                        != c by {
                        if j < front.len() {
                            assert(ptrs[j] == front[j]);
                        }
                    }
                } else {
                    assert(ptrs[i as int] == front[i as int]);
                    assert forall|j: int| i < j < ptrs.len() implies (#[trigger] ptrs[j]).chr
                        != c by {
                        if j < front.len() {
                            assert(ptrs[j] == front[j]);
                        }
                    }
                }
            }
        }
    }
}

/// Promoting a 4-way node to a 16-way node keeps every child.
pub proof fn law_promote_4_to_16(m: NodeModel, chr: u8)
    requires
        m.kind is Node4,
        m.shaped(),
    ensures
        (NodeModel { kind: TrieNodeID::Node16, ptrs: widened(m.ptrs, 16), ..m }).child(chr)
            == m.child(chr),
{
    let wide = widened(m.ptrs, 16);
    lemma_first_slot(m.ptrs, chr);
    lemma_first_slot(wide, chr);
    assert(forall|j: int| 0 <= j < 4 ==> #[trigger] wide[j] == m.ptrs[j]);
    if let Some(i) = first_slot(m.ptrs, chr) {
        crate::model::lemma_first_slot_is(wide, chr, i);
    } else if let Some(i) = first_slot(wide, chr) {
        assert(wide[i] == m.ptrs[i]);
    }
}

/// Promoting a 16-way node to a 48-way node keeps every child, as long as no unoccupied slot
/// stands behind an occupied one with the same character.
pub proof fn law_promote_16_to_48(m: NodeModel, chr: u8)
    requires
        m.kind is Node16,
        m.shaped(),
        children_valid(m),
        unshadowed(m.ptrs),
    ensures
        (NodeModel {
            kind: TrieNodeID::Node48,
            ptrs: widened(m.ptrs, 48),
            indexes: slots_index(m.ptrs),
            ..m
        }).child(chr) == m.child(chr),
{
    let wide = widened(m.ptrs, 48);
    lemma_first_slot(m.ptrs, chr);
    lemma_slots_index(m.ptrs);
    let i = slots_index(m.ptrs)[chr as int];
    assert(forall|j: int| 0 <= j < 16 ==> #[trigger] wide[j] == m.ptrs[j]);
    if let Some(k) = first_slot(m.ptrs, chr) {
        assert(i >= k);
        assert(wide[i as int] == m.ptrs[i as int]);
        assert(wide[k] == m.ptrs[k]);
    } else if i >= 0 {
        assert(wide[i as int] == m.ptrs[i as int]);
    }
}

/// Promoting a 4-way or 48-way node to a 256-way node keeps every child, as long as no
/// unoccupied slot stands behind an occupied one with the same character.
pub proof fn law_promote_to_256(m: NodeModel, chr: u8)
    requires
        m.kind is Node4 || m.kind is Node48,
        m.shaped(),
        children_valid(m),
        unshadowed(m.ptrs),
    ensures
        (NodeModel {
            kind: TrieNodeID::Node256,
            ptrs: spread(m.ptrs),
            indexes: Seq::empty(),
            ..m
        }).child(chr) == m.child(chr),
{
    lemma_spread(m.ptrs);
    lemma_first_slot(m.ptrs, chr);
    let p = spread(m.ptrs)[chr as int];
    if exists|i: int|
        0 <= i < m.ptrs.len() && p == #[trigger] m.ptrs[i] && m.ptrs[i].chr == chr && forall|j: int|
            i < j < m.ptrs.len() ==> (#[trigger] m.ptrs[j]).chr != chr {
        let i = choose|i: int|
            0 <= i < m.ptrs.len() && p == #[trigger] m.ptrs[i] && m.ptrs[i].chr == chr && forall|
                j: int,
            |
                i < j < m.ptrs.len() ==> (#[trigger] m.ptrs[j]).chr != chr;
        if let Some(q) = m.child(chr) {
            let k = if m.kind is Node4 {
                first_slot(m.ptrs, chr).unwrap()
            } else {
                m.indexes[chr as int] as int
            };
            assert(m.ptrs[k] == q);
            assert(k <= i);
        } else if !p.is_empty() {
            crate::model::law_slot_is_child(m, i);
        }
    } else {
        if let Some(q) = m.child(chr) {
            let k = if m.kind is Node4 {
                first_slot(m.ptrs, chr).unwrap()
            } else {
                m.indexes[chr as int] as int
            };
            assert(m.ptrs[k].chr == chr);
        }
    }
}

/// Trie node with four children
#[derive(Debug, PartialEq)]
pub struct TrieNode4 {
    pub path: NodePath,
    pub ptrs: [TriePtr; 4],
    /// If this node was created by copy-on-write, then this points to the node it was copied
    /// from.
    pub cowptr: Option<TrieCowPtr>,
    /// Number of patches applied to reconstruct this node from the base on-disk node.
    pub patch_depth: usize,
    /// The block and pointer of the most recent patch layer.
    pub last_patch_source: Option<(u32, TriePtr)>,
}

impl Clone for TrieNode4 {
    fn clone(&self) -> (r: TrieNode4)
        ensures
            r == *self,
    {
        TrieNode4 {
            path: self.path,
            ptrs: self.ptrs,
            cowptr: self.cowptr,
            patch_depth: self.patch_depth,
            last_patch_source: self.last_patch_source,
        }
    }
}

impl TrieNode4 {
    pub fn new(path: &[u8]) -> (r: TrieNode4)
        requires
            path@.len() <= 32,
        ensures
            r.model() == (NodeModel { path: path@, ..empty_node(TrieNodeID::Node4) }),
            r.meta() == no_meta(),
    {
        let r = TrieNode4 {
            path: NodePath::from_slice(path).unwrap(),
            ptrs: [empty_slot(); 4],
            cowptr: None,
            patch_depth: 0,
            last_patch_source: None,
        };
        assert(r.model() =~= (NodeModel { path: path@, ..empty_node(TrieNodeID::Node4) }));
        r
    }
}

/// Trie node with 16 children
#[derive(Debug, PartialEq)]
pub struct TrieNode16 {
    pub path: NodePath,
    pub ptrs: [TriePtr; 16],
    /// If this node was created by copy-on-write, then this points to the node it was copied
    /// from.
    pub cowptr: Option<TrieCowPtr>,
    /// Number of patches applied to reconstruct this node from the base on-disk node.
    pub patch_depth: usize,
    /// The block and pointer of the most recent patch layer.
    pub last_patch_source: Option<(u32, TriePtr)>,
}

impl Clone for TrieNode16 {
    fn clone(&self) -> (r: TrieNode16)
        ensures
            r == *self,
    {
        TrieNode16 {
            path: self.path,
            ptrs: self.ptrs,
            cowptr: self.cowptr,
            patch_depth: self.patch_depth,
            last_patch_source: self.last_patch_source,
        }
    }
}

impl TrieNode16 {
    pub fn new(path: &[u8]) -> (r: TrieNode16)
        requires
            path@.len() <= 32,
        ensures
            r.model() == (NodeModel { path: path@, ..empty_node(TrieNodeID::Node16) }),
            r.meta() == no_meta(),
    {
        let r = TrieNode16 {
            path: NodePath::from_slice(path).unwrap(),
            ptrs: [empty_slot(); 16],
            cowptr: None,
            patch_depth: 0,
            last_patch_source: None,
        };
        assert(r.model() =~= (NodeModel { path: path@, ..empty_node(TrieNodeID::Node16) }));
        r
    }

    /// Promote a Node4 to a Node16
    pub fn from_node4(node4: &TrieNode4) -> (r: TrieNode16)
        ensures
            r.model() == (NodeModel {
                kind: TrieNodeID::Node16,
                ptrs: widened(node4.ptrs@, 16),
                ..node4.model()
            }),
            r.meta() == no_meta(),
    {
        let mut ptrs: [TriePtr; 16] = [empty_slot(); 16];
        let mut i: usize = 0;
        while i < 4
            invariant
                i <= 4,
                ptrs@.len() == 16,
                forall|j: int| 0 <= j < i ==> ptrs@[j] == node4.ptrs@[j],
                forall|j: int| i <= j < 16 ==> ptrs@[j] == empty_ptr(),
            decreases 4 - i,
        {
            ptrs[i] = node4.ptrs[i];
            i += 1;
        }
        assert(ptrs@ =~= widened(node4.ptrs@, 16));
        TrieNode16 {
            path: node4.path,
            ptrs,
            cowptr: None,
            patch_depth: 0,
            last_patch_source: None,
        }
    }
}

/// Trie node with 48 children
#[derive(Debug)]
pub struct TrieNode48 {
    pub path: NodePath,
    /// For each path character the slot that holds its child, or a negative number. Every
    /// entry is below 48.
    pub indexes: [i8; 256],
    pub ptrs: [TriePtr; 48],
    /// If this node was created by copy-on-write, then this points to the node it was copied
    /// from.
    pub cowptr: Option<TrieCowPtr>,
    /// Number of patches applied to reconstruct this node from the base on-disk node.
    pub patch_depth: usize,
    /// The block and pointer of the most recent patch layer.
    pub last_patch_source: Option<(u32, TriePtr)>,
}

impl Clone for TrieNode48 {
    fn clone(&self) -> (r: TrieNode48)
        ensures
            r == *self,
    {
        TrieNode48 {
            path: self.path,
            indexes: self.indexes,
            ptrs: self.ptrs,
            cowptr: self.cowptr,
            patch_depth: self.patch_depth,
            last_patch_source: self.last_patch_source,
        }
    }
}

/// Two nodes are equal if their paths, slots and indexes are. Transient state does not count.
impl PartialEq for TrieNode48 {
    fn eq(&self, other: &TrieNode48) -> (r: bool) {
        self.path == other.path && ptrs_equal(&self.ptrs, &other.ptrs) && indexes_equal(
            &self.indexes,
            &other.indexes,
        )
    }
}

impl vstd::std_specs::cmp::PartialEqSpecImpl for TrieNode48 {
    open spec fn obeys_eq_spec() -> bool {
        true
    }

    open spec fn eq_spec(&self, other: &TrieNode48) -> bool {
        self.path@ == other.path@ && self.ptrs@ == other.ptrs@ && self.indexes@ == other.indexes@
    }
}

fn ptrs_equal(a: &[TriePtr], b: &[TriePtr]) -> (r: bool)
    ensures
        r == (a@ == b@),
{
    if a.len() != b.len() {
        return false;
    }
    let mut i: usize = 0;
    while i < a.len()
        invariant
            i <= a@.len(),
            a@.len() == b@.len(),
            forall|j: int| 0 <= j < i ==> a@[j] == b@[j],
        decreases a@.len() - i,
    {
        if a[i] != b[i] {
            return false;
        }
        i += 1;
    }
    assert(a@ =~= b@);
    true
}

fn indexes_equal(a: &[i8], b: &[i8]) -> (r: bool)
    ensures
        r == (a@ == b@),
{
    if a.len() != b.len() {
        return false;
    }
    let mut i: usize = 0;
    while i < a.len()
        invariant
            i <= a@.len(),
            a@.len() == b@.len(),
            forall|j: int| 0 <= j < i ==> a@[j] == b@[j],
        decreases a@.len() - i,
    {
        if a[i] != b[i] {
            return false;
        }
        i += 1;
    }
    assert(a@ =~= b@);
    true
}


impl TrieNode48 {
    pub fn new(path: &[u8]) -> (r: TrieNode48)
        requires
            path@.len() <= 32,
        ensures
            r.model() == (NodeModel { path: path@, ..empty_node(TrieNodeID::Node48) }),
            r.meta() == no_meta(),
            r.model().valid(),
    {
        let r = TrieNode48 {
            path: NodePath::from_slice(path).unwrap(),
            indexes: [-1i8; 256],
            ptrs: [empty_slot(); 48],
            cowptr: None,
            patch_depth: 0,
            last_patch_source: None,
        };
        assert(r.model() =~= (NodeModel { path: path@, ..empty_node(TrieNodeID::Node48) }));
        r
    }

    pub fn indexes(&self) -> (r: &[i8; 256])
        ensures
            *r == self.indexes,
    {
        &self.indexes
    }

    /// Is the index one that a stored node may have?
    pub fn validate_indexes(ptrs_slice: &[TriePtr; 48], indexes_slice: &[i8; 256]) -> (r: Result<
        (),
        Error,
    >)
        ensures
            r is Ok <==> indexes_valid(ptrs_slice@, indexes_slice@),
            r matches Err(e) ==> e is CorruptionError,
    {
        let mut i: usize = 0;
        while i < 48
            invariant
                i <= 48,
                forall|j: int|
                    0 <= j < i && !(#[trigger] ptrs_slice@[j]).is_empty() ==> 0
                        <= indexes_slice@[ptrs_slice@[j].chr as int] < 48,
            decreases 48 - i,
        {
            let p = ptrs_slice[i];
            if !p.is_empty() {
                let ix = indexes_slice[p.chr() as usize];
                if !(ix >= 0 && ix < 48) {
                    assert(!ptrs_slice@[i as int].is_empty());
                    return Err(
                        corruption("Node48: corrupt index array: invalid index value"),
                    );
                }
            }
            i += 1;
        }
        let mut c: usize = 0;
        while c < 256
            invariant
                c <= 256,
                forall|d: int|
                    0 <= d < c && #[trigger] indexes_slice@[d] >= 0 ==> indexes_slice@[d] < 48
                        && !ptrs_slice@[indexes_slice@[d] as int].is_empty(),
            decreases 256 - c,
        {
            let ix = indexes_slice[c];
            if ix >= 0 {
                if ix >= 48 || ptrs_slice[ix as usize].is_empty() {
                    assert(indexes_slice@[c as int] >= 0);
                    return Err(
                        corruption("Node48: corrupt index array: index points to empty node"),
                    );
                }
            }
            c += 1;
        }
        Ok(())
    }

    /// Promote a node16 to a node48
    pub fn from_node16(node16: &TrieNode16) -> (r: TrieNode48)
        ensures
            r.model() == (NodeModel {
                kind: TrieNodeID::Node48,
                ptrs: widened(node16.ptrs@, 48),
                indexes: slots_index(node16.ptrs@),
                ..node16.model()
            }),
            r.meta() == no_meta(),
            r.model().valid(),
    {
        let mut ptrs: [TriePtr; 48] = [empty_slot(); 48];
        let mut indexes: [i8; 256] = [-1i8; 256];
        let mut i: usize = 0;
        assert(indexes@ =~= slots_index(node16.ptrs@.take(0)));
        while i < 16
            invariant
                i <= 16,
                ptrs@.len() == 48,
                indexes@ == slots_index(node16.ptrs@.take(i as int)),
                forall|j: int| 0 <= j < i ==> ptrs@[j] == node16.ptrs@[j],
                forall|j: int| i <= j < 48 ==> ptrs@[j] == empty_ptr(),
            decreases 16 - i,
        {
            let ghost nxt = node16.ptrs@.take(i + 1);
            assert(nxt.drop_last() =~= node16.ptrs@.take(i as int));
            let p = node16.ptrs[i];
            ptrs[i] = p;
            indexes[p.chr() as usize] = i as i8;
            assert(indexes@ =~= slots_index(nxt));
            i += 1;
        }
        assert(node16.ptrs@.take(16) =~= node16.ptrs@);
        assert(ptrs@ =~= widened(node16.ptrs@, 48));
        proof {
            lemma_slots_index(node16.ptrs@);
        }
        TrieNode48 {
            path: node16.path,
            indexes,
            ptrs,
            cowptr: None,
            patch_depth: 0,
            last_patch_source: None,
        }
    }
}

fn write_indexes(indexes: &[i8; 256], w: &mut Vec<u8>)
    ensures
        final(w)@ == old(w)@ + index_bytes(indexes@),
{
    let ghost start = w@;
    let mut i: usize = 0;
    assert(w@ =~= start + index_bytes(indexes@.take(0)));
    while i < 256
        invariant
            i <= 256,
            w@ == start + index_bytes(indexes@.take(i as int)),
        decreases 256 - i,
    {
        let ix = indexes[i];
        let byte: u8 = if ix >= 0 {
            ix as u8
        } else {
            (ix as i16 + 256) as u8
        };
        w.push(byte);
        assert(w@ =~= start + index_bytes(indexes@.take(i + 1)));
        i += 1;
    }
    assert(indexes@.take(256) =~= indexes@);
}

fn read_indexes(bytes: &[u8], at: usize) -> (r: [i8; 256])
    requires
        at + 256 <= bytes@.len(),
    ensures
        r@ == Seq::new(256, |i: int| byte_index(bytes@[at + i])),
{
    let len = bytes.len();
    let mut out: [i8; 256] = [0i8; 256];
    let mut i: usize = 0;
    while i < 256
        invariant
            i <= 256,
            at + 256 <= bytes@.len(),
            bytes@.len() <= usize::MAX,
            out@.len() == 256,
            forall|j: int| 0 <= j < i ==> out@[j] == byte_index(bytes@[at + j]),
        decreases 256 - i,
    {
        let b = bytes[at + i];
        out[i] = if b < 128 {
            b as i8
        } else {
            (b as i16 - 256) as i8
        };
        i += 1;
    }
    assert(out@ =~= Seq::new(256, |i: int| byte_index(bytes@[at + i])));
    out
}

/// Trie node with 256 children
#[derive(Debug)]
pub struct TrieNode256 {
    pub path: NodePath,
    pub ptrs: [TriePtr; 256],
    /// If this node was created by copy-on-write, then this points to the node it was copied
    /// from.
    pub cowptr: Option<TrieCowPtr>,
    /// Number of patches applied to reconstruct this node from the base on-disk node.
    pub patch_depth: usize,
    /// The block and pointer of the most recent patch layer.
    pub last_patch_source: Option<(u32, TriePtr)>,
}

impl Clone for TrieNode256 {
    fn clone(&self) -> (r: TrieNode256)
        ensures
            r == *self,
    {
        TrieNode256 {
            path: self.path,
            ptrs: self.ptrs,
            cowptr: self.cowptr,
            patch_depth: self.patch_depth,
            last_patch_source: self.last_patch_source,
        }
    }
}

/// Two nodes are equal if their paths and slots are. Transient state does not count.
impl PartialEq for TrieNode256 {
    fn eq(&self, other: &TrieNode256) -> (r: bool) {
        self.path == other.path && ptrs_equal(&self.ptrs, &other.ptrs)
    }
}

impl vstd::std_specs::cmp::PartialEqSpecImpl for TrieNode256 {
    open spec fn obeys_eq_spec() -> bool {
        true
    }

    open spec fn eq_spec(&self, other: &TrieNode256) -> bool {
        self.path@ == other.path@ && self.ptrs@ == other.ptrs@
    }
}


impl TrieNode256 {
    pub fn new(path: &[u8]) -> (r: TrieNode256)
        requires
            path@.len() <= 32,
        ensures
            r.model() == (NodeModel { path: path@, ..empty_node(TrieNodeID::Node256) }),
            r.meta() == no_meta(),
    {
        let r = TrieNode256 {
            path: NodePath::from_slice(path).unwrap(),
            ptrs: [empty_slot(); 256],
            cowptr: None,
            patch_depth: 0,
            last_patch_source: None,
        };
        assert(r.model() =~= (NodeModel { path: path@, ..empty_node(TrieNodeID::Node256) }));
        r
    }

    /// Promote a Node4 to a Node256
    pub fn from_node4(node4: &TrieNode4) -> (r: TrieNode256)
        ensures
            r.model() == (NodeModel {
                kind: TrieNodeID::Node256,
                ptrs: spread(node4.ptrs@),
                ..node4.model()
            }),
            r.meta() == no_meta(),
    {
        TrieNode256 {
            path: node4.path,
            ptrs: spread_ptrs(&node4.ptrs),
            cowptr: None,
            patch_depth: 0,
            last_patch_source: None,
        }
    }

    /// Promote a node48 to a node256
    pub fn from_node48(node48: &TrieNode48) -> (r: TrieNode256)
        ensures
            r.model() == (NodeModel {
                kind: TrieNodeID::Node256,
                ptrs: spread(node48.ptrs@),
                indexes: Seq::empty(),
                ..node48.model()
            }),
            r.meta() == no_meta(),
    {
        TrieNode256 {
            path: node48.path,
            ptrs: spread_ptrs(&node48.ptrs),
            cowptr: None,
            patch_depth: 0,
            last_patch_source: None,
        }
    }
}

impl TrieNode for TrieNode4 {
    open spec fn model(&self) -> NodeModel {
        NodeModel {
            kind: TrieNodeID::Node4,
            path: self.path@,
            ptrs: self.ptrs@,
            indexes: Seq::empty(),
            data: Seq::empty(),
        }
    }

    open spec fn meta(&self) -> TrieNodeTransientMeta {
        TrieNodeTransientMeta {
            cowptr: self.cowptr,
            patch_depth: self.patch_depth,
            last_patch_source: self.last_patch_source,
        }
    }

    open spec fn kind() -> TrieNodeID {
        TrieNodeID::Node4
    }

    fn shape(&self) {
        self.path.bound();
    }

    fn id(&self) -> (r: u8) {
        TrieNodeID::Node4.to_u8()
    }

    fn walk(&self, chr: u8) -> (r: Option<TriePtr>) {
        match find_slot(&self.ptrs, chr) {
            Some(i) => Some(self.ptrs[i]),
            None => None,
        }
    }

    fn load_from_slice(&mut self, bytes: &[u8]) -> (r: Result<usize, Error>) {
        let (_, ptrs_consumed) = match ptrs_from_slice_into(
            TrieNodeID::Node4.to_u8(),
            bytes,
            &mut self.ptrs,
        ) {
            Ok(x) => x,
            Err(e) => {
                return Err(e);
            },
        };
        let remaining = vstd::slice::slice_subrange(bytes, ptrs_consumed, bytes.len());
        assert(remaining@ =~= bytes@.skip(ptrs_consumed as int));
        let path_consumed = match path_from_bytes_slice_into(remaining, &mut self.path) {
            Ok(n) => n,
            Err(e) => {
                return Err(e);
            },
        };
        self.cowptr = None;
        self.patch_depth = 0;
        self.last_patch_source = None;
        assert(self.model() =~= parse_node(TrieNodeID::Node4, bytes@).unwrap().0);
        Ok(ptrs_consumed + path_consumed)
    }

    fn insert(&mut self, ptr: &TriePtr) -> (r: bool) {
        if find_slot(&self.ptrs, ptr.chr()).is_some() {
            return false;
        }
        match find_empty(&self.ptrs) {
            Some(i) => {
                self.ptrs[i] = *ptr;
                assert(self.model() =~= old(self).model().inserted(*ptr).unwrap());
                true
            },
            None => false,
        }
    }

    fn replace(&mut self, ptr: &TriePtr) -> (r: bool) {
        match find_slot(&self.ptrs, ptr.chr()) {
            Some(i) => {
                self.ptrs[i] = *ptr;
                assert(self.model() =~= old(self).model().replaced(*ptr).unwrap());
                true
            },
            None => false,
        }
    }

    fn ptrs(&self) -> (r: &[TriePtr]) {
        &self.ptrs
    }

    fn path(&self) -> (r: &NodePath) {
        &self.path
    }

    fn get_cow_ptr(&self) -> (r: Option<&TrieCowPtr>) {
        self.cowptr.as_ref()
    }

    fn set_cow_ptr(&mut self, cowptr: TrieCowPtr) {
        self.cowptr = Some(cowptr);
    }

    fn write_bytes(&self, w: &mut Vec<u8>) {
        w.push(self.id());
        write_ptrs_to_bytes(&self.ptrs, w);
        write_path_to_bytes(self.path.as_slice(), w);
        assert(w@ =~= old(w)@ + self.model().bytes());
    }

    fn write_bytes_compressed(&self, w: &mut Vec<u8>) {
        w.push(set_compressed(self.id()));
        write_node_ptrs(TrieNodeID::Node4, &self.ptrs, w);
        write_path_to_bytes(self.path.as_slice(), w);
        assert(w@ =~= old(w)@ + self.model().bytes_compressed());
    }

    fn byte_len(&self) -> (r: usize) {
        proof {
            lemma_list_lengths(self.ptrs@);
        }
        get_ptrs_byte_len(&self.ptrs) + get_path_byte_len(&self.path)
    }

    fn byte_len_compressed(&self) -> (r: usize) {
        proof {
            lemma_list_lengths(self.ptrs@);
        }
        get_ptrs_byte_len_compressed(self.id(), &self.ptrs) + get_path_byte_len(&self.path)
    }
}

impl TrieNode for TrieNode16 {
    open spec fn model(&self) -> NodeModel {
        NodeModel {
            kind: TrieNodeID::Node16,
            path: self.path@,
            ptrs: self.ptrs@,
            indexes: Seq::empty(),
            data: Seq::empty(),
        }
    }

    open spec fn meta(&self) -> TrieNodeTransientMeta {
        TrieNodeTransientMeta {
            cowptr: self.cowptr,
            patch_depth: self.patch_depth,
            last_patch_source: self.last_patch_source,
        }
    }

    open spec fn kind() -> TrieNodeID {
        TrieNodeID::Node16
    }

    fn shape(&self) {
        self.path.bound();
    }

    fn id(&self) -> (r: u8) {
        TrieNodeID::Node16.to_u8()
    }

    fn walk(&self, chr: u8) -> (r: Option<TriePtr>) {
        match find_slot(&self.ptrs, chr) {
            Some(i) => Some(self.ptrs[i]),
            None => None,
        }
    }

    fn load_from_slice(&mut self, bytes: &[u8]) -> (r: Result<usize, Error>) {
        let (_, ptrs_consumed) = match ptrs_from_slice_into(
            TrieNodeID::Node16.to_u8(),
            bytes,
            &mut self.ptrs,
        ) {
            Ok(x) => x,
            Err(e) => {
                return Err(e);
            },
        };
        let remaining = vstd::slice::slice_subrange(bytes, ptrs_consumed, bytes.len());
        assert(remaining@ =~= bytes@.skip(ptrs_consumed as int));
        let path_consumed = match path_from_bytes_slice_into(remaining, &mut self.path) {
            Ok(n) => n,
            Err(e) => {
                return Err(e);
            },
        };
        self.cowptr = None;
        self.patch_depth = 0;
        self.last_patch_source = None;
        assert(self.model() =~= parse_node(TrieNodeID::Node16, bytes@).unwrap().0);
        Ok(ptrs_consumed + path_consumed)
    }

    fn insert(&mut self, ptr: &TriePtr) -> (r: bool) {
        if find_slot(&self.ptrs, ptr.chr()).is_some() {
            return false;
        }
        match find_empty(&self.ptrs) {
            Some(i) => {
                self.ptrs[i] = *ptr;
                assert(self.model() =~= old(self).model().inserted(*ptr).unwrap());
                true
            },
            None => false,
        }
    }

    fn replace(&mut self, ptr: &TriePtr) -> (r: bool) {
        match find_slot(&self.ptrs, ptr.chr()) {
            Some(i) => {
                self.ptrs[i] = *ptr;
                assert(self.model() =~= old(self).model().replaced(*ptr).unwrap());
                true
            },
            None => false,
        }
    }

    fn ptrs(&self) -> (r: &[TriePtr]) {
        &self.ptrs
    }

    fn path(&self) -> (r: &NodePath) {
        &self.path
    }

    fn get_cow_ptr(&self) -> (r: Option<&TrieCowPtr>) {
        self.cowptr.as_ref()
    }

    fn set_cow_ptr(&mut self, cowptr: TrieCowPtr) {
        self.cowptr = Some(cowptr);
    }

    fn write_bytes(&self, w: &mut Vec<u8>) {
        w.push(self.id());
        write_ptrs_to_bytes(&self.ptrs, w);
        write_path_to_bytes(self.path.as_slice(), w);
        assert(w@ =~= old(w)@ + self.model().bytes());
    }

    fn write_bytes_compressed(&self, w: &mut Vec<u8>) {
        w.push(set_compressed(self.id()));
        write_node_ptrs(TrieNodeID::Node16, &self.ptrs, w);
        write_path_to_bytes(self.path.as_slice(), w);
        assert(w@ =~= old(w)@ + self.model().bytes_compressed());
    }

    fn byte_len(&self) -> (r: usize) {
        proof {
            lemma_list_lengths(self.ptrs@);
        }
        get_ptrs_byte_len(&self.ptrs) + get_path_byte_len(&self.path)
    }

    fn byte_len_compressed(&self) -> (r: usize) {
        proof {
            lemma_list_lengths(self.ptrs@);
        }
        get_ptrs_byte_len_compressed(self.id(), &self.ptrs) + get_path_byte_len(&self.path)
    }
}

impl TrieNode for TrieNode48 {
    open spec fn model(&self) -> NodeModel {
        NodeModel {
            kind: TrieNodeID::Node48,
            path: self.path@,
            ptrs: self.ptrs@,
            indexes: self.indexes@,
            data: Seq::empty(),
        }
    }

    open spec fn meta(&self) -> TrieNodeTransientMeta {
        TrieNodeTransientMeta {
            cowptr: self.cowptr,
            patch_depth: self.patch_depth,
            last_patch_source: self.last_patch_source,
        }
    }

    open spec fn kind() -> TrieNodeID {
        TrieNodeID::Node48
    }

    fn shape(&self) {
        self.path.bound();
    }

    fn id(&self) -> (r: u8) {
        TrieNodeID::Node48.to_u8()
    }

    fn walk(&self, chr: u8) -> (r: Option<TriePtr>) {
        let idx = self.indexes[chr as usize];
        if idx < 0 || idx >= 48 {
            return None;
        }
        let ptr = self.ptrs[idx as usize];
        if ptr.is_empty() {
            return None;
        }
        Some(ptr)
    }

    fn load_from_slice(&mut self, bytes: &[u8]) -> (r: Result<usize, Error>) {
        let (_, ptrs_consumed) = match ptrs_from_slice_into(
            TrieNodeID::Node48.to_u8(),
            bytes,
            &mut self.ptrs,
        ) {
            Ok(x) => x,
            Err(e) => {
                return Err(e);
            },
        };
        if bytes.len() - ptrs_consumed < 256 {
            return Err(corruption("I/O error reading TrieNode48 indexes"));
        }
        let indexes = read_indexes(bytes, ptrs_consumed);
        let path_offset = ptrs_consumed + 256;
        let remaining = vstd::slice::slice_subrange(bytes, path_offset, bytes.len());
        assert(remaining@ =~= bytes@.skip(path_offset as int));
        let path_consumed = match path_from_bytes_slice_into(remaining, &mut self.path) {
            Ok(n) => n,
            Err(e) => {
                return Err(e);
            },
        };
        match TrieNode48::validate_indexes(&self.ptrs, &indexes) {
            Ok(()) => {},
            Err(e) => {
                return Err(e);
            },
        }
        self.indexes = indexes;
        self.cowptr = None;
        self.patch_depth = 0;
        self.last_patch_source = None;
        assert(self.model() =~= parse_node(TrieNodeID::Node48, bytes@).unwrap().0);
        Ok(path_offset + path_consumed)
    }

    fn insert(&mut self, ptr: &TriePtr) -> (r: bool) {
        let at = self.indexes[ptr.chr() as usize];
        if at >= 0 {
            if !self.ptrs[at as usize].is_empty() {
                return false;
            }
            self.ptrs[at as usize] = *ptr;
            assert(self.model() =~= old(self).model().inserted(*ptr).unwrap());
            return true;
        }
        match find_empty(&self.ptrs) {
            Some(i) => {
                self.indexes[ptr.chr() as usize] = i as i8;
                self.ptrs[i] = *ptr;
                assert(self.model() =~= old(self).model().inserted(*ptr).unwrap());
                true
            },
            None => false,
        }
    }

    fn replace(&mut self, ptr: &TriePtr) -> (r: bool) {
        let i = self.indexes[ptr.chr() as usize];
        if i >= 0 && !self.ptrs[i as usize].is_empty() {
            self.ptrs[i as usize] = *ptr;
            assert(self.model() =~= old(self).model().replaced(*ptr).unwrap());
            true
        } else {
            false
        }
    }

    fn ptrs(&self) -> (r: &[TriePtr]) {
        &self.ptrs
    }

    fn path(&self) -> (r: &NodePath) {
        &self.path
    }

    fn get_cow_ptr(&self) -> (r: Option<&TrieCowPtr>) {
        self.cowptr.as_ref()
    }

    fn set_cow_ptr(&mut self, cowptr: TrieCowPtr) {
        self.cowptr = Some(cowptr);
    }

    fn write_bytes(&self, w: &mut Vec<u8>) {
        w.push(self.id());
        write_ptrs_to_bytes(&self.ptrs, w);
        write_indexes(&self.indexes, w);
        write_path_to_bytes(self.path.as_slice(), w);
        assert(w@ =~= old(w)@ + self.model().bytes());
    }

    fn write_bytes_compressed(&self, w: &mut Vec<u8>) {
        w.push(set_compressed(self.id()));
        write_node_ptrs(TrieNodeID::Node48, &self.ptrs, w);
        write_indexes(&self.indexes, w);
        write_path_to_bytes(self.path.as_slice(), w);
        assert(w@ =~= old(w)@ + self.model().bytes_compressed());
    }

    fn byte_len(&self) -> (r: usize) {
        proof {
            lemma_list_lengths(self.ptrs@);
        }
        get_ptrs_byte_len(&self.ptrs) + 256 + get_path_byte_len(&self.path)
    }

    fn byte_len_compressed(&self) -> (r: usize) {
        proof {
            lemma_list_lengths(self.ptrs@);
        }
        get_ptrs_byte_len_compressed(self.id(), &self.ptrs) + 256 + get_path_byte_len(&self.path)
    }
}

impl TrieNode for TrieNode256 {
    open spec fn model(&self) -> NodeModel {
        NodeModel {
            kind: TrieNodeID::Node256,
            path: self.path@,
            ptrs: self.ptrs@,
            indexes: Seq::empty(),
            data: Seq::empty(),
        }
    }

    open spec fn meta(&self) -> TrieNodeTransientMeta {
        TrieNodeTransientMeta {
            cowptr: self.cowptr,
            patch_depth: self.patch_depth,
            last_patch_source: self.last_patch_source,
        }
    }

    open spec fn kind() -> TrieNodeID {
        TrieNodeID::Node256
    }

    fn shape(&self) {
        self.path.bound();
    }

    fn id(&self) -> (r: u8) {
        TrieNodeID::Node256.to_u8()
    }

    fn walk(&self, chr: u8) -> (r: Option<TriePtr>) {
        let ptr = self.ptrs[chr as usize];
        if ptr.is_empty() {
            return None;
        }
        Some(ptr)
    }

    fn load_from_slice(&mut self, bytes: &[u8]) -> (r: Result<usize, Error>) {
        let (_, ptrs_consumed) = match ptrs_from_slice_into(
            TrieNodeID::Node256.to_u8(),
            bytes,
            &mut self.ptrs,
        ) {
            Ok(x) => x,
            Err(e) => {
                return Err(e);
            },
        };
        let remaining = vstd::slice::slice_subrange(bytes, ptrs_consumed, bytes.len());
        assert(remaining@ =~= bytes@.skip(ptrs_consumed as int));
        let path_consumed = match path_from_bytes_slice_into(remaining, &mut self.path) {
            Ok(n) => n,
            Err(e) => {
                return Err(e);
            },
        };
        self.cowptr = None;
        self.patch_depth = 0;
        self.last_patch_source = None;
        assert(self.model() =~= parse_node(TrieNodeID::Node256, bytes@).unwrap().0);
        Ok(ptrs_consumed + path_consumed)
    }

    fn insert(&mut self, ptr: &TriePtr) -> (r: bool) {
        if !self.ptrs[ptr.chr() as usize].is_empty() {
            return false;
        }
        self.ptrs[ptr.chr() as usize] = *ptr;
        assert(self.model() =~= old(self).model().inserted(*ptr).unwrap());
        true
    }

    fn replace(&mut self, ptr: &TriePtr) -> (r: bool) {
        let c = ptr.chr() as usize;
        if !self.ptrs[c].is_empty() {
            self.ptrs[c] = *ptr;
            assert(self.model() =~= old(self).model().replaced(*ptr).unwrap());
            true
        } else {
            false
        }
    }

    fn ptrs(&self) -> (r: &[TriePtr]) {
        &self.ptrs
    }

    fn path(&self) -> (r: &NodePath) {
        &self.path
    }

    fn get_cow_ptr(&self) -> (r: Option<&TrieCowPtr>) {
        self.cowptr.as_ref()
    }

    fn set_cow_ptr(&mut self, cowptr: TrieCowPtr) {
        self.cowptr = Some(cowptr);
    }

    fn write_bytes(&self, w: &mut Vec<u8>) {
        w.push(self.id());
        write_ptrs_to_bytes(&self.ptrs, w);
        write_path_to_bytes(self.path.as_slice(), w);
        assert(w@ =~= old(w)@ + self.model().bytes());
    }

    fn write_bytes_compressed(&self, w: &mut Vec<u8>) {
        w.push(set_compressed(self.id()));
        write_node_ptrs(TrieNodeID::Node256, &self.ptrs, w);
        write_path_to_bytes(self.path.as_slice(), w);
        assert(w@ =~= old(w)@ + self.model().bytes_compressed());
    }

    fn byte_len(&self) -> (r: usize) {
        proof {
            lemma_list_lengths(self.ptrs@);
        }
        get_ptrs_byte_len(&self.ptrs) + get_path_byte_len(&self.path)
    }

    fn byte_len_compressed(&self) -> (r: usize) {
        proof {
            lemma_list_lengths(self.ptrs@);
        }
        get_ptrs_byte_len_compressed(self.id(), &self.ptrs) + get_path_byte_len(&self.path)
    }
}

impl TrieNode for TrieLeaf {
    open spec fn model(&self) -> NodeModel {
        NodeModel {
            kind: TrieNodeID::Leaf,
            path: self.path@,
            ptrs: Seq::empty(),
            indexes: Seq::empty(),
            data: self.data@,
        }
    }

    open spec fn meta(&self) -> TrieNodeTransientMeta {
        no_meta()
    }

    open spec fn kind() -> TrieNodeID {
        TrieNodeID::Leaf
    }

    fn shape(&self) {
        self.path.bound();
    }

    fn id(&self) -> (r: u8) {
        TrieNodeID::Leaf.to_u8()
    }

    fn walk(&self, _chr: u8) -> (r: Option<TriePtr>) {
        None
    }

    fn load_from_slice(&mut self, bytes: &[u8]) -> (r: Result<usize, Error>) {
        if bytes.len() == 0 {
            return Err(corruption("Leaf: missing node ID byte"));
        }
        if clear_ctrl_bits(bytes[0]) != TrieNodeID::Leaf.to_u8() {
            return Err(
                corruption_of([Piece::Text("Leaf: bad ID 0x"), Piece::Hex(bytes[0])].as_slice()),
            );
        }
        let remaining = vstd::slice::slice_subrange(bytes, 1, bytes.len());
        assert(remaining@ =~= bytes@.skip(1));
        let path_consumed = match path_from_bytes_slice_into(remaining, &mut self.path) {
            Ok(n) => n,
            Err(e) => {
                return Err(e);
            },
        };
        let data_start = 1 + path_consumed;
        if bytes.len() - data_start < 40 {
            return Err(corruption("Leaf: not enough bytes for MARF value"));
        }
        let data_end = data_start + 40;
        let data_bytes = vstd::slice::slice_subrange(bytes, data_start, data_end);
        let data = array40(data_bytes);
        self.data = MARFValue(data);
        assert(data@ =~= bytes@.subrange(data_start as int, data_end as int));
        assert(self.model() =~= parse_node(TrieNodeID::Leaf, bytes@).unwrap().0);
        Ok(data_end)
    }

    fn insert(&mut self, _ptr: &TriePtr) -> (r: bool) {
        false
    }

    fn replace(&mut self, _ptr: &TriePtr) -> (r: bool) {
        false
    }

    fn ptrs(&self) -> (r: &[TriePtr]) {
        let r: &[TriePtr] = &[];
        assert(r@ =~= Seq::empty());
        r
    }

    fn path(&self) -> (r: &NodePath) {
        &self.path
    }

    fn get_cow_ptr(&self) -> (r: Option<&TrieCowPtr>) {
        None
    }

    fn set_cow_ptr(&mut self, _cowptr: TrieCowPtr) {
    }

    fn write_bytes(&self, w: &mut Vec<u8>) {
        w.push(self.id());
        write_path_to_bytes(self.path.as_slice(), w);
        push_all(w, self.data.0.as_slice());
        assert(w@ =~= old(w)@ + self.model().bytes());
    }

    fn write_bytes_compressed(&self, w: &mut Vec<u8>) {
        self.write_bytes(w);
    }

    fn byte_len(&self) -> (r: usize) {
        1 + get_path_byte_len(&self.path) + 40
    }

    fn byte_len_compressed(&self) -> (r: usize) {
        1 + get_path_byte_len(&self.path) + 40
    }
}

/// A node of any kind.
#[derive(Debug, PartialEq)]
pub enum TrieNodeType {
    Node4(TrieNode4),
    Node16(TrieNode16),
    Node48(Box<TrieNode48>),
    Node256(Box<TrieNode256>),
    Leaf(TrieLeaf),
}

impl Clone for TrieNodeType {
    fn clone(&self) -> (r: TrieNodeType)
        ensures
            r == *self,
    {
        match self {
            TrieNodeType::Node4(data) => TrieNodeType::Node4(data.clone()),
            TrieNodeType::Node16(data) => TrieNodeType::Node16(data.clone()),
            TrieNodeType::Node48(data) => TrieNodeType::Node48(Box::new((&**data).clone())),
            TrieNodeType::Node256(data) => TrieNodeType::Node256(Box::new((&**data).clone())),
            TrieNodeType::Leaf(data) => TrieNodeType::Leaf(*data),
        }
    }
}

impl TrieNodeType {
    /// The node, apart from its layout in memory.
    pub open spec fn model(&self) -> NodeModel {
        match *self {
            TrieNodeType::Node4(data) => data.model(),
            TrieNodeType::Node16(data) => data.model(),
            TrieNodeType::Node48(data) => data.model(),
            TrieNodeType::Node256(data) => data.model(),
            TrieNodeType::Leaf(data) => data.model(),
        }
    }

    /// Its transient state.
    pub open spec fn meta(&self) -> TrieNodeTransientMeta {
        match *self {
            TrieNodeType::Node4(data) => data.meta(),
            TrieNodeType::Node16(data) => data.meta(),
            TrieNodeType::Node48(data) => data.meta(),
            TrieNodeType::Node256(data) => data.meta(),
            TrieNodeType::Leaf(data) => data.meta(),
        }
    }

    /// The parts of a node are those that its kind calls for.
    pub(crate) fn shape(&self)
        ensures
            self.model().shaped(),
    {
        match self {
            TrieNodeType::Node4(data) => data.shape(),
            TrieNodeType::Node16(data) => data.shape(),
            TrieNodeType::Node48(data) => data.shape(),
            TrieNodeType::Node256(data) => data.shape(),
            TrieNodeType::Leaf(data) => data.shape(),
        }
    }

    pub fn is_leaf(&self) -> (r: bool)
        ensures
            r == (self.model().kind is Leaf),
    {
        matches!(self, TrieNodeType::Leaf(_))
    }

    pub fn is_node4(&self) -> (r: bool)
        ensures
            r == (self.model().kind is Node4),
    {
        matches!(self, TrieNodeType::Node4(_))
    }

    pub fn is_node16(&self) -> (r: bool)
        ensures
            r == (self.model().kind is Node16),
    {
        matches!(self, TrieNodeType::Node16(_))
    }

    pub fn is_node48(&self) -> (r: bool)
        ensures
            r == (self.model().kind is Node48),
    {
        matches!(self, TrieNodeType::Node48(_))
    }

    pub fn is_node256(&self) -> (r: bool)
        ensures
            r == (self.model().kind is Node256),
    {
        matches!(self, TrieNodeType::Node256(_))
    }

    /// Node ID for encoding/decoding
    pub fn id(&self) -> (r: u8)
        ensures
            r == self.model().kind.spec_to_u8(),
    {
        match self {
            TrieNodeType::Node4(data) => data.id(),
            TrieNodeType::Node16(data) => data.id(),
            TrieNodeType::Node48(data) => data.id(),
            TrieNodeType::Node256(data) => data.id(),
            TrieNodeType::Leaf(data) => data.id(),
        }
    }

    /// Follow a path character to a child pointer
    pub fn walk(&self, chr: u8) -> (r: Option<TriePtr>)
        ensures
            r == self.model().child(chr),
    {
        match self {
            TrieNodeType::Node4(data) => data.walk(chr),
            TrieNodeType::Node16(data) => data.walk(chr),
            TrieNodeType::Node48(data) => data.walk(chr),
            TrieNodeType::Node256(data) => data.walk(chr),
            TrieNodeType::Leaf(data) => data.walk(chr),
        }
    }

    /// Append this node, its pointers uncompressed.
    pub fn write_bytes(&self, w: &mut Vec<u8>)
        ensures
            final(w)@ == old(w)@ + self.model().bytes(),
    {
        match self {
            TrieNodeType::Node4(data) => data.write_bytes(w),
            TrieNodeType::Node16(data) => data.write_bytes(w),
            TrieNodeType::Node48(data) => data.write_bytes(w),
            TrieNodeType::Node256(data) => data.write_bytes(w),
            TrieNodeType::Leaf(data) => data.write_bytes(w),
        }
    }

    /// Append this node, its pointers compressed.
    pub fn write_bytes_compressed(&self, w: &mut Vec<u8>)
        ensures
            final(w)@ == old(w)@ + self.model().bytes_compressed(),
    {
        match self {
            TrieNodeType::Node4(data) => data.write_bytes_compressed(w),
            TrieNodeType::Node16(data) => data.write_bytes_compressed(w),
            TrieNodeType::Node48(data) => data.write_bytes_compressed(w),
            TrieNodeType::Node256(data) => data.write_bytes_compressed(w),
            TrieNodeType::Leaf(data) => data.write_bytes_compressed(w),
        }
    }

    /// Calculate how many bytes this node will take to encode.
    pub fn byte_len(&self) -> (r: usize)
        ensures
            r == self.model().bytes().len(),
    {
        match self {
            TrieNodeType::Node4(data) => data.byte_len(),
            TrieNodeType::Node16(data) => data.byte_len(),
            TrieNodeType::Node48(data) => data.byte_len(),
            TrieNodeType::Node256(data) => data.byte_len(),
            TrieNodeType::Leaf(data) => data.byte_len(),
        }
    }

    /// Calculate how many bytes this node will take to encode, compressed.
    pub fn byte_len_compressed(&self) -> (r: usize)
        ensures
            r == self.model().bytes_compressed().len(),
    {
        match self {
            TrieNodeType::Node4(data) => data.byte_len_compressed(),
            TrieNodeType::Node16(data) => data.byte_len_compressed(),
            TrieNodeType::Node48(data) => data.byte_len_compressed(),
            TrieNodeType::Node256(data) => data.byte_len_compressed(),
            TrieNodeType::Leaf(data) => data.byte_len_compressed(),
        }
    }

    /// Insert a child. Returns false where there is one for the path character of `ptr` already,
    /// or no room; the node is then as it was.
    pub fn insert(&mut self, ptr: &TriePtr) -> (r: bool)
        requires
            !(old(self).model().kind is Leaf),
            old(self).model().valid(),
        ensures
            r == (old(self).model().inserted(*ptr) is Some),
            r ==> Some(final(self).model()) == old(self).model().inserted(*ptr),
            !r ==> *final(self) == *old(self),
            final(self).meta() == old(self).meta(),
            final(self).model().valid(),
    {
        match self {
            TrieNodeType::Node4(data) => data.insert(ptr),
            TrieNodeType::Node16(data) => data.insert(ptr),
            TrieNodeType::Node48(data) => data.insert(ptr),
            TrieNodeType::Node256(data) => data.insert(ptr),
            TrieNodeType::Leaf(_) => false,
        }
    }

    /// Replace an existing child. Returns false if the child does not exist.
    pub fn replace(&mut self, ptr: &TriePtr) -> (r: bool)
        requires
            !(old(self).model().kind is Leaf),
            old(self).model().valid(),
        ensures
            r == (old(self).model().replaced(*ptr) is Some),
            r ==> Some(final(self).model()) == old(self).model().replaced(*ptr),
            !r ==> *final(self) == *old(self),
            final(self).meta() == old(self).meta(),
            final(self).model().valid(),
    {
        match self {
            TrieNodeType::Node4(data) => data.replace(ptr),
            TrieNodeType::Node16(data) => data.replace(ptr),
            TrieNodeType::Node48(data) => data.replace(ptr),
            TrieNodeType::Node256(data) => data.replace(ptr),
            TrieNodeType::Leaf(_) => false,
        }
    }

    /// The child slots.
    pub fn ptrs(&self) -> (r: &[TriePtr])
        ensures
            r@ == self.model().ptrs,
    {
        match self {
            TrieNodeType::Node4(data) => data.ptrs(),
            TrieNodeType::Node16(data) => data.ptrs(),
            TrieNodeType::Node48(data) => data.ptrs(),
            TrieNodeType::Node256(data) => data.ptrs(),
            TrieNodeType::Leaf(data) => data.ptrs(),
        }
    }

    /// The child slots, for update in place. A leaf has none.
    pub fn ptrs_mut(&mut self) -> (r: &mut [TriePtr])
        requires
            !(old(self).model().kind is Leaf),
        ensures
            r@ == old(self).model().ptrs,
            final(r)@.len() == r@.len() ==> final(self).model() == (NodeModel {
                ptrs: final(r)@,
                ..old(self).model()
            }) && final(self).meta() == old(self).meta(),
    {
        match self {
            TrieNodeType::Node4(data) => &mut data.ptrs,
            TrieNodeType::Node16(data) => &mut data.ptrs,
            TrieNodeType::Node48(data) => &mut data.ptrs,
            TrieNodeType::Node256(data) => &mut data.ptrs,
            TrieNodeType::Leaf(_) => &mut [],
        }
    }

    /// The number of child slots.
    pub fn max_ptrs(&self) -> (r: usize)
        ensures
            r == kind_slots(self.model().kind),
    {
        match self {
            TrieNodeType::Node4(_) => 4,
            TrieNodeType::Node16(_) => 16,
            TrieNodeType::Node48(_) => 48,
            TrieNodeType::Node256(_) => 256,
            TrieNodeType::Leaf(_) => 0,
        }
    }

    /// The compressed path.
    pub fn path_bytes(&self) -> (r: &[u8])
        ensures
            r@ == self.model().path,
            r@.len() <= 32,
    {
        match self {
            TrieNodeType::Node4(data) => data.path.as_slice(),
            TrieNodeType::Node16(data) => data.path.as_slice(),
            TrieNodeType::Node48(data) => data.path.as_slice(),
            TrieNodeType::Node256(data) => data.path.as_slice(),
            TrieNodeType::Leaf(data) => data.path.as_slice(),
        }
    }

    /// Set the compressed path.
    pub fn set_path(&mut self, new_path: NodePath)
        ensures
            final(self).model() == (NodeModel { path: new_path@, ..old(self).model() }),
            final(self).meta() == old(self).meta(),
    {
        match self {
            TrieNodeType::Node4(data) => {
                data.path = new_path;
            },
            TrieNodeType::Node16(data) => {
                data.path = new_path;
            },
            TrieNodeType::Node48(data) => {
                data.path = new_path;
            },
            TrieNodeType::Node256(data) => {
                data.path = new_path;
            },
            TrieNodeType::Leaf(data) => {
                data.path = new_path;
            },
        }
    }

    /// Get the ptr to the node we were copied from (on COW)
    pub fn get_cow_ptr(&self) -> (r: Option<&TrieCowPtr>)
        ensures
            match r {
                Some(c) => self.meta().cowptr == Some(*c),
                None => self.meta().cowptr is None,
            },
    {
        match self {
            TrieNodeType::Node4(data) => data.get_cow_ptr(),
            TrieNodeType::Node16(data) => data.get_cow_ptr(),
            TrieNodeType::Node48(data) => data.get_cow_ptr(),
            TrieNodeType::Node256(data) => data.get_cow_ptr(),
            TrieNodeType::Leaf(data) => data.get_cow_ptr(),
        }
    }

    /// Set the ptr to the node we were copied from (on COW). A leaf has none.
    pub fn set_cow_ptr(&mut self, cowptr: TrieCowPtr)
        ensures
            final(self).model() == old(self).model(),
            final(self).meta() == if old(self).model().kind is Leaf {
                no_meta()
            } else {
                TrieNodeTransientMeta { cowptr: Some(cowptr), ..old(self).meta() }
            },
    {
        match self {
            TrieNodeType::Node4(data) => data.set_cow_ptr(cowptr),
            TrieNodeType::Node16(data) => data.set_cow_ptr(cowptr),
            TrieNodeType::Node48(data) => data.set_cow_ptr(cowptr),
            TrieNodeType::Node256(data) => data.set_cow_ptr(cowptr),
            TrieNodeType::Leaf(data) => data.set_cow_ptr(cowptr),
        }
    }

    /// Number of patches applied to rebuild this node.
    pub fn patch_depth(&self) -> (r: usize)
        ensures
            r == self.meta().patch_depth,
    {
        match self {
            TrieNodeType::Node4(data) => data.patch_depth,
            TrieNodeType::Node16(data) => data.patch_depth,
            TrieNodeType::Node48(data) => data.patch_depth,
            TrieNodeType::Node256(data) => data.patch_depth,
            TrieNodeType::Leaf(_) => 0,
        }
    }

    /// The block and pointer of the most recent patch.
    pub fn last_patch_source(&self) -> (r: Option<(u32, TriePtr)>)
        ensures
            r == self.meta().last_patch_source,
    {
        match self {
            TrieNodeType::Node4(data) => data.last_patch_source,
            TrieNodeType::Node16(data) => data.last_patch_source,
            TrieNodeType::Node48(data) => data.last_patch_source,
            TrieNodeType::Node256(data) => data.last_patch_source,
            TrieNodeType::Leaf(_) => None,
        }
    }

    /// Set the number of patches. A leaf has none.
    pub fn set_patch_depth(&mut self, depth: usize)
        ensures
            final(self).model() == old(self).model(),
            final(self).meta() == if old(self).model().kind is Leaf {
                no_meta()
            } else {
                TrieNodeTransientMeta { patch_depth: depth, ..old(self).meta() }
            },
    {
        match self {
            TrieNodeType::Node4(data) => {
                data.patch_depth = depth;
            },
            TrieNodeType::Node16(data) => {
                data.patch_depth = depth;
            },
            TrieNodeType::Node48(data) => {
                data.patch_depth = depth;
            },
            TrieNodeType::Node256(data) => {
                data.patch_depth = depth;
            },
            TrieNodeType::Leaf(_) => {},
        }
    }

    /// Set the most recent patch. A leaf has none.
    pub fn set_last_patch_source(&mut self, source: Option<(u32, TriePtr)>)
        ensures
            final(self).model() == old(self).model(),
            final(self).meta() == if old(self).model().kind is Leaf {
                no_meta()
            } else {
                TrieNodeTransientMeta { last_patch_source: source, ..old(self).meta() }
            },
    {
        match self {
            TrieNodeType::Node4(data) => {
                data.last_patch_source = source;
            },
            TrieNodeType::Node16(data) => {
                data.last_patch_source = source;
            },
            TrieNodeType::Node48(data) => {
                data.last_patch_source = source;
            },
            TrieNodeType::Node256(data) => {
                data.last_patch_source = source;
            },
            TrieNodeType::Leaf(_) => {},
        }
    }
}

impl TrieNode4 {
    /// A node without path and children.
    pub fn empty() -> (r: TrieNode4)
        ensures
            r.model() == empty_node(TrieNodeID::Node4),
            r.meta() == no_meta(),
    {
        let none: [u8; 0] = [];
        let r = TrieNode4::new(&none);
        assert(r.model() =~= empty_node(TrieNodeID::Node4));
        r
    }

    /// Read an encoded instance of this node from bytes, with the number of bytes it takes.
    pub fn from_bytes(bytes: &[u8]) -> (r: Result<(TrieNode4, usize), Error>)
        ensures
            r matches Ok((node, n)) ==> parse_node(TrieNodeID::Node4, bytes@) == Some(
                (node.model(), n as nat),
            ) && node.meta() == no_meta() && node.model().valid(),
            r matches Err(e) ==> e is CorruptionError && parse_node(TrieNodeID::Node4, bytes@) is None,
    {
        let mut node = TrieNode4::empty();
        match node.load_from_slice(bytes) {
            Ok(n) => Ok((node, n)),
            Err(e) => Err(e),
        }
    }

    /// This node as a node of any kind.
    pub fn as_trie_node_type(&self) -> (r: TrieNodeType)
        ensures
            r.model() == self.model(),
            r.meta() == self.meta(),
    {
        TrieNodeType::Node4(self.clone())
    }
}

impl TrieNode16 {
    /// A node without path and children.
    pub fn empty() -> (r: TrieNode16)
        ensures
            r.model() == empty_node(TrieNodeID::Node16),
            r.meta() == no_meta(),
    {
        let none: [u8; 0] = [];
        let r = TrieNode16::new(&none);
        assert(r.model() =~= empty_node(TrieNodeID::Node16));
        r
    }

    /// Read an encoded instance of this node from bytes, with the number of bytes it takes.
    pub fn from_bytes(bytes: &[u8]) -> (r: Result<(TrieNode16, usize), Error>)
        ensures
            r matches Ok((node, n)) ==> parse_node(TrieNodeID::Node16, bytes@) == Some(
                (node.model(), n as nat),
            ) && node.meta() == no_meta() && node.model().valid(),
            r matches Err(e) ==> e is CorruptionError && parse_node(TrieNodeID::Node16, bytes@) is None,
    {
        let mut node = TrieNode16::empty();
        match node.load_from_slice(bytes) {
            Ok(n) => Ok((node, n)),
            Err(e) => Err(e),
        }
    }

    /// This node as a node of any kind.
    pub fn as_trie_node_type(&self) -> (r: TrieNodeType)
        ensures
            r.model() == self.model(),
            r.meta() == self.meta(),
    {
        TrieNodeType::Node16(self.clone())
    }
}

impl TrieNode48 {
    /// A node without path and children.
    pub fn empty() -> (r: TrieNode48)
        ensures
            r.model() == empty_node(TrieNodeID::Node48),
            r.meta() == no_meta(),
    {
        let none: [u8; 0] = [];
        let r = TrieNode48::new(&none);
        assert(r.model() =~= empty_node(TrieNodeID::Node48));
        r
    }

    /// Read an encoded instance of this node from bytes, with the number of bytes it takes.
    pub fn from_bytes(bytes: &[u8]) -> (r: Result<(TrieNode48, usize), Error>)
        ensures
            r matches Ok((node, n)) ==> parse_node(TrieNodeID::Node48, bytes@) == Some(
                (node.model(), n as nat),
            ) && node.meta() == no_meta() && node.model().valid(),
            r matches Err(e) ==> e is CorruptionError && parse_node(TrieNodeID::Node48, bytes@) is None,
    {
        let mut node = TrieNode48::empty();
        match node.load_from_slice(bytes) {
            Ok(n) => Ok((node, n)),
            Err(e) => Err(e),
        }
    }

    /// This node as a node of any kind.
    pub fn as_trie_node_type(&self) -> (r: TrieNodeType)
        ensures
            r.model() == self.model(),
            r.meta() == self.meta(),
    {
        TrieNodeType::Node48(Box::new(self.clone()))
    }
}

impl TrieNode256 {
    /// A node without path and children.
    pub fn empty() -> (r: TrieNode256)
        ensures
            r.model() == empty_node(TrieNodeID::Node256),
            r.meta() == no_meta(),
    {
        let none: [u8; 0] = [];
        let r = TrieNode256::new(&none);
        assert(r.model() =~= empty_node(TrieNodeID::Node256));
        r
    }

    /// Read an encoded instance of this node from bytes, with the number of bytes it takes.
    pub fn from_bytes(bytes: &[u8]) -> (r: Result<(TrieNode256, usize), Error>)
        ensures
            r matches Ok((node, n)) ==> parse_node(TrieNodeID::Node256, bytes@) == Some(
                (node.model(), n as nat),
            ) && node.meta() == no_meta() && node.model().valid(),
            r matches Err(e) ==> e is CorruptionError && parse_node(TrieNodeID::Node256, bytes@) is None,
    {
        let mut node = TrieNode256::empty();
        match node.load_from_slice(bytes) {
            Ok(n) => Ok((node, n)),
            Err(e) => Err(e),
        }
    }

    /// This node as a node of any kind.
    pub fn as_trie_node_type(&self) -> (r: TrieNodeType)
        ensures
            r.model() == self.model(),
            r.meta() == self.meta(),
    {
        TrieNodeType::Node256(Box::new(self.clone()))
    }
}

impl TrieLeaf {
    /// A node without path and children.
    pub fn empty() -> (r: TrieLeaf)
        ensures
            r.model() == empty_node(TrieNodeID::Leaf),
            r.meta() == no_meta(),
    {
        let data: [u8; 40] = [0u8; 40];
        assert(data@ =~= Seq::new(40, |i: int| 0u8));
        let r = TrieLeaf { path: NodePath::empty(), data: MARFValue(data) };
        assert(r.model() =~= empty_node(TrieNodeID::Leaf));
        r
    }

    /// Read an encoded instance of this node from bytes, with the number of bytes it takes.
    pub fn from_bytes(bytes: &[u8]) -> (r: Result<(TrieLeaf, usize), Error>)
        ensures
            r matches Ok((node, n)) ==> parse_node(TrieNodeID::Leaf, bytes@) == Some(
                (node.model(), n as nat),
            ) && node.meta() == no_meta() && node.model().valid(),
            r matches Err(e) ==> e is CorruptionError && parse_node(TrieNodeID::Leaf, bytes@) is None,
    {
        let mut node = TrieLeaf::empty();
        match node.load_from_slice(bytes) {
            Ok(n) => Ok((node, n)),
            Err(e) => Err(e),
        }
    }

    /// This node as a node of any kind.
    pub fn as_trie_node_type(&self) -> (r: TrieNodeType)
        ensures
            r.model() == self.model(),
            r.meta() == self.meta(),
    {
        TrieNodeType::Leaf(*self)
    }
}

impl TrieNodeTransientMeta {
    /// Extract transient metadata from an owned node.
    pub fn from_node(node: &TrieNodeType) -> (m: TrieNodeTransientMeta)
        ensures
            m == node.meta(),
    {
        TrieNodeTransientMeta {
            cowptr: match node.get_cow_ptr() {
                Some(c) => Some(*c),
                None => None,
            },
            patch_depth: node.patch_depth(),
            last_patch_source: node.last_patch_source(),
        }
    }

    /// What applying this state to a node with state `before` leaves: a copy-on-write pointer
    /// that is absent does not overwrite one that is there.
    pub open spec fn applied(self, before: TrieNodeTransientMeta) -> TrieNodeTransientMeta {
        TrieNodeTransientMeta {
            cowptr: if self.cowptr is Some {
                self.cowptr
            } else {
                before.cowptr
            },
            patch_depth: self.patch_depth,
            last_patch_source: self.last_patch_source,
        }
    }

    /// Apply this metadata to an owned node. A leaf carries none.
    pub fn apply_to(self, node: &mut TrieNodeType)
        ensures
            final(node).model() == old(node).model(),
            final(node).meta() == if old(node).model().kind is Leaf {
                no_meta()
            } else {
                self.applied(old(node).meta())
            },
    {
        if let Some(cowptr) = self.cowptr {
            node.set_cow_ptr(cowptr);
        }
        node.set_patch_depth(self.patch_depth);
        node.set_last_patch_source(self.last_patch_source);
    }
}

/// Taking the transient state of a node and applying it to a bare copy gives the state back.
pub proof fn law_meta_round_trip(m: TrieNodeTransientMeta)
    ensures
        m.applied(no_meta()) == m,
{
}

} // verus!
