//! Child pointers and their byte encodings.

use crate::bytes::{
    be32, from_be32, lemma_be32_round_trip, lemma_from_be32_round_trip, push_all, push_be32,
    read_be32,
};
use crate::error::{corruption, corruption_at, Error};
use crate::node_id::{
    clear_backptr, clear_compressed, is_backptr, is_compressed, law_ctrl_bits, set_backptr,
    set_compressed,
};
use crate::text::{number_text, push_number};
use vstd::prelude::*;

verus! {

/// Child pointer
#[derive(Debug, Clone, Copy, PartialEq, Eq, Hash, Structural)]
pub struct TriePtr {
    /// ID of the child. Bit 0x80 is set if the child is a back-pointer (in which case,
    /// `back_block` will be nonzero)
    pub id: u8,
    /// Path character at which this child resides
    pub chr: u8,
    /// Storage-specific pointer to where the child's encoded bytes can be found
    pub ptr: u32,
    /// Pointer back to the block that contains the child, if it's not in this trie
    pub back_block: u32,
}

/// Full size of an encoded [`TriePtr`].
pub const TRIEPTR_SIZE: usize = 10;

/// Size of a compressed [`TriePtr`] that is no back-pointer.
pub const TRIEPTR_SIZE_COMPRESSED: usize = 6;

/// The pointer of an unoccupied slot.
pub open spec fn empty_ptr() -> TriePtr {
    TriePtr { id: 0, chr: 0, ptr: 0, back_block: 0 }
}

/// A pointer in full: id, path character, pointer, back block.
pub open spec fn ptr_bytes(p: TriePtr) -> Seq<u8> {
    seq![p.id, p.chr] + be32(p.ptr) + be32(p.back_block)
}

/// A pointer compressed: the id with the compressed bit, and the back block only where the
/// pointer is a back-pointer.
pub open spec fn ptr_bytes_compressed(p: TriePtr) -> Seq<u8> {
    seq![set_compressed(p.id), p.chr] + be32(p.ptr) + if is_backptr(p.id) {
        be32(p.back_block)
    } else {
        Seq::empty()
    }
}

/// How many bytes a compressed pointer with this id takes.
pub open spec fn spec_compressed_size_for_id(id: u8) -> usize {
    if is_backptr(id) {
        10
    } else {
        6
    }
}

/// The pointer that ten bytes spell.
pub open spec fn parse_ptr(s: Seq<u8>) -> TriePtr {
    TriePtr {
        id: s[0],
        chr: s[1],
        ptr: from_be32(s.subrange(2, 6)),
        back_block: from_be32(s.subrange(6, 10)),
    }
}

/// The compressed pointer at the head of `s`, and how many bytes it takes.
pub open spec fn parse_ptr_compressed(s: Seq<u8>) -> Option<(TriePtr, usize)> {
    if s.len() == 0 {
        None
    } else {
        let id = clear_compressed(s[0]);
        let len = spec_compressed_size_for_id(id);
        if s.len() < len {
            None
        } else {
            Some(
                (
                    TriePtr {
                        id,
                        chr: s[1],
                        ptr: from_be32(s.subrange(2, 6)),
                        back_block: if is_backptr(id) {
                            from_be32(s.subrange(6, 10))
                        } else {
                            0
                        },
                    },
                    len,
                ),
            )
        }
    }
}

/// A pointer that survives compression: the compressed bit is clear, and only back-pointers
/// name a back block.
pub open spec fn ptr_storable(p: TriePtr) -> bool {
    &&& !is_compressed(p.id)
    &&& !is_backptr(p.id) ==> p.back_block == 0
}

/// Writing a pointer in full and reading it back gives the pointer.
pub proof fn law_ptr_round_trip(p: TriePtr, rest: Seq<u8>)
    ensures
        ptr_bytes(p).len() == 10,
        parse_ptr(ptr_bytes(p) + rest) == p,
{
    let s = ptr_bytes(p) + rest;
    lemma_be32_round_trip(p.ptr);
    lemma_be32_round_trip(p.back_block);
    assert(s.subrange(2, 6) =~= be32(p.ptr));
    assert(s.subrange(6, 10) =~= be32(p.back_block));
}

/// Reading ten bytes and writing the pointer gives the bytes.
pub proof fn law_ptr_bytes_round_trip(s: Seq<u8>)
    requires
        s.len() == 10,
    ensures
        ptr_bytes(parse_ptr(s)) == s,
{
    lemma_from_be32_round_trip(s.subrange(2, 6));
    lemma_from_be32_round_trip(s.subrange(6, 10));
    assert(ptr_bytes(parse_ptr(s)) =~= s);
}

/// Compressing a storable pointer and reading it back gives the pointer, whatever follows it,
/// and a compressed pointer is never longer than a full one.
pub proof fn law_ptr_compressed_round_trip(p: TriePtr, rest: Seq<u8>)
    ensures
        ptr_bytes_compressed(p).len() == spec_compressed_size_for_id(p.id),
        ptr_bytes_compressed(p).len() <= ptr_bytes(p).len(),
        ptr_storable(p) ==> parse_ptr_compressed(ptr_bytes_compressed(p) + rest) == Some(
            (p, spec_compressed_size_for_id(p.id)),
        ),
{
    law_ctrl_bits(p.id);
    let s = ptr_bytes_compressed(p) + rest;
    lemma_be32_round_trip(p.ptr);
    lemma_be32_round_trip(p.back_block);
    assert(s.subrange(2, 6) =~= be32(p.ptr));
    if is_backptr(p.id) {
        assert(s.subrange(6, 10) =~= be32(p.back_block));
    }
}

/// Every pointer that the compressed form spells is storable.
pub proof fn law_parsed_ptr_storable(s: Seq<u8>)
    ensures
        parse_ptr_compressed(s) matches Some((p, n)) ==> ptr_storable(p) && n
            == spec_compressed_size_for_id(p.id) && n <= s.len(),
{
    if s.len() > 0 {
        law_ctrl_bits(s[0]);
    }
}

/// The text form of a pointer.
pub open spec fn ptr_text(p: TriePtr) -> Seq<char> {
    "id("@ + number_text(p.id as nat, 10, 0) + ")chr("@ + number_text(p.chr as nat, 16, 2) + ")ptr("@
        + number_text(p.ptr as nat, 10, 0) + ")bblk("@ + number_text(p.back_block as nat, 10, 0)
        + ")"@
}

/// The text forms of the occupied slots, with commas between them.
pub open spec fn ptrs_text(ptrs: Seq<TriePtr>) -> Seq<char>
    decreases ptrs.len(),
{
    if ptrs.len() == 0 {
        Seq::empty()
    } else {
        let front = ptrs_text(ptrs.drop_last());
        if ptrs.last().id == 0 {
            front
        } else if no_ptrs(ptrs.drop_last()) {
            ptr_text(ptrs.last())
        } else {
            front + ","@ + ptr_text(ptrs.last())
        }
    }
}

/// Is every slot unoccupied?
pub open spec fn no_ptrs(ptrs: Seq<TriePtr>) -> bool {
    forall|i: int| 0 <= i < ptrs.len() ==> (#[trigger] ptrs[i]).id == 0
}

fn push_ptr_text(out: &mut String, p: &TriePtr)
    ensures
        final(out)@ == old(out)@ + ptr_text(*p),
{
    out.append("id(");
    push_number(out, p.id as u64, 10, 0);
    out.append(")chr(");
    push_number(out, p.chr as u64, 16, 2);
    out.append(")ptr(");
    push_number(out, p.ptr as u64, 10, 0);
    out.append(")bblk(");
    push_number(out, p.back_block as u64, 10, 0);
    out.append(")");
    assert(out@ =~= old(out)@ + ptr_text(*p));
}

/// The text form of a pointer list: the occupied slots, with commas between them.
pub fn ptrs_fmt(ptrs: &[TriePtr]) -> (s: String)
    ensures
        s@ == ptrs_text(ptrs@),
{
    let mut out = String::new();
    let mut first: bool = true;
    let mut i: usize = 0;
    while i < ptrs.len()
        invariant
            i <= ptrs@.len(),
            out@ == ptrs_text(ptrs@.take(i as int)),
            first == no_ptrs(ptrs@.take(i as int)),
            first ==> out@ == Seq::<char>::empty(),
        decreases ptrs@.len() - i,
    {
        let ghost pre = ptrs@.take(i as int);
        let ghost nxt = ptrs@.take(i + 1);
        assert(nxt.drop_last() =~= pre);
        assert(nxt.last() == ptrs@[i as int]);
        if ptrs[i].id != 0 {
            if !first {
                out.append(",");
            }
            push_ptr_text(&mut out, &ptrs[i]);
            assert(nxt[i as int].id != 0);
            first = false;
            assert(out@ =~= ptrs_text(nxt));
        } else {
            assert(no_ptrs(nxt) == no_ptrs(pre)) by {
                assert(forall|j: int| 0 <= j < pre.len() ==> pre[j] == #[trigger] nxt[j]);
                if no_ptrs(nxt) {
                    assert forall|j: int| 0 <= j < pre.len() implies (#[trigger] pre[j]).id == 0 by {
                        assert(nxt[j].id == 0);
                    }
                }
            }
        }
        i += 1;
    }
    assert(ptrs@.take(i as int) =~= ptrs@);
    out
}

impl Default for TriePtr {
    fn default() -> (p: TriePtr)
        ensures
            p == empty_ptr(),
    {
        TriePtr { id: 0, chr: 0, ptr: 0, back_block: 0 }
    }
}

impl TriePtr {
    /// Is the slot unoccupied?
    pub open spec fn spec_is_empty(&self) -> bool {
        self.id == 0
    }

    pub fn new(id: u8, chr: u8, ptr: u32) -> (p: TriePtr)
        ensures
            p == (TriePtr { id, chr, ptr, back_block: 0 }),
    {
        TriePtr { id, chr, ptr, back_block: 0 }
    }

    /// Create a back-pointer version of a [`TriePtr`]
    pub fn new_backptr(id: u8, chr: u8, ptr: u32, back_block: u32) -> (p: TriePtr)
        ensures
            p == (TriePtr { id: set_backptr(id), chr, ptr, back_block }),
            is_backptr(p.id),
    {
        proof {
            law_ctrl_bits(id);
        }
        TriePtr { id: set_backptr(id), chr, ptr, back_block }
    }

    pub fn id(&self) -> (r: u8)
        ensures
            r == self.id,
    {
        self.id
    }

    /// Is the TriePtr an unoccupied slot?
    #[verifier::when_used_as_spec(spec_is_empty)]
    pub fn is_empty(&self) -> (r: bool)
        ensures
            r == self.is_empty(),
    {
        self.id == 0
    }

    pub fn chr(&self) -> (r: u8)
        ensures
            r == self.chr,
    {
        self.chr
    }

    pub fn ptr(&self) -> (r: u32)
        ensures
            r == self.ptr,
    {
        self.ptr
    }

    pub fn back_block(&self) -> (r: u32)
        ensures
            r == self.back_block,
    {
        self.back_block
    }

    /// The pointer as it stands in the block that it points back to.
    pub open spec fn spec_from_backptr(self) -> TriePtr {
        TriePtr { id: clear_backptr(self.id), chr: self.chr, ptr: self.ptr, back_block: 0 }
    }

    /// The pointer as it stands in the block that it points back to.
    pub fn from_backptr(&self) -> (p: TriePtr)
        ensures
            p == self.spec_from_backptr(),
            !is_backptr(p.id),
    {
        proof {
            law_ctrl_bits(self.id);
        }
        TriePtr { id: clear_backptr(self.id), chr: self.chr, ptr: self.ptr, back_block: 0 }
    }

    /// Append the pointer in full.
    pub fn write_bytes(&self, w: &mut Vec<u8>)
        ensures
            final(w)@ == old(w)@ + ptr_bytes(*self),
    {
        w.push(self.id);
        w.push(self.chr);
        push_be32(w, self.ptr);
        push_be32(w, self.back_block);
        assert(w@ =~= old(w)@ + ptr_bytes(*self));
    }

    /// Append the pointer, compressed.
    pub fn write_bytes_compressed(&self, w: &mut Vec<u8>)
        ensures
            final(w)@ == old(w)@ + ptr_bytes_compressed(*self),
    {
        w.push(set_compressed(self.id));
        w.push(self.chr);
        push_be32(w, self.ptr);
        if is_backptr(self.id) {
            push_be32(w, self.back_block);
        }
        assert(w@ =~= old(w)@ + ptr_bytes_compressed(*self));
    }

    /// The pointer at the head of `bytes`, written in full.
    pub fn from_bytes(bytes: &[u8]) -> (p: TriePtr)
        requires
            bytes@.len() >= TRIEPTR_SIZE,
        ensures
            p == parse_ptr(bytes@),
    {
        TriePtr {
            id: bytes[0],
            chr: bytes[1],
            ptr: read_be32(bytes, 2),
            back_block: read_be32(bytes, 6),
        }
    }

    /// Load a [`TriePtr`] from a slice of bytes, assuming that they represent a compressed
    /// `TriePtr`, with the number of bytes it takes.
    ///
    /// A `TriePtr` that is compressed will not have a stored `back_block` field if the node ID
    /// does not have the backptr bit set.
    pub fn from_slice_compressed(slice: &[u8]) -> (r: Result<(TriePtr, usize), Error>)
        ensures
            r matches Ok(x) ==> parse_ptr_compressed(slice@) == Some(x),
            r matches Err(e) ==> e is CorruptionError && parse_ptr_compressed(slice@) is None,
    {
        if slice.len() == 0 {
            return Err(corruption("Failed to read compressed ptr ID"));
        }
        let id = clear_compressed(slice[0]);
        let ptr_len = TriePtr::compressed_size_for_id(id);
        if slice.len() < ptr_len {
            return Err(
                corruption_at("Failed to read ", ptr_len as u64, " bytes of compressed ptr"),
            );
        }
        let back_block: u32 = if is_backptr(id) {
            read_be32(slice, 6)
        } else {
            0
        };
        Ok((TriePtr { id, chr: slice[1], ptr: read_be32(slice, 2), back_block }, ptr_len))
    }

    /// Load the compressed pointer at `*at` and move `*at` past it. Where the bytes end too
    /// early, `*at` does not move.
    pub fn read_bytes_compressed(bytes: &[u8], at: &mut usize) -> (r: Result<TriePtr, Error>)
        requires
            *old(at) <= bytes@.len(),
        ensures
            *final(at) <= bytes@.len(),
            r matches Ok(p) ==> parse_ptr_compressed(bytes@.skip(*old(at) as int)) == Some(
                (p, (*final(at) - *old(at)) as usize),
            ) && *final(at) > *old(at),
            r matches Err(e) ==> e is CorruptionError && parse_ptr_compressed(
                bytes@.skip(*old(at) as int),
            ) is None && *final(at) == *old(at),
    {
        let rest = vstd::slice::slice_subrange(bytes, *at, bytes.len());
        assert(rest@ =~= bytes@.skip(*at as int));
        let (p, n) = TriePtr::from_slice_compressed(rest)?;
        *at = *at + n;
        Ok(p)
    }

    /// Size of this TriePtr on disk, if compression is to be used.
    pub fn compressed_size(&self) -> (r: usize)
        ensures
            r == spec_compressed_size_for_id(self.id),
            r == ptr_bytes_compressed(*self).len(),
    {
        proof {
            law_ptr_compressed_round_trip(*self, Seq::empty());
        }
        TriePtr::compressed_size_for_id(self.id)
    }

    /// The size, in bytes, that a pointer with this id occupies on disk, taking compression
    /// into account: back-pointers use the full size, the others the smaller one.
    pub fn compressed_size_for_id(node_id: u8) -> (r: usize)
        ensures
            r == spec_compressed_size_for_id(node_id),
    {
        if !is_backptr(node_id) {
            TRIEPTR_SIZE_COMPRESSED
        } else {
            TRIEPTR_SIZE
        }
    }

    /// The parts of a child pointer that are relevant for consensus: its ID, path character,
    /// and referred-to block hash. `back_hash` is the hash of the block that `back_block`
    /// names; it is written only where the pointer is a back-pointer.
    pub fn write_consensus_bytes(&self, back_hash: &[u8; 32], w: &mut Vec<u8>)
        ensures
            final(w)@ == old(w)@ + ptr_consensus_bytes(*self, back_hash@),
    {
        w.push(self.id);
        w.push(self.chr);
        if is_backptr(self.id) {
            push_all(w, back_hash.as_slice());
        } else {
            let zeros: [u8; 32] = [0u8; 32];
            push_all(w, zeros.as_slice());
            assert(zeros@ =~= Seq::new(32, |i: int| 0u8));
        }
        assert(w@ =~= old(w)@ + ptr_consensus_bytes(*self, back_hash@));
    }
}

/// The consensus encoding of a pointer: id, path character, and the hash of the block that it
/// points back to, or zeros.
pub open spec fn ptr_consensus_bytes(p: TriePtr, back_hash: Seq<u8>) -> Seq<u8> {
    seq![p.id, p.chr] + if is_backptr(p.id) {
        back_hash
    } else {
        Seq::new(32, |i: int| 0u8)
    }
}

} // verus!
