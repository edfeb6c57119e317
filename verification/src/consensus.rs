//! The consensus encoding of nodes, and the hashes that are computed from it.

use crate::bits::{path_bytes, write_path_to_bytes};
use crate::bytes::push_all;
use crate::hash::{sha512_256, TrieHash};
use crate::model::NodeModel;
use crate::node::{TrieNode, TrieNodeType};
use crate::node_id::is_backptr;
use crate::node_ref::TrieNodeRef;
use crate::ptr::{ptr_consensus_bytes, TriePtr};
use crate::value::TrieLeaf;
use std::collections::HashMap;
use vstd::prelude::*;

verus! {

broadcast use vstd::std_specs::hash::group_hash_axioms;

/// The hashes of the blocks that back-pointers name.
pub struct BlockHashes {
    pub hashes: HashMap<u32, [u8; 32]>,
}

impl View for BlockHashes {
    type V = Map<u32, [u8; 32]>;

    open spec fn view(&self) -> Map<u32, [u8; 32]> {
        self.hashes@
    }
}

impl BlockHashes {
    pub fn new() -> (r: BlockHashes)
        ensures
            r@ == Map::<u32, [u8; 32]>::empty(),
    {
        BlockHashes { hashes: HashMap::new() }
    }

    /// Record the hash of a block.
    pub fn insert(&mut self, id: u32, hash: [u8; 32])
        ensures
            final(self)@ == old(self)@.insert(id, hash),
    {
        let _ = self.hashes.insert(id, hash);
    }

    /// The hash of a block, if it is known.
    pub fn get_block_hash(&self, id: u32) -> (r: Option<[u8; 32]>)
        ensures
            r == if self@.dom().contains(id) {
                Some(self@[id])
            } else {
                None
            },
    {
        match self.hashes.get(&id) {
            Some(h) => Some(*h),
            None => None,
        }
    }
}

/// Is the block of every back-pointer known?
pub open spec fn blocks_known(ptrs: Seq<TriePtr>, blocks: Map<u32, [u8; 32]>) -> bool {
    forall|i: int|
        0 <= i < ptrs.len() && is_backptr((#[trigger] ptrs[i]).id) ==> blocks.dom().contains(
            ptrs[i].back_block,
        )
}

/// The consensus encoding of the slots.
pub open spec fn ptrs_consensus(ptrs: Seq<TriePtr>, blocks: Map<u32, [u8; 32]>) -> Seq<u8>
    decreases ptrs.len(),
{
    if ptrs.len() == 0 {
        Seq::empty()
    } else {
        ptrs_consensus(ptrs.drop_last(), blocks) + ptr_consensus_bytes(
            ptrs.last(),
            blocks[ptrs.last().back_block]@,
        )
    }
}

/// The consensus encoding of a node: its kind, its slots without storage details, its path.
pub open spec fn consensus_bytes(m: NodeModel, blocks: Map<u32, [u8; 32]>) -> Seq<u8> {
    seq![m.kind.spec_to_u8()] + ptrs_consensus(m.ptrs, blocks) + path_bytes(m.path)
}

/// Append the consensus encoding of the slots.
fn ptrs_consensus_hash(ptrs: &[TriePtr], map: &BlockHashes, w: &mut Vec<u8>)
    requires
        blocks_known(ptrs@, map@),
    ensures
        final(w)@ == old(w)@ + ptrs_consensus(ptrs@, map@),
{
    let ghost start = w@;
    let mut i: usize = 0;
    assert(w@ =~= start + ptrs_consensus(ptrs@.take(0), map@));
    while i < ptrs.len()
        invariant
            i <= ptrs@.len(),
            blocks_known(ptrs@, map@),
            w@ == start + ptrs_consensus(ptrs@.take(i as int), map@),
        decreases ptrs@.len() - i,
    {
        let ghost nxt = ptrs@.take(i + 1);
        assert(nxt.drop_last() =~= ptrs@.take(i as int));
        let p = ptrs[i];
        assert(is_backptr(ptrs@[i as int].id) ==> map@.dom().contains(p.back_block));
        let hash: [u8; 32] = match map.get_block_hash(p.back_block()) {
            Some(h) => h,
            None => [0u8; 32],
        };
        p.write_consensus_bytes(&hash, w);
        assert(w@ =~= start + ptrs_consensus(nxt, map@));
        i += 1;
    }
    assert(ptrs@.take(i as int) =~= ptrs@);
}

/// Append the consensus encoding of a node. The block of every back-pointer must be known.
pub fn write_consensus_bytes(node: &TrieNodeType, map: &BlockHashes, w: &mut Vec<u8>)
    requires
        blocks_known(node.model().ptrs, map@),
    ensures
        final(w)@ == old(w)@ + consensus_bytes(node.model(), map@),
{
    w.push(node.id());
    ptrs_consensus_hash(node.ptrs(), map, w);
    write_path_to_bytes(node.path_bytes(), w);
    assert(w@ =~= old(w)@ + consensus_bytes(node.model(), map@));
}

/// The consensus encoding of a node. The block of every back-pointer must be known.
pub fn to_consensus_bytes(node: &TrieNodeType, map: &BlockHashes) -> (r: Vec<u8>)
    requires
        blocks_known(node.model().ptrs, map@),
    ensures
        r@ == consensus_bytes(node.model(), map@),
{
    let mut r: Vec<u8> = Vec::new();
    write_consensus_bytes(node, map, &mut r);
    assert(r@ =~= consensus_bytes(node.model(), map@));
    r
}

/// As [`write_consensus_bytes`], for a borrowed node with a path of at most 32 bytes.
pub fn write_consensus_bytes_ref(node: &TrieNodeRef<'_>, map: &BlockHashes, w: &mut Vec<u8>)
    requires
        blocks_known(node.model().ptrs, map@),
        node.model().path.len() <= 32,
    ensures
        final(w)@ == old(w)@ + consensus_bytes(node.model(), map@),
{
    w.push(node.id());
    ptrs_consensus_hash(node.ptrs(), map, w);
    write_path_to_bytes(node.path_bytes(), w);
    assert(w@ =~= old(w)@ + consensus_bytes(node.model(), map@));
}

/// The hash of a leaf: the digest of its stored form.
pub fn get_leaf_hash(leaf: &TrieLeaf) -> (h: TrieHash)
    ensures
        h@ == sha512_256(leaf.model().bytes()),
{
    let mut buf: Vec<u8> = Vec::new();
    leaf.write_bytes(&mut buf);
    assert(buf@ =~= leaf.model().bytes());
    TrieHash::from_data(buf.as_slice())
}

/// The hashes, one after the other.
pub open spec fn hashes_flat(hashes: Seq<TrieHash>) -> Seq<u8>
    decreases hashes.len(),
{
    if hashes.len() == 0 {
        Seq::empty()
    } else {
        hashes_flat(hashes.drop_last()) + hashes.last()@
    }
}

/// The hash of a node: the digest of its consensus encoding followed by the hashes of its
/// children. The block of every back-pointer must be known.
pub fn get_node_hash(node: &TrieNodeType, child_hashes: &[TrieHash], map: &BlockHashes) -> (h:
    TrieHash)
    requires
        blocks_known(node.model().ptrs, map@),
    ensures
        h@ == sha512_256(consensus_bytes(node.model(), map@) + hashes_flat(child_hashes@)),
{
    let mut buf: Vec<u8> = Vec::new();
    write_consensus_bytes(node, map, &mut buf);
    let ghost head = buf@;
    let mut i: usize = 0;
    assert(buf@ =~= head + hashes_flat(child_hashes@.take(0)));
    while i < child_hashes.len()
        invariant
            i <= child_hashes@.len(),
            buf@ == head + hashes_flat(child_hashes@.take(i as int)),
        decreases child_hashes@.len() - i,
    {
        let ghost nxt = child_hashes@.take(i + 1);
        assert(nxt.drop_last() =~= child_hashes@.take(i as int));
        push_all(&mut buf, child_hashes[i].as_bytes().as_slice());
        assert(buf@ =~= head + hashes_flat(nxt));
        i += 1;
    }
    assert(child_hashes@.take(i as int) =~= child_hashes@);
    assert(head =~= consensus_bytes(node.model(), map@));
    TrieHash::from_data(buf.as_slice())
}

proof fn lemma_ptrs_consensus_storage(a: Seq<TriePtr>, b: Seq<TriePtr>, blocks: Map<u32, [u8; 32]>)
    requires
        a.len() == b.len(),
        forall|i: int|
            0 <= i < a.len() ==> (#[trigger] a[i]).id == b[i].id && a[i].chr == b[i].chr && (
            is_backptr(a[i].id) ==> a[i].back_block == b[i].back_block),
    ensures
        ptrs_consensus(a, blocks) == ptrs_consensus(b, blocks),
    decreases a.len(),
{
    if a.len() > 0 {
        assert forall|i: int| 0 <= i < a.drop_last().len() implies (#[trigger] a.drop_last()[i]).id
            == b.drop_last()[i].id && a.drop_last()[i].chr == b.drop_last()[i].chr && (is_backptr(
            a.drop_last()[i].id,
        ) ==> a.drop_last()[i].back_block == b.drop_last()[i].back_block) by {
            assert(a[i].id == b[i].id);
        }
        lemma_ptrs_consensus_storage(a.drop_last(), b.drop_last(), blocks);
        assert(a[a.len() - 1].id == b[a.len() - 1].id);
    }
}

/// Where and how a node is stored does not matter for consensus: two nodes that agree in kind,
/// path, and each slot's id, character and referred-to block have the same encoding.
pub proof fn law_consensus_ignores_storage(a: NodeModel, b: NodeModel, blocks: Map<u32, [u8; 32]>)
    requires
        a.kind == b.kind,
        a.path == b.path,
        a.ptrs.len() == b.ptrs.len(),
        forall|i: int|
            0 <= i < a.ptrs.len() ==> (#[trigger] a.ptrs[i]).id == b.ptrs[i].id && a.ptrs[i].chr
                == b.ptrs[i].chr && (is_backptr(a.ptrs[i].id) ==> a.ptrs[i].back_block
                == b.ptrs[i].back_block),
    ensures
        consensus_bytes(a, blocks) == consensus_bytes(b, blocks),
{
    lemma_ptrs_consensus_storage(a.ptrs, b.ptrs, blocks);
}

/// Do the 34 bytes of `s` from `at` on stand for this slot: its id, its character, and the hash of
/// the block that it points back to, or zeros?
pub open spec fn slot_at(s: Seq<u8>, at: int, p: TriePtr, blocks: Map<u32, [u8; 32]>) -> bool {
    &&& at + 34 <= s.len()
    &&& s[at] == p.id
    &&& s[at + 1] == p.chr
    &&& s.subrange(at + 2, at + 34) == if is_backptr(p.id) {
        blocks[p.back_block]@
    } else {
        Seq::new(32, |i: int| 0u8)
    }
}

proof fn lemma_ptrs_consensus_len(ptrs: Seq<TriePtr>, blocks: Map<u32, [u8; 32]>)
    ensures
        ptrs_consensus(ptrs, blocks).len() == 34 * ptrs.len(),
    decreases ptrs.len(),
{
    if ptrs.len() > 0 {
        lemma_ptrs_consensus_len(ptrs.drop_last(), blocks);
    }
}

/// The consensus encoding of slots has 34 bytes for every slot, in order, each slot's own.
pub proof fn law_every_slot_is_encoded(ptrs: Seq<TriePtr>, blocks: Map<u32, [u8; 32]>, i: int)
    requires
        0 <= i < ptrs.len(),
    ensures
        ptrs_consensus(ptrs, blocks).len() == 34 * ptrs.len(),
        slot_at(ptrs_consensus(ptrs, blocks), 34 * i, ptrs[i], blocks),
    decreases ptrs.len(),
{
    lemma_ptrs_consensus_len(ptrs, blocks);
    let front = ptrs.drop_last();
    lemma_ptrs_consensus_len(front, blocks);
    let s = ptrs_consensus(ptrs, blocks);
    let a = ptrs_consensus(front, blocks);
    if i < front.len() {
        law_every_slot_is_encoded(front, blocks, i);
        assert(front[i] == ptrs[i]);
        assert(s.subrange(34 * i + 2, 34 * i + 34) =~= a.subrange(34 * i + 2, 34 * i + 34));
    } else {
        let p = ptrs[i];
        assert(s.subrange(34 * i + 2, 34 * i + 34) =~= if is_backptr(p.id) {
            blocks[p.back_block]@
        } else {
            Seq::new(32, |i: int| 0u8)
        });
    }
}

/// The consensus encoding of a node is its kind, 34 bytes for each of all its slots, occupied or
/// not, and its path behind the length of it.
pub proof fn law_consensus_layout(m: NodeModel, blocks: Map<u32, [u8; 32]>)
    ensures
        ({
            let s = consensus_bytes(m, blocks);
            let n = m.ptrs.len() as int;
            &&& s.len() == 2 + 34 * n + m.path.len()
            &&& s[0] == m.kind.spec_to_u8()
            &&& forall|i: int| 0 <= i < n ==> slot_at(s, 1 + 34 * i, #[trigger] m.ptrs[i], blocks)
            &&& s[1 + 34 * n] == m.path.len() as u8
            &&& s.skip(2 + 34 * n) == m.path
        }),
{
    let s = consensus_bytes(m, blocks);
    let n = m.ptrs.len() as int;
    let a = ptrs_consensus(m.ptrs, blocks);
    lemma_ptrs_consensus_len(m.ptrs, blocks);
    assert forall|i: int| 0 <= i < n implies slot_at(s, 1 + 34 * i, #[trigger] m.ptrs[i], blocks) by {
        law_every_slot_is_encoded(m.ptrs, blocks, i);
        assert(s.subrange(1 + 34 * i + 2, 1 + 34 * i + 34) =~= a.subrange(
            34 * i + 2,
            34 * i + 34,
        ));
    }
    assert(s.skip(2 + 34 * n) =~= m.path);
}

/// Equal encodings, equal nodes as far as consensus goes: two nodes whose encodings are the same
/// agree in kind, and where that kind has the same number of slots in both, in path and in the
/// identifier, character and referred-to block of every slot.
pub proof fn law_consensus_tells_nodes_apart(a: NodeModel, b: NodeModel, blocks: Map<u32, [u8; 32]>)
    requires
        a.ptrs.len() == b.ptrs.len(),
        consensus_bytes(a, blocks) == consensus_bytes(b, blocks),
    ensures
        a.kind == b.kind,
        a.path == b.path,
        forall|i: int|
            0 <= i < a.ptrs.len() ==> (#[trigger] a.ptrs[i]).id == b.ptrs[i].id && a.ptrs[i].chr
                == b.ptrs[i].chr && (is_backptr(a.ptrs[i].id) ==> blocks[a.ptrs[i].back_block]@
                == blocks[b.ptrs[i].back_block]@),
{
    law_consensus_layout(a, blocks);
    law_consensus_layout(b, blocks);
    crate::node_id::law_node_id_round_trip(a.kind, 0);
    crate::node_id::law_node_id_round_trip(b.kind, 0);
    let s = consensus_bytes(a, blocks);
    assert forall|i: int| 0 <= i < a.ptrs.len() implies (#[trigger] a.ptrs[i]).id == b.ptrs[i].id
        && a.ptrs[i].chr == b.ptrs[i].chr && (is_backptr(a.ptrs[i].id)
        ==> blocks[a.ptrs[i].back_block]@ == blocks[b.ptrs[i].back_block]@) by {
        assert(slot_at(s, 1 + 34 * i, a.ptrs[i], blocks));
        assert(slot_at(s, 1 + 34 * i, b.ptrs[i], blocks));
    }
}

/// The hashes of the children stand one after the other, each in its 32 bytes, and nothing else.
pub proof fn law_every_child_hash_is_hashed(hashes: Seq<TrieHash>, i: int)
    requires
        0 <= i < hashes.len(),
    ensures
        hashes_flat(hashes).len() == 32 * hashes.len(),
        hashes_flat(hashes).subrange(32 * i, 32 * i + 32) == hashes[i]@,
    decreases hashes.len(),
{
    let front = hashes.drop_last();
    let s = hashes_flat(hashes);
    let a = hashes_flat(front);
    if front.len() > 0 {
        law_every_child_hash_is_hashed(
            front,
            if i < front.len() {
                i
            } else {
                0
            },
        );
    }
    if i < front.len() {
        assert(s.subrange(32 * i, 32 * i + 32) =~= a.subrange(32 * i, 32 * i + 32));
    } else {
        assert(s.subrange(32 * i, 32 * i + 32) =~= hashes[i]@);
    }
}

/// What a node's hash is computed from commits to the node and to its children: where it is the same
/// for two nodes with as many slots and as many children, the nodes agree in kind, path and slots, as
/// far as consensus goes, and each child has the same hash.
pub proof fn law_hash_commits_to_children(
    a: NodeModel,
    x: Seq<TrieHash>,
    b: NodeModel,
    y: Seq<TrieHash>,
    blocks: Map<u32, [u8; 32]>,
)
    requires
        a.ptrs.len() == b.ptrs.len(),
        x.len() == y.len(),
        consensus_bytes(a, blocks) + hashes_flat(x) == consensus_bytes(b, blocks) + hashes_flat(y),
    ensures
        a.kind == b.kind,
        a.path == b.path,
        forall|i: int|
            0 <= i < a.ptrs.len() ==> (#[trigger] a.ptrs[i]).id == b.ptrs[i].id && a.ptrs[i].chr
                == b.ptrs[i].chr && (is_backptr(a.ptrs[i].id) ==> blocks[a.ptrs[i].back_block]@
                == blocks[b.ptrs[i].back_block]@),
        forall|i: int| 0 <= i < x.len() ==> (#[trigger] x[i])@ == y[i]@,
{
    let p = consensus_bytes(a, blocks);
    let q = consensus_bytes(b, blocks);
    let u = hashes_flat(x);
    let v = hashes_flat(y);
    lemma_hashes_len(x);
    lemma_hashes_len(y);
    assert((p + u).len() == p.len() + u.len());
    assert((q + v).len() == q.len() + v.len());
    assert(p.len() == q.len());
    assert(p =~= (p + u).take(p.len() as int));
    assert(q =~= (q + v).take(q.len() as int));
    assert(u =~= (p + u).skip(p.len() as int));
    assert(v =~= (q + v).skip(q.len() as int));
    law_consensus_tells_nodes_apart(a, b, blocks);
    assert forall|i: int| 0 <= i < x.len() implies (#[trigger] x[i])@ == y[i]@ by {
        law_every_child_hash_is_hashed(x, i);
        law_every_child_hash_is_hashed(y, i);
    }
}

proof fn lemma_hashes_len(x: Seq<TrieHash>)
    ensures
        hashes_flat(x).len() == 32 * x.len(),
    decreases x.len(),
{
    if x.len() > 0 {
        lemma_hashes_len(x.drop_last());
    }
}

} // verus!
