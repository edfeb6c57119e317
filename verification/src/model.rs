//! What a trie node is, apart from how it is laid out in memory.

use crate::bits::{
    law_compressed_list_not_longer, law_compressed_list_round_trip, law_full_list_round_trip,
    law_path_round_trip, list_storable, parse_path, parse_ptrs, path_bytes, ptrs_compressed,
    ptrs_full,
};
use crate::node_id::{clear_ctrl_bits, law_ctrl_bits, set_compressed, TrieNodeID};
use crate::ptr::TriePtr;
use vstd::prelude::*;

verus! {

/// A node: its kind, its compressed path, its child slots, for a 48-way node the index from
/// path character to slot, and for a leaf its value.
#[verifier::ext_equal]
pub struct NodeModel {
    pub kind: TrieNodeID,
    pub path: Seq<u8>,
    pub ptrs: Seq<TriePtr>,
    pub indexes: Seq<i8>,
    pub data: Seq<u8>,
}

/// The first occupied slot with path character `chr`.
pub open spec fn first_slot(ptrs: Seq<TriePtr>, chr: u8) -> Option<int>
    decreases ptrs.len(),
{
    if ptrs.len() == 0 {
        None
    } else {
        match first_slot(ptrs.drop_last(), chr) {
            Some(i) => Some(i),
            None => if !ptrs.last().is_empty() && ptrs.last().chr == chr {
                Some(ptrs.len() - 1)
            } else {
                None
            },
        }
    }
}

/// The first unoccupied slot.
pub open spec fn first_empty(ptrs: Seq<TriePtr>) -> Option<int>
    decreases ptrs.len(),
{
    if ptrs.len() == 0 {
        None
    } else {
        match first_empty(ptrs.drop_last()) {
            Some(i) => Some(i),
            None => if ptrs.last().is_empty() {
                Some(ptrs.len() - 1)
            } else {
                None
            },
        }
    }
}

/// An index entry as it is stored.
pub open spec fn index_byte(i: i8) -> u8 {
    if i >= 0 {
        i as u8
    } else {
        (i + 256) as u8
    }
}

/// The index entry that a byte stores.
pub open spec fn byte_index(b: u8) -> i8 {
    if b < 128 {
        b as i8
    } else {
        (b - 256) as i8
    }
}

/// The stored form of an index.
pub open spec fn index_bytes(indexes: Seq<i8>) -> Seq<u8> {
    indexes.map_values(|i: i8| index_byte(i))
}

/// Is the index one that a stored 48-way node may have: every occupied slot's character has an
/// entry, and every entry leads to an occupied slot?
pub open spec fn indexes_valid(ptrs: Seq<TriePtr>, indexes: Seq<i8>) -> bool {
    &&& forall|i: int|
        0 <= i < ptrs.len() && !(#[trigger] ptrs[i]).is_empty() ==> 0 <= indexes[ptrs[i].chr as int]
            < 48
    &&& forall|c: int|
        0 <= c < indexes.len() && #[trigger] indexes[c] >= 0 ==> indexes[c] < ptrs.len()
            && !ptrs[indexes[c] as int].is_empty()
}

/// Does no index entry lead out of the slots?
pub open spec fn indexes_in_range(indexes: Seq<i8>) -> bool {
    forall|c: int| 0 <= c < indexes.len() ==> #[trigger] indexes[c] < 48
}

/// How many slots a node of this kind has.
pub open spec fn kind_slots(kind: TrieNodeID) -> nat {
    match kind {
        TrieNodeID::Node4 => 4,
        TrieNodeID::Node16 => 16,
        TrieNodeID::Node48 => 48,
        TrieNodeID::Node256 => 256,
        _ => 0,
    }
}

impl NodeModel {
    /// Does the node have the parts that its kind calls for?
    pub open spec fn shaped(self) -> bool {
        &&& self.kind is Node4 || self.kind is Node16 || self.kind is Node48 || self.kind is Node256
            || self.kind is Leaf
        &&& self.path.len() <= 32
        &&& self.ptrs.len() == kind_slots(self.kind)
        &&& self.indexes.len() == if self.kind is Node48 {
            256nat
        } else {
            0
        }
        &&& self.data.len() == if self.kind is Leaf {
            40nat
        } else {
            0
        }
    }

    /// Can the node be operated on: an index leads only to slots that exist.
    pub open spec fn valid(self) -> bool {
        self.kind is Node48 ==> indexes_in_range(self.indexes)
    }

    /// The child for a path character.
    pub open spec fn child(self, chr: u8) -> Option<TriePtr> {
        match self.kind {
            TrieNodeID::Node4 | TrieNodeID::Node16 => match first_slot(self.ptrs, chr) {
                Some(i) => Some(self.ptrs[i]),
                None => None,
            },
            TrieNodeID::Node48 => {
                let i = self.indexes[chr as int];
                if 0 <= i < 48 && !self.ptrs[i as int].is_empty() {
                    Some(self.ptrs[i as int])
                } else {
                    None
                }
            },
            TrieNodeID::Node256 => if !self.ptrs[chr as int].is_empty() {
                Some(self.ptrs[chr as int])
            } else {
                None
            },
            _ => None,
        }
    }

    /// The node with the child at `ptr`'s character replaced by `ptr`, where it has that child.
    pub open spec fn replaced(self, ptr: TriePtr) -> Option<NodeModel> {
        match self.kind {
            TrieNodeID::Node4 | TrieNodeID::Node16 => match first_slot(self.ptrs, ptr.chr) {
                Some(i) => Some(NodeModel { ptrs: self.ptrs.update(i, ptr), ..self }),
                None => None,
            },
            TrieNodeID::Node48 => {
                let i = self.indexes[ptr.chr as int];
                if 0 <= i < 48 && !self.ptrs[i as int].is_empty() {
                    Some(NodeModel { ptrs: self.ptrs.update(i as int, ptr), ..self })
                } else {
                    None
                }
            },
            TrieNodeID::Node256 => {
                let c = ptr.chr as int;
                if !self.ptrs[c].is_empty() {
                    Some(NodeModel { ptrs: self.ptrs.update(c, ptr), ..self })
                } else {
                    None
                }
            },
            _ => None,
        }
    }

    /// The node with `ptr` as a new child, where it has no child for that character and has room
    /// for one.
    pub open spec fn inserted(self, ptr: TriePtr) -> Option<NodeModel> {
        if self.child(ptr.chr) is Some {
            None
        } else {
            match self.kind {
                TrieNodeID::Node4 | TrieNodeID::Node16 => match first_empty(self.ptrs) {
                    Some(i) => Some(NodeModel { ptrs: self.ptrs.update(i, ptr), ..self }),
                    None => None,
                },
                TrieNodeID::Node48 => if self.indexes[ptr.chr as int] >= 0 {
                    // the index leads to a slot that is unoccupied
                    Some(
                        NodeModel {
                            ptrs: self.ptrs.update(self.indexes[ptr.chr as int] as int, ptr),
                            ..self
                        },
                    )
                } else {
                    match first_empty(self.ptrs) {
                        Some(i) => Some(
                            NodeModel {
                                ptrs: self.ptrs.update(i, ptr),
                                indexes: self.indexes.update(ptr.chr as int, i as i8),
                                ..self
                            },
                        ),
                        None => None,
                    }
                },
                TrieNodeID::Node256 => Some(
                    NodeModel { ptrs: self.ptrs.update(ptr.chr as int, ptr), ..self },
                ),
                _ => None,
            }
        }
    }

    /// The node with `ptr` as its child for that character, where it has the child already or
    /// has room for one more.
    pub open spec fn put(self, ptr: TriePtr) -> Option<NodeModel> {
        match self.replaced(ptr) {
            Some(m) => Some(m),
            None => self.inserted(ptr),
        }
    }

    /// The stored form: kind, slots, index, path; or for a leaf kind, path, value.
    pub open spec fn bytes(self) -> Seq<u8> {
        if self.kind is Leaf {
            seq![self.kind.spec_to_u8()] + path_bytes(self.path) + self.data
        } else {
            seq![self.kind.spec_to_u8()] + ptrs_full(self.ptrs) + index_bytes(self.indexes)
                + path_bytes(self.path)
        }
    }

    /// The stored form with its slots compressed. A leaf has none.
    pub open spec fn bytes_compressed(self) -> Seq<u8> {
        if self.kind is Leaf {
            self.bytes()
        } else {
            seq![set_compressed(self.kind.spec_to_u8())] + ptrs_compressed(
                self.kind.spec_to_u8(),
                self.ptrs,
            ) + index_bytes(self.indexes) + path_bytes(self.path)
        }
    }
}

/// The node of kind `kind` at the head of `s`, in either stored form, and the bytes it takes.
pub open spec fn parse_node(kind: TrieNodeID, s: Seq<u8>) -> Option<(NodeModel, nat)> {
    if kind is Leaf {
        if s.len() == 0 || clear_ctrl_bits(s[0]) != TrieNodeID::Leaf.spec_to_u8() {
            None
        } else {
            match parse_path(s.skip(1)) {
                None => None,
                Some((path, n)) => if s.len() < 1 + n + 40 {
                    None
                } else {
                    Some(
                        (
                            NodeModel {
                                kind,
                                path,
                                ptrs: Seq::empty(),
                                indexes: Seq::empty(),
                                data: s.subrange(1 + n as int, 41 + n as int),
                            },
                            1 + n + 40,
                        ),
                    )
                },
            }
        }
    } else if kind_slots(kind) == 0 {
        None
    } else {
        match parse_ptrs(kind.spec_to_u8(), s, kind_slots(kind)) {
            None => None,
            Some((ptrs, used)) => {
                let indexed: nat = if kind is Node48 {
                    256
                } else {
                    0
                };
                let indexes = Seq::new(indexed, |i: int| byte_index(s[used + i]));
                if s.len() < used + indexed {
                    None
                } else {
                    match parse_path(s.skip((used + indexed) as int)) {
                        None => None,
                        Some((path, n)) => if kind is Node48 && !indexes_valid(ptrs, indexes) {
                            None
                        } else {
                            Some(
                                (
                                    NodeModel { kind, path, ptrs, indexes, data: Seq::empty() },
                                    used + indexed + n,
                                ),
                            )
                        },
                    }
                }
            },
        }
    }
}

// ---------------------------------------------------------------------------------------
// Slots
// ---------------------------------------------------------------------------------------
/// What [`first_slot`] finds is the first match; where it finds nothing, there is none.
pub proof fn lemma_first_slot(ptrs: Seq<TriePtr>, chr: u8)
    ensures
        match first_slot(ptrs, chr) {
            Some(i) => {
                &&& 0 <= i < ptrs.len()
                &&& !ptrs[i].is_empty()
                &&& ptrs[i].chr == chr
                &&& forall|j: int|
                    0 <= j < i ==> (#[trigger] ptrs[j]).is_empty() || ptrs[j].chr != chr
            },
            None => forall|j: int|
                0 <= j < ptrs.len() ==> (#[trigger] ptrs[j]).is_empty() || ptrs[j].chr != chr,
        },
    decreases ptrs.len(),
{
    if ptrs.len() > 0 {
        lemma_first_slot(ptrs.drop_last(), chr);
        assert(forall|j: int|
            0 <= j < ptrs.len() - 1 ==> #[trigger] ptrs[j] == ptrs.drop_last()[j]);
    }
}

/// The first match is at `i` where `i` matches and nothing before it does.
pub proof fn lemma_first_slot_is(ptrs: Seq<TriePtr>, chr: u8, i: int)
    requires
        0 <= i < ptrs.len(),
        !ptrs[i].is_empty(),
        ptrs[i].chr == chr,
        forall|j: int| 0 <= j < i ==> (#[trigger] ptrs[j]).is_empty() || ptrs[j].chr != chr,
    ensures
        first_slot(ptrs, chr) == Some(i),
{
    lemma_first_slot(ptrs, chr);
}

/// What [`first_empty`] finds is the first unoccupied slot; where it finds nothing, all slots
/// are occupied.
pub proof fn lemma_first_empty(ptrs: Seq<TriePtr>)
    ensures
        match first_empty(ptrs) {
            Some(i) => {
                &&& 0 <= i < ptrs.len()
                &&& ptrs[i].is_empty()
                &&& forall|j: int| 0 <= j < i ==> !(#[trigger] ptrs[j]).is_empty()
            },
            None => forall|j: int| 0 <= j < ptrs.len() ==> !(#[trigger] ptrs[j]).is_empty(),
        },
    decreases ptrs.len(),
{
    if ptrs.len() > 0 {
        lemma_first_empty(ptrs.drop_last());
        assert(forall|j: int|
            0 <= j < ptrs.len() - 1 ==> #[trigger] ptrs[j] == ptrs.drop_last()[j]);
    }
}

// ---------------------------------------------------------------------------------------
// Children
// ---------------------------------------------------------------------------------------
/// Does every child stand where its character is looked up? At most one slot for a character;
/// a 48-way index that leads from each character to its own slot and nowhere else; a 256-way
/// slot only for its own character.
pub open spec fn children_valid(m: NodeModel) -> bool {
    match m.kind {
        TrieNodeID::Node4 | TrieNodeID::Node16 => forall|i: int, j: int|
            0 <= i < m.ptrs.len() && 0 <= j < m.ptrs.len() && i != j
                && !(#[trigger] m.ptrs[i]).is_empty() && !(#[trigger] m.ptrs[j]).is_empty()
                ==> m.ptrs[i].chr != m.ptrs[j].chr,
        TrieNodeID::Node48 => {
            &&& forall|c: int|
                0 <= c < 256 && #[trigger] m.indexes[c] >= 0 ==> m.indexes[c] < 48
                    && !m.ptrs[m.indexes[c] as int].is_empty() && m.ptrs[m.indexes[c] as int].chr
                    == c
            &&& forall|i: int|
                0 <= i < 48 && !(#[trigger] m.ptrs[i]).is_empty() ==> m.indexes[m.ptrs[i].chr as int]
                    == i
        },
        TrieNodeID::Node256 => forall|c: int|
            0 <= c < 256 && !(#[trigger] m.ptrs[c]).is_empty() ==> m.ptrs[c].chr == c,
        _ => true,
    }
}

/// A child that is found carries the character that it was looked up by, and is no empty slot.
pub proof fn law_child_chr(m: NodeModel, chr: u8)
    requires
        m.shaped(),
        children_valid(m),
    ensures
        m.child(chr) matches Some(p) ==> p.chr == chr && !p.is_empty(),
{
    lemma_first_slot(m.ptrs, chr);
}

/// Every occupied slot is found by its own character.
pub proof fn law_slot_is_child(m: NodeModel, i: int)
    requires
        m.shaped(),
        children_valid(m),
        0 <= i < m.ptrs.len(),
        !m.ptrs[i].is_empty(),
    ensures
        m.child(m.ptrs[i].chr) == Some(m.ptrs[i]),
{
    lemma_first_slot(m.ptrs, m.ptrs[i].chr);
}

/// Putting a child gives exactly that child for its character and leaves every other character
/// as it was; it fails only where the node has no such child and no room.
pub proof fn law_put(m: NodeModel, ptr: TriePtr)
    requires
        m.shaped(),
        children_valid(m),
        !ptr.is_empty(),
        !(m.kind is Leaf),
    ensures
        match m.put(ptr) {
            Some(m2) => {
                &&& m2.shaped()
                &&& children_valid(m2)
                &&& m2.path == m.path
                &&& m2.kind == m.kind
                &&& forall|c: u8|
                    #[trigger] m2.child(c) == if c == ptr.chr {
                        Some(ptr)
                    } else {
                        m.child(c)
                    }
            },
            None => m.child(ptr.chr) is None && forall|i: int|
                0 <= i < m.ptrs.len() ==> !(#[trigger] m.ptrs[i]).is_empty(),
        },
{
    lemma_first_slot(m.ptrs, ptr.chr);
    lemma_first_empty(m.ptrs);
    if let Some(m2) = m.put(ptr) {
        if m.kind is Node4 || m.kind is Node16 {
            let i = match first_slot(m.ptrs, ptr.chr) {
                Some(i) => i,
                None => first_empty(m.ptrs).unwrap(),
            };
            assert(m2.ptrs == m.ptrs.update(i, ptr));
            assert forall|c: u8|
                #[trigger] m2.child(c) == if c == ptr.chr {
                    Some(ptr)
                } else {
                    m.child(c)
                } by {
                lemma_slot_update(m.ptrs, i, ptr, c);
                lemma_first_slot(m.ptrs, c);
            }
        }
    }
}

/// Writing `ptr` into a slot that is unoccupied or has its character changes what is found for
/// that character only.
proof fn lemma_slot_update(ptrs: Seq<TriePtr>, i: int, ptr: TriePtr, c: u8)
    requires
        0 <= i < ptrs.len(),
        !ptr.is_empty(),
        ptrs[i].is_empty() || ptrs[i].chr == ptr.chr,
        forall|j: int|
            0 <= j < ptrs.len() && j != i && !(#[trigger] ptrs[j]).is_empty() ==> ptrs[j].chr
                != ptr.chr,
    ensures
        c == ptr.chr ==> first_slot(ptrs.update(i, ptr), c) == Some(i),
        c != ptr.chr ==> first_slot(ptrs.update(i, ptr), c) == first_slot(ptrs, c),
        first_slot(ptrs, c) matches Some(k) ==> c != ptr.chr ==> k != i,
{
    let after = ptrs.update(i, ptr);
    assert(forall|j: int| 0 <= j < ptrs.len() && j != i ==> #[trigger] after[j] == ptrs[j]);
    lemma_first_slot(ptrs, c);
    lemma_first_slot(after, c);
    if c == ptr.chr {
        assert(after[i] == ptr);
    } else {
        match first_slot(ptrs, c) {
            Some(k) => {
                assert(after[k] == ptrs[k]);
                lemma_first_slot_is(after, c, k);
            },
            None => {
                if let Some(k) = first_slot(after, c) {
                    assert(after[k] == ptrs[k]);
                }
            },
        }
    }
}

/// Replacing a child gives exactly that child for its character and leaves every other
/// character as it was; it fails exactly where there is no such child.
pub proof fn law_replace(m: NodeModel, ptr: TriePtr)
    requires
        m.shaped(),
        children_valid(m),
        !ptr.is_empty(),
        !(m.kind is Leaf),
    ensures
        m.replaced(ptr) is Some <==> m.child(ptr.chr) is Some,
        m.replaced(ptr) matches Some(m2) ==> children_valid(m2) && forall|c: u8|
            #[trigger] m2.child(c) == if c == ptr.chr {
                Some(ptr)
            } else {
                m.child(c)
            },
{
    lemma_first_slot(m.ptrs, ptr.chr);
    law_put(m, ptr);
}

/// Inserting a child gives exactly that child for its character and leaves every other
/// character as it was; it fails exactly where there is such a child already, or no room.
pub proof fn law_insert(m: NodeModel, ptr: TriePtr)
    requires
        m.shaped(),
        children_valid(m),
        !ptr.is_empty(),
        !(m.kind is Leaf),
    ensures
        m.child(ptr.chr) is Some ==> m.inserted(ptr) is None,
        m.child(ptr.chr) is None ==> match m.inserted(ptr) {
            Some(m2) => {
                &&& m2.shaped()
                &&& children_valid(m2)
                &&& m2.path == m.path
                &&& m2.kind == m.kind
                &&& forall|c: u8|
                    #[trigger] m2.child(c) == if c == ptr.chr {
                        Some(ptr)
                    } else {
                        m.child(c)
                    }
            },
            None => forall|i: int| 0 <= i < m.ptrs.len() ==> !(#[trigger] m.ptrs[i]).is_empty(),
        },
{
    law_replace(m, ptr);
    law_put(m, ptr);
}

/// Does no unoccupied slot stand behind an occupied one with the same character? A promotion
/// that goes through the slots in order then loses no child.
pub open spec fn unshadowed(ptrs: Seq<TriePtr>) -> bool {
    forall|i: int, j: int|
        0 <= i < j < ptrs.len() && !(#[trigger] ptrs[i]).is_empty() && (#[trigger] ptrs[j]).is_empty()
            ==> ptrs[i].chr != ptrs[j].chr
}

// ---------------------------------------------------------------------------------------
// Stored forms
// ---------------------------------------------------------------------------------------
proof fn lemma_index_round_trip(i: i8)
    ensures
        byte_index(index_byte(i)) == i,
{
}

/// A node stored in full reads back as itself, whatever follows it. A 48-way node must have an
/// index that the reader accepts.
#[verifier::spinoff_prover]
#[verifier::rlimit(80)]
pub proof fn law_node_round_trip(m: NodeModel, rest: Seq<u8>)
    requires
        m.shaped(),
        m.kind is Node48 ==> indexes_valid(m.ptrs, m.indexes),
    ensures
        parse_node(m.kind, m.bytes() + rest) == Some((m, m.bytes().len())),
{
    let id = m.kind.spec_to_u8();
    law_ctrl_bits(id);
    let s = m.bytes() + rest;
    if m.kind is Leaf {
        law_path_round_trip(m.path, m.data + rest);
        assert(s.skip(1) =~= path_bytes(m.path) + (m.data + rest));
        let n = path_bytes(m.path).len();
        assert(s.subrange(1 + n as int, 41 + n as int) =~= m.data);
        assert(m.ptrs =~= Seq::empty());
        assert(m.indexes =~= Seq::empty());
        assert(m.bytes().len() == 1 + n + 40);
    } else {
        let tail = index_bytes(m.indexes) + path_bytes(m.path) + rest;
        let head = seq![id] + ptrs_full(m.ptrs);
        assert(s =~= head + tail);
        assert(parse_ptrs(id, s, m.ptrs.len()) == Some((m.ptrs, head.len()))) by {
            law_full_list_round_trip(id, m.ptrs, tail);
        }
        assert(m.bytes().len() == head.len() + m.indexes.len() + path_bytes(m.path).len());
        assert(s =~= head + index_bytes(m.indexes) + path_bytes(m.path) + rest);
        lemma_node_from_parts(m, s, head, rest);
    }
}

/// A node whose slots were read reads back as a whole.
#[verifier::spinoff_prover]
proof fn lemma_node_from_parts(m: NodeModel, s: Seq<u8>, head: Seq<u8>, rest: Seq<u8>)
    requires
        m.shaped(),
        !(m.kind is Leaf),
        m.kind is Node48 ==> indexes_valid(m.ptrs, m.indexes),
        s == head + index_bytes(m.indexes) + path_bytes(m.path) + rest,
        parse_ptrs(m.kind.spec_to_u8(), s, kind_slots(m.kind)) == Some((m.ptrs, head.len())),
    ensures
        parse_node(m.kind, s) == Some(
            (m, (head.len() + m.indexes.len() + path_bytes(m.path).len()) as nat),
        ),
{
    lemma_tail_round_trip(m, head, rest);
    let parsed = parse_node(m.kind, s).unwrap().0;
    assert(parsed.ptrs == m.ptrs);
    assert(parsed.indexes =~= m.indexes);
    assert(parsed == m);
}

/// The parts behind the slots read back.
proof fn lemma_tail_round_trip(m: NodeModel, head: Seq<u8>, rest: Seq<u8>)
    requires
        m.shaped(),
        !(m.kind is Leaf),
    ensures
        ({
            let s = head + index_bytes(m.indexes) + path_bytes(m.path) + rest;
            let used = head.len();
            let indexed = m.indexes.len();
            &&& Seq::new(indexed, |i: int| byte_index(s[used + i])) == m.indexes
            &&& parse_path(s.skip((used + indexed) as int)) == Some(
                (m.path, path_bytes(m.path).len()),
            )
            &&& s.len() >= used + indexed
            &&& m.data == Seq::<u8>::empty()
        }),
{
    let s = head + index_bytes(m.indexes) + path_bytes(m.path) + rest;
    let used = head.len();
    let indexed = m.indexes.len();
    let parsed = Seq::new(indexed, |i: int| byte_index(s[used + i]));
    assert forall|i: int| 0 <= i < indexed implies #[trigger] parsed[i] == m.indexes[i] by {
        assert(s[used + i] == index_bytes(m.indexes)[i]);
        lemma_index_round_trip(m.indexes[i]);
    }
    assert(parsed =~= m.indexes);
    assert(s.skip((used + indexed) as int) =~= path_bytes(m.path) + rest);
    law_path_round_trip(m.path, rest);
    assert(m.data =~= Seq::<u8>::empty());
}

/// A node stored with compressed slots reads back as itself, whatever follows it. Its slots
/// must be storable, and the id of its first slot must not collide with the sparse marker.
#[verifier::spinoff_prover]
#[verifier::rlimit(80)]
pub proof fn law_node_compressed_round_trip(m: NodeModel, rest: Seq<u8>)
    requires
        m.shaped(),
        m.kind is Node48 ==> indexes_valid(m.ptrs, m.indexes),
        list_storable(m.ptrs),
        !(m.kind is Leaf) ==> m.ptrs[0].id != 0xbf,
    ensures
        parse_node(m.kind, m.bytes_compressed() + rest) == Some((m, m.bytes_compressed().len())),
{
    if m.kind is Leaf {
        law_node_round_trip(m, rest);
    } else {
        let id = m.kind.spec_to_u8();
        let list = ptrs_compressed(id, m.ptrs);
        let head = seq![set_compressed(id)] + list;
        lemma_compressed_form(m, list, rest);
        lemma_compressed_slots(m, rest);
        lemma_node_from_parts(m, m.bytes_compressed() + rest, head, rest);
    }
}

/// A compressed node is its head, its slots, its index and its path.
proof fn lemma_compressed_form(m: NodeModel, list: Seq<u8>, rest: Seq<u8>)
    requires
        !(m.kind is Leaf),
        list == ptrs_compressed(m.kind.spec_to_u8(), m.ptrs),
    ensures
        ({
            let head = seq![set_compressed(m.kind.spec_to_u8())] + list;
            &&& m.bytes_compressed() + rest == head + index_bytes(m.indexes) + path_bytes(m.path)
                + rest
            &&& m.bytes_compressed() + rest == head + (index_bytes(m.indexes) + path_bytes(m.path)
                + rest)
            &&& m.bytes_compressed().len() == head.len() + m.indexes.len() + path_bytes(
                m.path,
            ).len()
        }),
{
    let head = seq![set_compressed(m.kind.spec_to_u8())] + list;
    let s = m.bytes_compressed() + rest;
    assert(s =~= head + index_bytes(m.indexes) + path_bytes(m.path) + rest);
    assert(s =~= head + (index_bytes(m.indexes) + path_bytes(m.path) + rest));
}

/// The slots of a compressed node read back.
proof fn lemma_compressed_slots(m: NodeModel, rest: Seq<u8>)
    requires
        m.shaped(),
        !(m.kind is Leaf),
        list_storable(m.ptrs),
        m.ptrs[0].id != 0xbf,
    ensures
        parse_ptrs(m.kind.spec_to_u8(), m.bytes_compressed() + rest, kind_slots(m.kind)) == Some(
            (m.ptrs, (1 + ptrs_compressed(m.kind.spec_to_u8(), m.ptrs).len()) as nat),
        ),
{
    let id = m.kind.spec_to_u8();
    law_ctrl_bits(id);
    let list = ptrs_compressed(id, m.ptrs);
    let tail = index_bytes(m.indexes) + path_bytes(m.path) + rest;
    lemma_compressed_form(m, list, rest);
    law_compressed_list_round_trip(id, m.ptrs, tail);
}

/// Compression never makes a node longer.
pub proof fn law_compressed_node_not_longer(m: NodeModel)
    ensures
        m.bytes_compressed().len() <= m.bytes().len(),
{
    law_compressed_list_not_longer(m.kind.spec_to_u8(), m.ptrs);
}

} // verus!
