//! Leaf values and the 32-byte identifiers of tries.

use crate::bytes::{array32, array40, be32, bytes_equal, from_be32, le32, lemma_be32_round_trip};
use crate::hash::{sha512_256, TrieHash};
use crate::path::NodePath;
use vstd::prelude::*;
use vstd::string::StringSliceAdditionalSpecFns;

verus! {

/// Bytes in an encoded [`MARFValue`].
pub const MARF_VALUE_ENCODED_SIZE: u32 = 40;

/// Define the maximum node patching depth when compression is enabled
pub const MAX_PATCH_DEPTH: u32 = 4;

/// Structure that holds the actual data in a leaf node: the hash of some value, and 8 spare
/// bytes that are zero as long as nothing uses them.
#[derive(Debug, Clone, Copy, PartialEq, Eq, Hash)]
pub struct MARFValue(pub [u8; 40]);

impl View for MARFValue {
    type V = Seq<u8>;

    open spec fn view(&self) -> Seq<u8> {
        self.0@
    }
}

/// `s` followed by zeros, 40 bytes in all.
pub open spec fn value_of(s: Seq<u8>) -> Seq<u8> {
    s + Seq::new((40 - s.len()) as nat, |i: int| 0u8)
}

/// Is every byte of the value from `from` on zero?
pub open spec fn zero_from(v: Seq<u8>, from: int) -> bool {
    forall|i: int| from <= i < v.len() ==> v[i] == 0
}

fn padded_value(s: &[u8]) -> (v: MARFValue)
    requires
        s@.len() <= 40,
    ensures
        v@ == value_of(s@),
{
    let mut d: [u8; 40] = [0u8; 40];
    let mut i: usize = 0;
    while i < s.len()
        invariant
            i <= s@.len() <= 40,
            d@.len() == 40,
            forall|j: int| 0 <= j < i ==> d@[j] == s@[j],
            forall|j: int| i <= j < 40 ==> d@[j] == 0,
        decreases s@.len() - i,
    {
        d[i] = s[i];
        i += 1;
    }
    assert(d@ =~= value_of(s@));
    MARFValue(d)
}

impl MARFValue {
    /// Construct from the bytes of a value hash.
    pub fn from_value_hash_bytes(h: &[u8; 32]) -> (v: MARFValue)
        ensures
            v@ == value_of(h@),
    {
        padded_value(h.as_slice())
    }

    /// Construct from a TrieHash
    pub fn from_value_hash(h: &TrieHash) -> (v: MARFValue)
        ensures
            v@ == value_of(h@),
    {
        MARFValue::from_value_hash_bytes(h.as_bytes())
    }

    /// Construct from a string that encodes a value inserted into the underlying data store
    pub fn from_value(s: &str) -> (v: MARFValue)
        ensures
            v@ == value_of(sha512_256(s.spec_bytes())),
    {
        MARFValue::from_value_hash(&TrieHash::from_data(s.as_bytes()))
    }

    /// The number, in the first four bytes, least significant first.
    pub fn from_u32(value: u32) -> (v: MARFValue)
        ensures
            v@ == value_of(le32(value)),
    {
        let h: [u8; 4] = [
            (value % 0x100) as u8,
            ((value / 0x100) % 0x100) as u8,
            ((value / 0x1_0000) % 0x100) as u8,
            (value / 0x100_0000) as u8,
        ];
        assert(h@ =~= le32(value));
        padded_value(h.as_slice())
    }

    /// The block identifier, in the first 32 bytes.
    pub fn from_trie_id<T: ClarityMarfTrieId>(bhh: T) -> (v: MARFValue)
        ensures
            v@ == value_of(bhh.id_bytes()@),
    {
        let b = bhh.to_bytes();
        padded_value(b.as_slice())
    }

    /// Does the value hold a number and nothing else?
    pub fn is_u32(&self) -> (r: bool)
        ensures
            r == zero_from(self@, 4),
    {
        self.is_zero_from(4)
    }

    /// Does the value hold a block identifier and nothing else?
    pub fn is_trie_id(&self) -> (r: bool)
        ensures
            r == zero_from(self@, 32),
    {
        self.is_zero_from(32)
    }

    fn is_zero_from(&self, from: usize) -> (r: bool)
        requires
            from <= 40,
        ensures
            r == zero_from(self@, from as int),
    {
        let mut i: usize = from;
        while i < 40
            invariant
                from <= i <= 40,
                forall|j: int| from <= j < i ==> self@[j] == 0,
            decreases 40 - i,
        {
            if self.0[i] != 0 {
                return false;
            }
            i += 1;
        }
        true
    }

    /// The number in the first four bytes, least significant first. The value must hold
    /// nothing else.
    pub fn to_u32(&self) -> (r: u32)
        requires
            zero_from(self@, 4),
        ensures
            r == from_be32(self@.subrange(0, 4).reverse()),
            self@ == value_of(le32(r)),
    {
        let ghost t = self@.subrange(0, 4).reverse();
        assert(t[0] == self@[3] && t[1] == self@[2] && t[2] == self@[1] && t[3] == self@[0]);
        let r = self.0[3] as u32 * 0x100_0000 + self.0[2] as u32 * 0x1_0000 + self.0[1] as u32
            * 0x100 + self.0[0] as u32;
        proof {
            crate::bytes::lemma_from_be32_round_trip(t);
            assert(le32(r) =~= self@.subrange(0, 4));
            assert(self@ =~= value_of(le32(r)));
        }
        r
    }

    /// Convert to a byte vector
    pub fn to_vec(&self) -> (r: Vec<u8>)
        ensures
            r@ == self@,
    {
        let mut out: Vec<u8> = Vec::new();
        crate::bytes::push_all(&mut out, self.0.as_slice());
        assert(out@ =~= self@);
        out
    }

    /// Extract the value hash from the value
    pub fn to_value_hash(&self) -> (h: TrieHash)
        ensures
            h@ == self@.subrange(0, 32),
    {
        TrieHash(array32(self.0.as_slice()))
    }

    pub fn as_bytes(&self) -> (r: &[u8])
        ensures
            r@ == self@,
    {
        self.0.as_slice()
    }
}

/// Storing a number as a value and reading it back gives the number.
pub proof fn law_u32_value_round_trip(x: u32)
    ensures
        zero_from(value_of(le32(x)), 4),
        from_be32(value_of(le32(x)).subrange(0, 4).reverse()) == x,
{
    lemma_be32_round_trip(x);
    assert(value_of(le32(x)).subrange(0, 4).reverse() =~= be32(x));
}

/// Storing a value hash and extracting it gives the hash.
pub proof fn law_value_hash_round_trip(h: Seq<u8>)
    requires
        h.len() == 32,
    ensures
        zero_from(value_of(h), 32),
        value_of(h).len() == 40,
        value_of(h).subrange(0, 32) == h,
{
    assert(value_of(h).subrange(0, 32) =~= h);
}

/// The identifier that stands for "no block".
pub const SENTINEL_ARRAY: [u8; 32] = [
    255, 255, 255, 255, 255, 255, 255, 255, 255, 255, 255, 255, 255, 255, 255, 255, 255, 255, 255,
    255, 255, 255, 255, 255, 255, 255, 255, 255, 255, 255, 255, 255,
];

/// A 32-byte identifier of a trie.
pub trait ClarityMarfTrieId: Sized {
    spec fn id_bytes(&self) -> [u8; 32];

    fn as_bytes(&self) -> (r: &[u8])
        ensures
            r@ == self.id_bytes()@,
    ;

    fn to_bytes(self) -> (r: [u8; 32])
        ensures
            r == self.id_bytes(),
    ;

    fn from_bytes(from: [u8; 32]) -> (r: Self)
        ensures
            r.id_bytes() == from,
    ;

    /// The identifier that stands for "no block".
    fn sentinel() -> (r: Self)
        ensures
            r.id_bytes() == SENTINEL_ARRAY,
    ;

    /// Two identifiers with the same bytes are the same.
    proof fn lemma_id_bytes_determine(a: Self, b: Self)
        ensures
            a.id_bytes()@ == b.id_bytes()@ ==> a == b,
    ;
}

/// A trie identifier that cursors and storage can hand around by value.
pub trait MarfTrieId: ClarityMarfTrieId + Copy {

}

/// Are the two identifiers the same?
pub fn same_id<T: MarfTrieId>(a: &T, b: &T) -> (r: bool)
    ensures
        r == (*a == *b),
{
    proof {
        T::lemma_id_bytes_determine(*a, *b);
    }
    bytes_equal(a.as_bytes(), b.as_bytes())
}

/// The identifier that a value holds. The value must hold nothing else.
pub fn trie_id_from_value<T: MarfTrieId>(m: &MARFValue) -> (r: T)
    requires
        zero_from(m@, 32),
    ensures
        r.id_bytes()@ == m@.subrange(0, 32),
        m@ == value_of(r.id_bytes()@),
{
    let d = array32(m.0.as_slice());
    let r = T::from_bytes(d);
    assert(m@ =~= value_of(r.id_bytes()@));
    r
}

/// Hash of a burnchain block header.
#[derive(Debug, Clone, Copy, PartialEq, Eq, Hash)]
pub struct BurnchainHeaderHash(pub [u8; 32]);

/// Identifier of a Stacks block.
#[derive(Debug, Clone, Copy, PartialEq, Eq, Hash)]
pub struct StacksBlockId(pub [u8; 32]);

/// Identifier of a sortition.
#[derive(Debug, Clone, Copy, PartialEq, Eq, Hash)]
pub struct SortitionId(pub [u8; 32]);

/// Hash of a block header.
#[derive(Debug, Clone, Copy, PartialEq, Eq, Hash)]
pub struct BlockHeaderHash(pub [u8; 32]);

impl ClarityMarfTrieId for BurnchainHeaderHash {
    open spec fn id_bytes(&self) -> [u8; 32] {
        self.0
    }

    fn as_bytes(&self) -> (r: &[u8]) {
        self.0.as_slice()
    }

    fn to_bytes(self) -> (r: [u8; 32]) {
        self.0
    }

    fn from_bytes(from: [u8; 32]) -> (r: Self) {
        BurnchainHeaderHash(from)
    }

    fn sentinel() -> (r: Self) {
        BurnchainHeaderHash(SENTINEL_ARRAY)
    }

    proof fn lemma_id_bytes_determine(a: Self, b: Self) {
        assert(a.0@ == b.0@ ==> a.0 =~= b.0);
    }
}

impl ClarityMarfTrieId for StacksBlockId {
    open spec fn id_bytes(&self) -> [u8; 32] {
        self.0
    }

    fn as_bytes(&self) -> (r: &[u8]) {
        self.0.as_slice()
    }

    fn to_bytes(self) -> (r: [u8; 32]) {
        self.0
    }

    fn from_bytes(from: [u8; 32]) -> (r: Self) {
        StacksBlockId(from)
    }

    fn sentinel() -> (r: Self) {
        StacksBlockId(SENTINEL_ARRAY)
    }

    proof fn lemma_id_bytes_determine(a: Self, b: Self) {
        assert(a.0@ == b.0@ ==> a.0 =~= b.0);
    }
}

impl ClarityMarfTrieId for SortitionId {
    open spec fn id_bytes(&self) -> [u8; 32] {
        self.0
    }

    fn as_bytes(&self) -> (r: &[u8]) {
        self.0.as_slice()
    }

    fn to_bytes(self) -> (r: [u8; 32]) {
        self.0
    }

    fn from_bytes(from: [u8; 32]) -> (r: Self) {
        SortitionId(from)
    }

    fn sentinel() -> (r: Self) {
        SortitionId(SENTINEL_ARRAY)
    }

    proof fn lemma_id_bytes_determine(a: Self, b: Self) {
        assert(a.0@ == b.0@ ==> a.0 =~= b.0);
    }
}

impl ClarityMarfTrieId for BlockHeaderHash {
    open spec fn id_bytes(&self) -> [u8; 32] {
        self.0
    }

    fn as_bytes(&self) -> (r: &[u8]) {
        self.0.as_slice()
    }

    fn to_bytes(self) -> (r: [u8; 32]) {
        self.0
    }

    fn from_bytes(from: [u8; 32]) -> (r: Self) {
        BlockHeaderHash(from)
    }

    fn sentinel() -> (r: Self) {
        BlockHeaderHash(SENTINEL_ARRAY)
    }

    proof fn lemma_id_bytes_determine(a: Self, b: Self) {
        assert(a.0@ == b.0@ ==> a.0 =~= b.0);
    }
}

impl MarfTrieId for BurnchainHeaderHash {

}

impl MarfTrieId for StacksBlockId {

}

impl MarfTrieId for SortitionId {

}

impl MarfTrieId for BlockHeaderHash {

}

/// Leaf of a Trie.
#[derive(Debug, Clone, Copy)]
pub struct TrieLeaf {
    pub path: NodePath,
    pub data: MARFValue,
}

impl TrieLeaf {
    /// A leaf with the given path and the 40 bytes of its value.
    pub fn new(path: &[u8], data: &[u8]) -> (leaf: TrieLeaf)
        requires
            path@.len() <= 32,
            data@.len() == 40,
        ensures
            leaf.path@ == path@,
            leaf.data@ == data@,
    {
        let bytes = array40(data);
        assert(bytes@ =~= data@);
        TrieLeaf { path: NodePath::from_slice(path).unwrap(), data: MARFValue(bytes) }
    }

    /// A leaf with the given path and value.
    pub fn from_value(path: &[u8], value: MARFValue) -> (leaf: TrieLeaf)
        requires
            path@.len() <= 32,
        ensures
            leaf.path@ == path@,
            leaf.data == value,
    {
        TrieLeaf { path: NodePath::from_slice(path).unwrap(), data: value }
    }
}

/// Two leaves are equal if they hold the same path and the same value.
impl PartialEq for TrieLeaf {
    fn eq(&self, other: &TrieLeaf) -> (r: bool) {
        self.path == other.path && bytes_equal(self.data.as_bytes(), other.data.as_bytes())
    }
}

impl vstd::std_specs::cmp::PartialEqSpecImpl for TrieLeaf {
    open spec fn obeys_eq_spec() -> bool {
        true
    }

    open spec fn eq_spec(&self, other: &TrieLeaf) -> bool {
        self.path@ == other.path@ && self.data@ == other.data@
    }
}

} // verus!
