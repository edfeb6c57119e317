//! The compressed path segment that a node carries.

use crate::bytes::bytes_equal;
use vstd::prelude::*;

verus! {

/// A compressed trie path segment, stored inline as a fixed-size array.
///
/// At most 32 bytes long (the size of a [`crate::hash::TrieHash`]).
#[derive(Debug, Clone, Copy)]
pub struct NodePath {
    data: [u8; 32],
    len: u8,
}

impl View for NodePath {
    type V = Seq<u8>;

    closed spec fn view(&self) -> Seq<u8> {
        self.data@.subrange(0, self.len as int)
    }
}

impl NodePath {
    #[verifier::type_invariant]
    closed spec fn inv(&self) -> bool {
        self.len <= 32
    }

    /// A path never outgrows a full key.
    pub(crate) fn bound(&self)
        ensures
            self@.len() <= 32,
    {
        proof {
            use_type_invariant(self);
        }
    }

    /// The path of length zero.
    pub fn empty() -> (p: NodePath)
        ensures
            p@ == Seq::<u8>::empty(),
    {
        let p = NodePath { data: [0u8; 32], len: 0 };
        assert(p@ =~= Seq::<u8>::empty());
        p
    }

    /// Create a `NodePath` from a byte slice. Returns `None` if `s.len() > 32`.
    pub fn from_slice(s: &[u8]) -> (r: Option<NodePath>)
        ensures
            r is Some <==> s@.len() <= 32,
            r matches Some(p) ==> p@ == s@,
    {
        if s.len() > 32 {
            return None;
        }
        let mut data: [u8; 32] = [0u8; 32];
        let mut i: usize = 0;
        while i < s.len()
            invariant
                i <= s@.len() <= 32,
                data@.len() == 32,
                forall|j: int| 0 <= j < i ==> data@[j] == s@[j],
            decreases s@.len() - i,
        {
            data[i] = s[i];
            i += 1;
        }
        let p = NodePath { data, len: s.len() as u8 };
        assert(p@ =~= s@);
        Some(p)
    }

    /// The path bytes as a slice.
    pub fn as_slice(&self) -> (r: &[u8])
        ensures
            r@ == self@,
            r@.len() <= 32,
    {
        proof {
            use_type_invariant(self);
        }
        vstd::slice::slice_subrange(self.data.as_slice(), 0, self.len as usize)
    }

    /// The length of the path in bytes.
    pub fn len(&self) -> (r: usize)
        ensures
            r == self@.len(),
            r <= 32,
    {
        proof {
            use_type_invariant(self);
        }
        self.len as usize
    }

    /// Returns `true` if the path is empty.
    pub fn is_empty(&self) -> (r: bool)
        ensures
            r == (self@.len() == 0),
    {
        proof {
            use_type_invariant(self);
        }
        self.len == 0
    }

    /// Set the path to the first `len` bytes of `r`. Returns `false` where `r` holds fewer bytes;
    /// the path then has that length, and holds no particular bytes.
    pub fn read_from(&mut self, len: u8, r: &[u8]) -> (ok: bool)
        requires
            len <= 32,
        ensures
            ok <==> len <= r@.len(),
            ok ==> final(self)@ == r@.take(len as int),
            !ok ==> final(self)@.len() == len,
    {
        proof {
            use_type_invariant(&*self);
        }
        if (len as usize) > r.len() {
            self.len = len;
            return false;
        }
        let head = vstd::slice::slice_subrange(r, 0, len as usize);
        assert(head@ =~= r@.take(len as int));
        match NodePath::from_slice(head) {
            Some(p) => {
                *self = p;
                true
            },
            None => false,
        }
    }

    /// Set the path from a byte slice. Returns `None`, with the path unchanged, if
    /// `s.len() > 32`.
    pub fn set_from_slice(&mut self, s: &[u8]) -> (r: Option<()>)
        ensures
            r is Some <==> s@.len() <= 32,
            r is Some ==> final(self)@ == s@,
            r is None ==> *final(self) == *old(self),
    {
        match NodePath::from_slice(s) {
            Some(p) => {
                *self = p;
                Some(())
            },
            None => None,
        }
    }
}

/// Two paths are equal if their bytes are.
impl PartialEq for NodePath {
    fn eq(&self, other: &NodePath) -> (r: bool) {
        bytes_equal(self.as_slice(), other.as_slice())
    }
}

impl Eq for NodePath {

}

impl vstd::std_specs::cmp::PartialEqSpecImpl for NodePath {
    open spec fn obeys_eq_spec() -> bool {
        true
    }

    open spec fn eq_spec(&self, other: &NodePath) -> bool {
        self@ == other@
    }
}

impl Default for NodePath {
    fn default() -> (p: NodePath)
        ensures
            p@ == Seq::<u8>::empty(),
    {
        NodePath::empty()
    }
}

} // verus!
