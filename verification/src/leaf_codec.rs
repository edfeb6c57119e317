//! Leaves as messages: the length of the path in four bytes, the path, and the value.

use crate::bytes::{
    array40, be32, from_be32, lemma_be32_round_trip, push_all, push_be32, read_be32,
};
use crate::error::CodecError;
use crate::text::push_number;
use crate::value::{MARFValue, TrieLeaf};
use vstd::prelude::*;

verus! {

/// A leaf as a message.
pub open spec fn leaf_message(path: Seq<u8>, data: Seq<u8>) -> Seq<u8> {
    be32(path.len() as u32) + path + data
}

/// The leaf at the head of `s`, and the bytes it takes.
pub open spec fn parse_leaf_message(s: Seq<u8>) -> Option<(Seq<u8>, Seq<u8>, nat)> {
    if s.len() < 4 {
        None
    } else {
        let n = from_be32(s.subrange(0, 4));
        if n > 32 || s.len() < 4 + n + 40 {
            None
        } else {
            Some((s.subrange(4, 4 + n), s.subrange(4 + n, 44 + n), (44 + n) as nat))
        }
    }
}

/// A leaf that was written reads back as itself, whatever follows it.
pub proof fn law_leaf_message_round_trip(path: Seq<u8>, data: Seq<u8>, rest: Seq<u8>)
    requires
        path.len() <= 32,
        data.len() == 40,
    ensures
        parse_leaf_message(leaf_message(path, data) + rest) == Some((path, data, 44 + path.len())),
{
    let s = leaf_message(path, data) + rest;
    let n = path.len() as int;
    lemma_be32_round_trip(path.len() as u32);
    assert(s.subrange(0, 4) =~= be32(path.len() as u32));
    assert(s.subrange(4, 4 + n) =~= path);
    assert(s.subrange(4 + n, 44 + n) =~= data);
}

impl TrieLeaf {
    /// Append the leaf as a message.
    pub fn consensus_serialize(&self, fd: &mut Vec<u8>)
        ensures
            final(fd)@ == old(fd)@ + leaf_message(self.path@, self.data@),
    {
        let path = self.path.as_slice();
        push_be32(fd, path.len() as u32);
        push_all(fd, path);
        push_all(fd, self.data.as_bytes());
        assert(fd@ =~= old(fd)@ + leaf_message(self.path@, self.data@));
    }

    /// The leaf at the head of `bytes`, and the bytes it takes. A path that is too long, or not all
    /// there, spells no leaf; a length or a value that is not all there ends too early.
    pub fn consensus_deserialize(bytes: &[u8]) -> (r: Result<(TrieLeaf, usize), CodecError>)
        ensures
            match r {
                Ok((leaf, n)) => parse_leaf_message(bytes@) == Some(
                    (leaf.path@, leaf.data@, n as nat),
                ),
                Err(e) => {
                    let s = bytes@;
                    let n = from_be32(s.subrange(0, 4));
                    &&& parse_leaf_message(s) is None
                    &&& e is ReadError <==> s.len() < 4 || (n <= 32 && 4 + n <= s.len())
                    &&& e is DeserializeError <==> s.len() >= 4 && (n > 32 || s.len() < 4 + n)
                },
            },
    {
        let have = bytes.len();
        if have < 4 {
            return Err(CodecError::ReadError);
        }
        let n = read_be32(bytes, 0);
        if n > 32 {
            let mut m = "TrieLeaf path length ".to_owned();
            push_number(&mut m, n as u64, 10, 0);
            m.append(" exceeds maximum of 32");
            return Err(CodecError::DeserializeError(m));
        }
        let n = n as usize;
        if have < 4 + n {
            return Err(CodecError::DeserializeError("Failed to read path".to_owned()));
        }
        if have < 44 + n {
            return Err(CodecError::ReadError);
        }
        let path = vstd::slice::slice_subrange(bytes, 4, 4 + n);
        let data = array40(vstd::slice::slice_subrange(bytes, 4 + n, 44 + n));
        assert(data@ =~= bytes@.subrange(4 + n, 44 + n));
        Ok((TrieLeaf::from_value(path, MARFValue(data)), 44 + n))
    }
}

} // verus!
