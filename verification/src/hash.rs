//! Hashes of trie nodes and keys, and the SHA-512/256 function behind them.

use crate::bytes::array32;
use sha2::Digest;
use vstd::prelude::*;
use vstd::string::StringSliceAdditionalSpecFns;

verus! {

/// Bytes in an encoded [`TrieHash`].
pub const TRIEHASH_ENCODED_SIZE: usize = 32;

/// Bytes in an encoded block header hash.
pub const BLOCK_HEADER_HASH_ENCODED_SIZE: usize = 32;

/// Hash of a trie node, or the 32-byte path under which a key is stored.
#[derive(Debug, Clone, Copy, PartialEq, Eq, Hash)]
pub struct TrieHash(pub [u8; 32]);

impl View for TrieHash {
    type V = Seq<u8>;

    open spec fn view(&self) -> Seq<u8> {
        self.0@
    }
}

/// The SHA-512/256 digest of a byte string.
pub uninterp spec fn sha512_256(data: Seq<u8>) -> Seq<u8>;

/// `sha2::Sha512_256::digest`: the FIPS 180-4 digest of `data`, always 32 bytes and a function
/// of `data` alone.
#[verifier::external_body]
fn sha512_256_digest(data: &[u8]) -> (h: [u8; 32])
    ensures
        h@ == sha512_256(data@),
{
    sha2::Sha512_256::digest(data).into()
}

impl TrieHash {
    /// The hash that marks a node which has not been hashed yet.
    pub fn empty() -> (h: TrieHash)
        ensures
            h@ == Seq::new(32, |i: int| 0u8),
    {
        let h = TrieHash([0u8; 32]);
        assert(h@ =~= Seq::new(32, |i: int| 0u8));
        h
    }

    /// The digest of `data`.
    pub fn from_data(data: &[u8]) -> (h: TrieHash)
        ensures
            h@ == sha512_256(data@),
    {
        TrieHash(sha512_256_digest(data))
    }

    /// The path under which `key` is stored.
    pub fn from_key(key: &str) -> (h: TrieHash)
        ensures
            h@ == sha512_256(key.spec_bytes()),
    {
        TrieHash::from_data(key.as_bytes())
    }

    /// The hash that `bytes` spells, where it has the right length.
    pub fn from_bytes(bytes: &[u8]) -> (r: Option<TrieHash>)
        ensures
            r is Some <==> bytes@.len() == 32,
            r matches Some(h) ==> h@ == bytes@,
    {
        if bytes.len() == 32 {
            let a = array32(bytes);
            assert(a@ =~= bytes@);
            Some(TrieHash(a))
        } else {
            None
        }
    }

    pub fn as_bytes(&self) -> (b: &[u8; 32])
        ensures
            *b == self.0,
    {
        &self.0
    }
}

} // verus!
