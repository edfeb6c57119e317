//! How many bytes a node can take, and why reading that many is enough: what stands at the head
//! of a long byte string decodes alike from a window on its first bytes.

use crate::bits::{
    bitmap_size, parse_dense, parse_full, parse_path, parse_ptrs, parse_sparse,
};
use crate::error::{corruption, Error};
use crate::model::{kind_slots, parse_node};
use crate::node_id::{clear_ctrl_bits, TrieNodeID};
use crate::patch::parse_patch;
use crate::ptr::{parse_ptr, parse_ptr_compressed};
use vstd::prelude::*;

verus! {

/// The most bytes that an item of this kind can take, its hash not counted. `None` for an empty
/// slot, which is no item, and for a squashed leaf, whose form only the caller knows.
pub open spec fn max_body_len(kind: TrieNodeID) -> Option<usize> {
    match kind {
        TrieNodeID::Leaf => Some(74),
        TrieNodeID::Node4 => Some(107),
        TrieNodeID::Node16 => Some(227),
        TrieNodeID::Node48 => Some(803),
        TrieNodeID::Node256 => Some(2627),
        TrieNodeID::Patch => Some(2572),
        _ => None,
    }
}

/// The kind that an identifier names, control bits aside.
pub open spec fn kind_of(id: u8) -> Option<TrieNodeID> {
    TrieNodeID::spec_from_u8(clear_ctrl_bits(id))
}

/// The most bytes that the body of an item with this identifier can take.
pub fn get_node_body_max_byte_len(id: u8) -> (r: Result<usize, Error>)
    ensures
        match r {
            Ok(n) => kind_of(id) is Some && max_body_len(kind_of(id).unwrap()) == Some(n) && n
                <= 2627,
            Err(e) => e is CorruptionError && (kind_of(id) matches Some(k) ==> max_body_len(k)
                is None),
        },
{
    match TrieNodeID::from_u8(clear_ctrl_bits(id)) {
        Some(TrieNodeID::Leaf) => Ok(74),
        Some(TrieNodeID::Node4) => Ok(107),
        Some(TrieNodeID::Node16) => Ok(227),
        Some(TrieNodeID::Node48) => Ok(803),
        Some(TrieNodeID::Node256) => Ok(2627),
        Some(TrieNodeID::Patch) => Ok(2572),
        _ => Err(corruption("Not a node kind with a known size")),
    }
}

/// The most bytes that an item with this identifier can take, with its hash.
pub fn get_node_max_byte_len(id: u8) -> (r: Result<usize, Error>)
    ensures
        match r {
            Ok(n) => kind_of(id) is Some && (max_body_len(kind_of(id).unwrap()) matches Some(b)
                && n == 32 + b) && n <= 2659,
            Err(e) => e is CorruptionError && (kind_of(id) matches Some(k) ==> max_body_len(k)
                is None),
        },
{
    match get_node_body_max_byte_len(id) {
        Ok(n) => Ok(32 + n),
        Err(e) => Err(e),
    }
}

/// Is `t` the whole of `s`, or at least its first `b` bytes?
pub open spec fn is_window(t: Seq<u8>, s: Seq<u8>, b: int) -> bool {
    &&& t.len() <= s.len()
    &&& t == s.take(t.len() as int)
    &&& t.len() >= b || t.len() == s.len()
}

proof fn lemma_skip_window(t: Seq<u8>, s: Seq<u8>, b: int, k: int)
    requires
        is_window(t, s, b),
        0 <= k <= t.len(),
    ensures
        is_window(t.skip(k), s.skip(k), b - k),
{
    assert(t.skip(k) =~= s.skip(k).take(t.skip(k).len() as int));
}

proof fn lemma_path_window(t: Seq<u8>, s: Seq<u8>)
    requires
        is_window(t, s, 33),
    ensures
        parse_path(t) == parse_path(s),
        parse_path(s) matches Some((path, n)) ==> n <= 33 && n <= s.len(),
{
    if s.len() > 0 && s[0] <= 32 && s.len() >= 1 + s[0] {
        assert(t[0] == s[0]);
        assert(t.subrange(1, 1 + s[0]) =~= s.subrange(1, 1 + s[0]));
    }
}

proof fn lemma_ptr_window(t: Seq<u8>, s: Seq<u8>)
    requires
        is_window(t, s, 10),
    ensures
        parse_ptr_compressed(t) == parse_ptr_compressed(s),
        parse_ptr_compressed(s) matches Some((p, n)) ==> n <= 10 && n <= s.len(),
{
    if s.len() > 0 {
        assert(t[0] == s[0]);
        if s.len() >= 10 {
            assert(t.subrange(2, 6) =~= s.subrange(2, 6));
            assert(t.subrange(6, 10) =~= s.subrange(6, 10));
        } else {
            assert(t =~= s);
        }
    }
}

proof fn lemma_dense_window(t: Seq<u8>, s: Seq<u8>, n: nat)
    requires
        is_window(t, s, 10 * n as int),
    ensures
        parse_dense(t, n) == parse_dense(s, n),
        parse_dense(s, n) matches Some((ptrs, used)) ==> used <= 10 * n && used <= s.len(),
    decreases n,
{
    if n > 0 {
        lemma_dense_window(t, s, (n - 1) as nat);
        if let Some((ptrs, used)) = parse_dense(s, (n - 1) as nat) {
            if used <= t.len() {
                lemma_skip_window(t, s, 10 * n as int, used as int);
                lemma_ptr_window(t.skip(used as int), s.skip(used as int));
            }
        }
    }
}

proof fn lemma_sparse_window(bm: Seq<u8>, t: Seq<u8>, s: Seq<u8>, n: nat)
    requires
        is_window(t, s, 10 * n as int),
    ensures
        parse_sparse(bm, t, n) == parse_sparse(bm, s, n),
        parse_sparse(bm, s, n) matches Some((ptrs, used)) ==> used <= 10 * n && used <= s.len(),
    decreases n,
{
    if n > 0 {
        lemma_sparse_window(bm, t, s, (n - 1) as nat);
        if let Some((ptrs, used)) = parse_sparse(bm, s, (n - 1) as nat) {
            if used <= t.len() {
                lemma_skip_window(t, s, 10 * n as int, used as int);
                lemma_ptr_window(t.skip(used as int), s.skip(used as int));
            }
        }
    }
}

proof fn lemma_full_window(t: Seq<u8>, s: Seq<u8>, n: nat)
    requires
        is_window(t, s, 10 * n as int),
    ensures
        parse_full(t, n) == parse_full(s, n),
{
    if s.len() >= 10 * n {
        assert forall|i: int| 0 <= i < n implies parse_ptr(#[trigger] t.skip(10 * i)) == parse_ptr(
            s.skip(10 * i),
        ) by {
            let a = t.skip(10 * i);
            let b = s.skip(10 * i);
            assert(a[0] == b[0] && a[1] == b[1]);
            assert(a.subrange(2, 6) =~= b.subrange(2, 6));
            assert(a.subrange(6, 10) =~= b.subrange(6, 10));
        }
        assert(Seq::new(n, |i: int| parse_ptr(t.skip(10 * i))) =~= Seq::new(
            n,
            |i: int| parse_ptr(s.skip(10 * i)),
        ));
    }
}

proof fn lemma_ptrs_window(id: u8, t: Seq<u8>, s: Seq<u8>, n: nat)
    requires
        is_window(t, s, 34 + 10 * n as int),
    ensures
        parse_ptrs(id, t, n) == parse_ptrs(id, s, n),
        parse_ptrs(id, s, n) matches Some((ptrs, used)) ==> used <= 34 + 10 * n && used <= s.len(),
{
    if s.len() > 0 {
        assert(t[0] == s[0]);
        let a = t.skip(1);
        let b = s.skip(1);
        lemma_skip_window(t, s, 34 + 10 * n as int, 1);
        lemma_full_window(a, b, n);
        lemma_dense_window(a, b, n);
        if b.len() > 0 {
            assert(a[0] == b[0]);
            if let Some(size) = bitmap_size(s[0]) {
                if b.len() >= 1 + size {
                    assert(a.subrange(1, 1 + size) =~= b.subrange(1, 1 + size));
                    lemma_skip_window(a, b, 33 + 10 * n as int, 1 + size);
                    lemma_sparse_window(
                        b.subrange(1, 1 + size),
                        a.skip(1 + size),
                        b.skip(1 + size),
                        n,
                    );
                }
            }
        }
    }
}

/// A node decodes alike from a window of the most bytes that its kind can take, and takes no
/// more than those.
pub proof fn law_node_window(kind: TrieNodeID, t: Seq<u8>, s: Seq<u8>)
    requires
        max_body_len(kind) is Some,
        is_window(t, s, max_body_len(kind).unwrap() as int),
    ensures
        parse_node(kind, t) == parse_node(kind, s),
        parse_node(kind, s) matches Some((m, n)) ==> n <= max_body_len(kind).unwrap() && n
            <= s.len(),
{
    if kind is Leaf {
        if s.len() > 0 {
            assert(t[0] == s[0]);
            lemma_skip_window(t, s, 74, 1);
            lemma_path_window(t.skip(1), s.skip(1));
            if let Some((path, n)) = parse_path(s.skip(1)) {
                if s.len() >= 1 + n + 40 {
                    assert(t.subrange(1 + n as int, 41 + n as int) =~= s.subrange(
                        1 + n as int,
                        41 + n as int,
                    ));
                }
            }
        }
    } else if kind_slots(kind) > 0 {
        let b = max_body_len(kind).unwrap() as int;
        lemma_ptrs_window(kind.spec_to_u8(), t, s, kind_slots(kind));
        if let Some((ptrs, used)) = parse_ptrs(kind.spec_to_u8(), s, kind_slots(kind)) {
            let indexed: nat = if kind is Node48 {
                256
            } else {
                0
            };
            if s.len() >= used + indexed {
                assert(Seq::new(indexed, |i: int| crate::model::byte_index(t[used + i]))
                    =~= Seq::new(indexed, |i: int| crate::model::byte_index(s[used + i])));
                lemma_skip_window(t, s, b, (used + indexed) as int);
                lemma_path_window(
                    t.skip((used + indexed) as int),
                    s.skip((used + indexed) as int),
                );
            }
        }
    }
}

/// A patch decodes alike from a window of the most bytes that a patch can take, and takes no more
/// than those.
pub proof fn law_patch_window(t: Seq<u8>, s: Seq<u8>)
    requires
        is_window(t, s, 2572),
    ensures
        parse_patch(t) == parse_patch(s),
        parse_patch(s) matches Some((ptr, diff, n)) ==> n <= 2572 && n <= s.len(),
{
    if s.len() > 0 {
        assert(t[0] == s[0]);
        lemma_skip_window(t, s, 2572, 1);
        lemma_ptr_window(t.skip(1), s.skip(1));
        if let Some((ptr, n)) = parse_ptr_compressed(s.skip(1)) {
            if s.len() > 1 + n {
                assert(t[1 + n] == s[1 + n]);
                lemma_skip_window(t, s, 2572, 2 + n);
                let a = t.skip(2 + n);
                let b = s.skip(2 + n);
                assert(is_window(a, b, 10 * (s[1 + n] as nat + 1) as int));
                lemma_dense_window(a, b, s[1 + n] as nat + 1);
            }
        }
    }
}

} // verus!
