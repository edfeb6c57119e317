//! Big-endian and little-endian integers as byte sequences.

use vstd::prelude::*;

verus! {

/// `x` as four bytes, most significant first.
pub open spec fn be32(x: u32) -> Seq<u8> {
    seq![
        (x / 0x100_0000) as u8,
        ((x / 0x1_0000) % 0x100) as u8,
        ((x / 0x100) % 0x100) as u8,
        (x % 0x100) as u8,
    ]
}

/// The number that four bytes hold, most significant first.
pub open spec fn from_be32(s: Seq<u8>) -> u32 {
    (s[0] * 0x100_0000 + s[1] * 0x1_0000 + s[2] * 0x100 + s[3]) as u32
}

/// `x` as eight bytes, most significant first.
pub open spec fn be64(x: u64) -> Seq<u8> {
    be32((x / 0x1_0000_0000) as u32) + be32((x % 0x1_0000_0000) as u32)
}

/// The number that eight bytes hold, most significant first.
pub open spec fn from_be64(s: Seq<u8>) -> u64 {
    (from_be32(s.subrange(0, 4)) * 0x1_0000_0000 + from_be32(s.subrange(4, 8))) as u64
}

/// `x` as four bytes, least significant first.
pub open spec fn le32(x: u32) -> Seq<u8> {
    be32(x).reverse()
}

/// Writing a number and reading it back gives the number.
pub proof fn lemma_be32_round_trip(x: u32)
    ensures
        be32(x).len() == 4,
        from_be32(be32(x)) == x,
{
}

proof fn lemma_be32_parts(a: int, b: int, c: int, d: int)
    requires
        0 <= a < 0x100,
        0 <= b < 0x100,
        0 <= c < 0x100,
        0 <= d < 0x100,
    ensures
        ({
            let x = a * 0x100_0000 + b * 0x1_0000 + c * 0x100 + d;
            &&& x / 0x100_0000 == a
            &&& (x / 0x1_0000) % 0x100 == b
            &&& (x / 0x100) % 0x100 == c
            &&& x % 0x100 == d
        }),
{
    let x = a * 0x100_0000 + b * 0x1_0000 + c * 0x100 + d;
    assert(x / 0x1_0000 == a * 0x100 + b);
    assert(x / 0x100 == a * 0x1_0000 + b * 0x100 + c);
}

/// Reading four bytes and writing the number gives the bytes.
pub proof fn lemma_from_be32_round_trip(s: Seq<u8>)
    requires
        s.len() == 4,
    ensures
        be32(from_be32(s)) == s,
{
    let x = from_be32(s);
    let (a, b, c, d) = (s[0] as int, s[1] as int, s[2] as int, s[3] as int);
    assert(x == a * 0x100_0000 + b * 0x1_0000 + c * 0x100 + d);
    lemma_be32_parts(a, b, c, d);
    assert(be32(x) =~= s);
}

/// Writing a number and reading it back gives the number.
pub proof fn lemma_be64_round_trip(x: u64)
    ensures
        be64(x).len() == 8,
        from_be64(be64(x)) == x,
{
    let hi = (x / 0x1_0000_0000) as u32;
    let lo = (x % 0x1_0000_0000) as u32;
    lemma_be32_round_trip(hi);
    lemma_be32_round_trip(lo);
    assert(be64(x).subrange(0, 4) =~= be32(hi));
    assert(be64(x).subrange(4, 8) =~= be32(lo));
}

/// The number that bytes spell.
pub open spec fn number_of(s: Seq<u8>) -> nat
    decreases s.len(),
{
    if s.len() == 0 {
        0
    } else {
        number_of(s.drop_last()) * 256 + s.last() as nat
    }
}

/// How many different strings of `n` bytes there are.
pub open spec fn strings_of(n: nat) -> nat
    decreases n,
{
    if n == 0 {
        1
    } else {
        strings_of((n - 1) as nat) * 256
    }
}

/// A string of bytes spells a number that is less than the count of such strings.
pub proof fn lemma_number_bound(s: Seq<u8>)
    ensures
        number_of(s) < strings_of(s.len()),
    decreases s.len(),
{
    if s.len() > 0 {
        lemma_number_bound(s.drop_last());
    }
}

/// Different strings of one length spell different numbers.
pub proof fn lemma_number_injective(a: Seq<u8>, b: Seq<u8>)
    requires
        a.len() == b.len(),
        number_of(a) == number_of(b),
    ensures
        a == b,
    decreases a.len(),
{
    if a.len() == 0 {
        assert(a =~= b);
    } else {
        lemma_number_injective(a.drop_last(), b.drop_last());
        assert(a =~= a.drop_last().push(a.last()));
        assert(b =~= b.drop_last().push(b.last()));
    }
}

/// There are only so many different strings of `n` bytes.
pub proof fn lemma_distinct_strings(s: Seq<Seq<u8>>, n: nat)
    requires
        s.no_duplicates(),
        forall|i: int| 0 <= i < s.len() ==> (#[trigger] s[i]).len() == n,
    ensures
        s.len() <= strings_of(n),
{
    let nums = Seq::new(s.len(), |i: int| number_of(s[i]) as int);
    let max = strings_of(n) as int;
    assert forall|i: int| 0 <= i < nums.len() implies 0 <= #[trigger] nums[i] < max by {
        lemma_number_bound(s[i]);
    }
    assert forall|i: int, j: int| 0 <= i < nums.len() && 0 <= j < nums.len() && i != j implies nums[i]
        != nums[j] by {
        if nums[i] == nums[j] {
            lemma_number_injective(s[i], s[j]);
        }
    }
    nums.unique_seq_to_set();
    vstd::set_lib::lemma_int_range(0, max);
    assert(nums.to_set().subset_of(vstd::set_lib::set_int_range(0, max)));
    vstd::set_lib::lemma_len_subset(nums.to_set(), vstd::set_lib::set_int_range(0, max));
}

/// A list without duplicates has none after something new was added.
pub proof fn lemma_push_unique<A>(s: Seq<A>, x: A)
    requires
        s.no_duplicates(),
        !s.contains(x),
    ensures
        s.push(x).no_duplicates(),
{
    let t = s.push(x);
    assert forall|i: int, j: int| 0 <= i < t.len() && 0 <= j < t.len() && i != j implies t[i]
        != t[j] by {
        if i == s.len() {
            assert(s.contains(t[j]));
        } else if j == s.len() {
            assert(s.contains(t[i]));
        }
    }
}

/// Append `x`, most significant byte first.
pub fn push_be32(w: &mut Vec<u8>, x: u32)
    ensures
        final(w)@ == old(w)@ + be32(x),
{
    w.push((x / 0x100_0000) as u8);
    w.push(((x / 0x1_0000) % 0x100) as u8);
    w.push(((x / 0x100) % 0x100) as u8);
    w.push((x % 0x100) as u8);
}

/// Append `x`, most significant byte first.
pub fn push_be64(w: &mut Vec<u8>, x: u64)
    ensures
        final(w)@ == old(w)@ + be64(x),
{
    push_be32(w, (x / 0x1_0000_0000) as u32);
    push_be32(w, (x % 0x1_0000_0000) as u32);
}

/// The four bytes at `at`, as a number.
pub fn read_be32(s: &[u8], at: usize) -> (x: u32)
    requires
        at + 4 <= s@.len(),
    ensures
        x == from_be32(s@.subrange(at as int, at + 4)),
{
    let ghost t = s@.subrange(at as int, at + 4);
    assert(t[0] == s@[at as int] && t[1] == s@[at + 1] && t[2] == s@[at + 2] && t[3] == s@[at
        + 3]);
    s[at] as u32 * 0x100_0000 + s[at + 1] as u32 * 0x1_0000 + s[at + 2] as u32 * 0x100 + s[at
        + 3] as u32
}

/// The eight bytes at `at`, as a number.
pub fn read_be64(s: &[u8], at: usize) -> (x: u64)
    requires
        at + 8 <= s@.len(),
    ensures
        x == from_be64(s@.subrange(at as int, at + 8)),
{
    let n = s.len();
    let hi = read_be32(s, at);
    let lo = read_be32(s, at + 4);
    let ghost t = s@.subrange(at as int, at + 8);
    assert(t.subrange(0, 4) =~= s@.subrange(at as int, at + 4));
    assert(t.subrange(4, 8) =~= s@.subrange(at + 4, at + 8));
    hi as u64 * 0x1_0000_0000 + lo as u64
}

/// Append the bytes of `s`.
pub fn push_all(w: &mut Vec<u8>, s: &[u8])
    ensures
        final(w)@ == old(w)@ + s@,
{
    w.extend_from_slice(s);
    assert(w@ =~= old(w)@ + s@);
}

/// Are the two slices the same bytes?
pub fn bytes_equal(a: &[u8], b: &[u8]) -> (r: bool)
    ensures
        r == (a@ == b@),
{
    if a.len() != b.len() {
        return false;
    }
    let mut i: usize = 0;
    while i < a.len()
        invariant
            i <= a@.len(),
            a@.len() == b@.len(),
            a@.subrange(0, i as int) == b@.subrange(0, i as int),
        decreases a@.len() - i,
    {
        if a[i] != b[i] {
            assert(a@ != b@);
            return false;
        }
        assert(a@.subrange(0, i + 1) =~= a@.subrange(0, i as int).push(a@[i as int]));
        assert(b@.subrange(0, i + 1) =~= b@.subrange(0, i as int).push(b@[i as int]));
        i += 1;
    }
    assert(a@.subrange(0, i as int) =~= a@);
    assert(b@.subrange(0, i as int) =~= b@);
    true
}

/// The bytes from `at` to the end, or `None` where `at` lies past the end.
pub fn tail(s: &[u8], at: usize) -> (r: Option<&[u8]>)
    ensures
        r is Some <==> at <= s@.len(),
        r matches Some(t) ==> t@ == s@.skip(at as int),
{
    if at <= s.len() {
        let t = vstd::slice::slice_subrange(s, at, s.len());
        assert(t@ =~= s@.skip(at as int));
        Some(t)
    } else {
        None
    }
}

/// The bytes `from..to`, or `None` where they are not all there.
pub fn range(s: &[u8], from: usize, to: usize) -> (r: Option<&[u8]>)
    ensures
        r is Some <==> from <= to <= s@.len(),
        r matches Some(t) ==> t@ == s@.subrange(from as int, to as int),
{
    if from <= to && to <= s.len() {
        Some(vstd::slice::slice_subrange(s, from, to))
    } else {
        None
    }
}

/// The first 32 bytes of `s` as an array.
pub fn array32(s: &[u8]) -> (r: [u8; 32])
    requires
        s@.len() >= 32,
    ensures
        r@ == s@.subrange(0, 32),
{
    let mut out: [u8; 32] = [0u8; 32];
    let mut i: usize = 0;
    while i < 32
        invariant
            i <= 32,
            s@.len() >= 32,
            out@.len() == 32,
            forall|j: int| 0 <= j < i ==> out@[j] == s@[j],
        decreases 32 - i,
    {
        out[i] = s[i];
        i += 1;
    }
    assert(out@ =~= s@.subrange(0, 32));
    out
}

/// The first 40 bytes of `s` as an array.
pub fn array40(s: &[u8]) -> (r: [u8; 40])
    requires
        s@.len() >= 40,
    ensures
        r@ == s@.subrange(0, 40),
{
    let mut out: [u8; 40] = [0u8; 40];
    let mut i: usize = 0;
    while i < 40
        invariant
            i <= 40,
            s@.len() >= 40,
            out@.len() == 40,
            forall|j: int| 0 <= j < i ==> out@[j] == s@[j],
        decreases 40 - i,
    {
        out[i] = s[i];
        i += 1;
    }
    assert(out@ =~= s@.subrange(0, 40));
    out
}

} // verus!
