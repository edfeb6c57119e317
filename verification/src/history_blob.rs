//! Per-level history blobs for squash levels that keep full history.
//!
//! A history blob holds one chunk per distinct key: the full `(height, value)` history of the
//! key in the squash range, sorted descending by height.
//!
//! ```text
//! header   10 bytes   magic(4) + version(1) + flags(1) + level_id(4)
//! chunks              chunk header(6) + entries(entry_count x 44)
//! footer   24 bytes   chunk_count(4) + total_entry_count(8) + body_len(8) + magic(4)
//! ```
//!
//! The trailing magic tells a fully written blob from a torn one.

use crate::bytes::{
    array40, be32, be64, bytes_equal, from_be32, from_be64, lemma_be32_round_trip,
    lemma_be64_round_trip, push_all, push_be32, push_be64, read_be32, read_be64,
};
use crate::error::{corruption, corruption_of, Error, Piece};
use crate::value::MARFValue;
use vstd::prelude::*;

verus! {

/// Magic bytes at the start of the file header and end of the file footer: `MHIS`.
pub const HISTORY_BLOB_MAGIC: [u8; 4] = [0x4d, 0x48, 0x49, 0x53];

/// File-format version.
pub const HISTORY_BLOB_VERSION: u8 = 1;

/// Header bit 0: chunk entries use the fixed-size value encoding.
pub const HISTORY_BLOB_FLAG_FIXED_VALUE_ENCODING: u8 = 0x01;

/// Fixed file-header size in bytes.
pub const HISTORY_BLOB_HEADER_SIZE: usize = 10;

/// Fixed file-footer size in bytes.
pub const HISTORY_BLOB_FOOTER_SIZE: usize = 24;

/// Fixed chunk-header size in bytes.
pub const HISTORY_CHUNK_HEADER_SIZE: usize = 6;

/// Per-entry payload in fixed-encoding chunks: height(4) + value(40).
pub const HISTORY_CHUNK_ENTRY_SIZE_V1: usize = 44;

/// Chunk-format version.
pub const HISTORY_CHUNK_VERSION: u8 = 1;

/// Chunk flag bit 0: entries use the fixed-size value encoding.
pub const HISTORY_CHUNK_FLAG_FIXED_VALUE_ENCODING: u8 = 0x01;

/// The magic bytes.
pub open spec fn magic() -> Seq<u8> {
    seq![0x4du8, 0x48u8, 0x49u8, 0x53u8]
}

/// Identifying header at the start of a history blob. Written once, never rewritten.
#[derive(Debug, Clone, Copy, PartialEq, Eq, Structural)]
pub struct HistoryBlobHeader {
    pub version: u8,
    pub flags: u8,
    pub level_id: u32,
}

/// Trailing footer at the end of a history blob. Written once, when the blob is complete.
#[derive(Debug, Clone, Copy, PartialEq, Eq, Structural)]
pub struct HistoryBlobFooter {
    /// Number of chunks in this blob.
    pub chunk_count: u32,
    /// Sum of `entry_count` across the chunks.
    pub total_entry_count: u64,
    /// Bytes from end-of-header to start-of-footer.
    pub body_len: u64,
}

/// Per-chunk header.
#[derive(Debug, Clone, Copy, PartialEq, Eq, Structural)]
pub struct HistoryChunkHeader {
    pub version: u8,
    pub flags: u8,
    pub entry_count: u32,
}

// ---------------------------------------------------------------------------------------
// Models
// ---------------------------------------------------------------------------------------
/// The stored form of a blob header.
pub open spec fn header_bytes(h: HistoryBlobHeader) -> Seq<u8> {
    magic() + seq![h.version, h.flags] + be32(h.level_id)
}

/// The header at the head of `s`, where it is one of this format.
pub open spec fn parse_header(s: Seq<u8>) -> Option<HistoryBlobHeader> {
    if s.len() < 10 || s.subrange(0, 4) != magic() || s[4] != 1 || s[5] != 1 {
        None
    } else {
        Some(
            HistoryBlobHeader { version: s[4], flags: s[5], level_id: from_be32(s.subrange(6, 10)) },
        )
    }
}

/// The stored form of a blob footer.
pub open spec fn footer_bytes(f: HistoryBlobFooter) -> Seq<u8> {
    be32(f.chunk_count) + be64(f.total_entry_count) + be64(f.body_len) + magic()
}

/// The footer at the head of `s`, where it ends in the magic.
pub open spec fn parse_footer(s: Seq<u8>) -> Option<HistoryBlobFooter> {
    if s.len() < 24 || s.subrange(20, 24) != magic() {
        None
    } else {
        Some(
            HistoryBlobFooter {
                chunk_count: from_be32(s.subrange(0, 4)),
                total_entry_count: from_be64(s.subrange(4, 12)),
                body_len: from_be64(s.subrange(12, 20)),
            },
        )
    }
}

/// The stored form of a chunk header.
pub open spec fn chunk_header_bytes(h: HistoryChunkHeader) -> Seq<u8> {
    seq![h.version, h.flags] + be32(h.entry_count)
}

/// The chunk header at the head of `s`, where it is one of this format and not empty.
pub open spec fn parse_chunk_header(s: Seq<u8>) -> Option<HistoryChunkHeader> {
    if s.len() < 6 || s[0] != 1 || s[1] != 1 || from_be32(s.subrange(2, 6)) == 0 {
        None
    } else {
        Some(
            HistoryChunkHeader {
                version: s[0],
                flags: s[1],
                entry_count: from_be32(s.subrange(2, 6)),
            },
        )
    }
}

/// Bytes in a chunk of `n` entries.
pub open spec fn chunk_len(n: int) -> int {
    6 + 44 * n
}

/// The entries, one after the other.
pub open spec fn entries_bytes(entries: Seq<(u32, MARFValue)>) -> Seq<u8>
    decreases entries.len(),
{
    if entries.len() == 0 {
        Seq::empty()
    } else {
        entries_bytes(entries.drop_last()) + be32(entries.last().0) + entries.last().1@
    }
}

/// The stored form of a chunk.
pub open spec fn chunk_bytes(entries: Seq<(u32, MARFValue)>) -> Seq<u8> {
    chunk_header_bytes(
        HistoryChunkHeader { version: 1, flags: 1, entry_count: entries.len() as u32 },
    ) + entries_bytes(entries)
}

/// The height of entry `i`.
pub open spec fn entry_height(s: Seq<u8>, i: int) -> u32 {
    from_be32(s.subrange(44 * i, 44 * i + 4))
}

/// The value of entry `i`.
pub open spec fn entry_value(s: Seq<u8>, i: int) -> Seq<u8> {
    s.subrange(44 * i + 4, 44 * i + 44)
}

/// Do the bytes hold these entries?
pub open spec fn holds_entries(s: Seq<u8>, entries: Seq<(u32, MARFValue)>) -> bool {
    forall|i: int|
        0 <= i < entries.len() ==> #[trigger] entry_height(s, i) == entries[i].0 && entry_value(s, i)
            == entries[i].1@
}

/// Where the search for the first entry at or below `query` between `lo` and `hi` ends.
pub open spec fn search(s: Seq<u8>, query: u32, lo: int, hi: int) -> int
    decreases hi - lo,
{
    if lo >= hi {
        lo
    } else {
        let mid = lo + (hi - lo) / 2;
        if entry_height(s, mid) > query {
            search(s, query, mid + 1, hi)
        } else {
            search(s, query, lo, mid)
        }
    }
}

/// Are the heights of the `n` entries descending?
pub open spec fn heights_descending(s: Seq<u8>, n: int) -> bool {
    forall|i: int, j: int| 0 <= i <= j < n ==> entry_height(s, i) >= entry_height(s, j)
}

/// Is entry `i` the latest that is not later than the query: it is not, and all before it are?
pub open spec fn is_latest(s: Seq<u8>, n: int, query: u32, i: int) -> bool {
    &&& 0 <= i < n
    &&& entry_height(s, i) <= query
    &&& forall|j: int| 0 <= j < i ==> #[trigger] entry_height(s, j) > query
}

/// Are the entries sorted descending by height?
pub open spec fn descending(entries: Seq<(u32, MARFValue)>) -> bool {
    forall|i: int, j: int|
        0 <= i <= j < entries.len() ==> (#[trigger] entries[i]).0 >= (#[trigger] entries[j]).0
}

/// The header and footer of a blob, where it is complete and of this format, and of level
/// `level` if one is asked for.
pub open spec fn opened(s: Seq<u8>, level: Option<u32>) -> Option<
    (HistoryBlobHeader, HistoryBlobFooter),
> {
    if s.len() < 34 {
        None
    } else {
        match (parse_header(s), parse_footer(s.skip(s.len() - 24))) {
            (Some(h), Some(f)) => if (level is Some && level != Some(h.level_id)) || s.len() != 10
                + f.body_len + 24 {
                None
            } else {
                Some((h, f))
            },
            _ => None,
        }
    }
}

/// Does the blob `s` with a body of `body_len` bytes have a chunk of `count` entries and
/// `byte_len` bytes at `offset`?
pub open spec fn has_chunk(s: Seq<u8>, body_len: int, offset: int, byte_len: int, count: int) -> bool {
    &&& byte_len == chunk_len(count)
    &&& 10 <= offset
    &&& offset + byte_len <= 10 + body_len
    &&& parse_chunk_header(s.skip(offset)) matches Some(h) && h.entry_count == count
}

// ---------------------------------------------------------------------------------------
// Laws
// ---------------------------------------------------------------------------------------
/// A header that was encoded decodes to itself.
pub proof fn law_header_round_trip(h: HistoryBlobHeader, rest: Seq<u8>)
    requires
        h.version == 1,
        h.flags == 1,
    ensures
        header_bytes(h).len() == 10,
        parse_header(header_bytes(h) + rest) == Some(h),
{
    let s = header_bytes(h) + rest;
    lemma_be32_round_trip(h.level_id);
    assert(s.subrange(0, 4) =~= magic());
    assert(s.subrange(6, 10) =~= be32(h.level_id));
}

/// A footer that was encoded decodes to itself.
pub proof fn law_footer_round_trip(f: HistoryBlobFooter, rest: Seq<u8>)
    ensures
        footer_bytes(f).len() == 24,
        parse_footer(footer_bytes(f) + rest) == Some(f),
{
    let s = footer_bytes(f) + rest;
    lemma_be32_round_trip(f.chunk_count);
    lemma_be64_round_trip(f.total_entry_count);
    lemma_be64_round_trip(f.body_len);
    assert(s.subrange(0, 4) =~= be32(f.chunk_count));
    assert(s.subrange(4, 12) =~= be64(f.total_entry_count));
    assert(s.subrange(12, 20) =~= be64(f.body_len));
    assert(s.subrange(20, 24) =~= magic());
}

/// A chunk header that was encoded decodes to itself.
pub proof fn law_chunk_header_round_trip(h: HistoryChunkHeader, rest: Seq<u8>)
    requires
        h.version == 1,
        h.flags == 1,
        h.entry_count != 0,
    ensures
        chunk_header_bytes(h).len() == 6,
        parse_chunk_header(chunk_header_bytes(h) + rest) == Some(h),
{
    let s = chunk_header_bytes(h) + rest;
    lemma_be32_round_trip(h.entry_count);
    assert(s.subrange(2, 6) =~= be32(h.entry_count));
}

proof fn lemma_entries_len(entries: Seq<(u32, MARFValue)>)
    ensures
        entries_bytes(entries).len() == 44 * entries.len(),
    decreases entries.len(),
{
    if entries.len() > 0 {
        lemma_entries_len(entries.drop_last());
        lemma_be32_round_trip(entries.last().0);
    }
}

proof fn lemma_entry_read_back(entries: Seq<(u32, MARFValue)>, rest: Seq<u8>, i: int)
    requires
        0 <= i < entries.len(),
    ensures
        entry_height(entries_bytes(entries) + rest, i) == entries[i].0,
        entry_value(entries_bytes(entries) + rest, i) == entries[i].1@,
    decreases entries.len(),
{
    let s = entries_bytes(entries) + rest;
    let front = entries.drop_last();
    lemma_entries_len(front);
    lemma_be32_round_trip(entries.last().0);
    if i == entries.len() - 1 {
        assert(s.subrange(44 * i, 44 * i + 4) =~= be32(entries.last().0));
        assert(s.subrange(44 * i + 4, 44 * i + 44) =~= entries.last().1@);
    } else {
        let tail = be32(entries.last().0) + entries.last().1@ + rest;
        lemma_entry_read_back(front, tail, i);
        assert(s =~= entries_bytes(front) + tail);
    }
}

/// A chunk that was appended to a blob is read back at its offset, entry by entry, whatever
/// stands before and behind it in the blob.
#[verifier::spinoff_prover]
pub proof fn law_chunk_read_back(
    before: Seq<u8>,
    entries: Seq<(u32, MARFValue)>,
    behind: Seq<u8>,
    body_len: int,
)
    requires
        10 <= before.len(),
        1 <= entries.len() <= u32::MAX,
        before.len() + chunk_len(entries.len() as int) <= 10 + body_len,
    ensures
        ({
            let s = before + chunk_bytes(entries) + behind;
            let n = entries.len() as int;
            let e = s.subrange(before.len() as int + 6, before.len() + chunk_len(n));
            &&& has_chunk(s, body_len, before.len() as int, chunk_len(n), n)
            &&& chunk_bytes(entries).len() == chunk_len(n)
            &&& holds_entries(e, entries)
        }),
{
    let s = before + chunk_bytes(entries) + behind;
    let n = entries.len() as int;
    let h = HistoryChunkHeader { version: 1, flags: 1, entry_count: entries.len() as u32 };
    lemma_entries_len(entries);
    law_chunk_header_round_trip(h, entries_bytes(entries) + behind);
    assert(s.skip(before.len() as int) =~= chunk_header_bytes(h) + (entries_bytes(entries)
        + behind));
    let e = s.subrange(before.len() as int + 6, before.len() + chunk_len(n));
    assert(chunk_bytes(entries).len() == chunk_len(n));
    assert(has_chunk(s, body_len, before.len() as int, chunk_len(n), n));
    assert(e =~= entries_bytes(entries) + Seq::empty());
    assert(holds_entries(e, entries)) by {
        assert forall|i: int| 0 <= i < entries.len() implies #[trigger] entry_height(e, i)
            == entries[i].0 && entry_value(e, i) == entries[i].1@ by {
            lemma_entry_read_back(entries, Seq::empty(), i);
        }
    }
}

/// A blob that was finished opens: header, any body, and the footer that tells its length.
pub proof fn law_finished_blob_opens(
    level_id: u32,
    body: Seq<u8>,
    chunk_count: u32,
    total_entry_count: u64,
)
    requires
        body.len() <= u64::MAX,
    ensures
        ({
            let h = HistoryBlobHeader { version: 1, flags: 1, level_id };
            let f = HistoryBlobFooter {
                chunk_count,
                total_entry_count,
                body_len: body.len() as u64,
            };
            let s = header_bytes(h) + body + footer_bytes(f);
            &&& opened(s, Some(level_id)) == Some((h, f))
            &&& opened(s, None) == Some((h, f))
        }),
{
    let h = HistoryBlobHeader { version: 1, flags: 1, level_id };
    let f = HistoryBlobFooter { chunk_count, total_entry_count, body_len: body.len() as u64 };
    let s = header_bytes(h) + body + footer_bytes(f);
    law_header_round_trip(h, body + footer_bytes(f));
    law_footer_round_trip(f, Seq::empty());
    assert(s =~= header_bytes(h) + (body + footer_bytes(f)));
    assert(s.skip(s.len() - 24) =~= footer_bytes(f) + Seq::empty());
}

/// A blob that lost bytes at its end opens only where the bytes it now ends in happen to be a
/// footer of their own, which tells the shorter length; with its own footer it cannot.
pub proof fn law_truncated_blob_rejected(s: Seq<u8>, keep: int)
    requires
        opened(s, None) is Some,
        0 <= keep < s.len(),
    ensures
        opened(s.take(keep), None) matches Some((h, f)) ==> f.body_len == keep - 34 && f
            != opened(s, None).unwrap().1,
{
}

proof fn lemma_search(s: Seq<u8>, query: u32, lo: int, hi: int, n: int)
    requires
        0 <= lo <= hi <= n,
        heights_descending(s, n),
        forall|i: int| 0 <= i < lo ==> entry_height(s, i) > query,
        forall|i: int| hi <= i < n ==> entry_height(s, i) <= query,
    ensures
        lo <= search(s, query, lo, hi) <= hi,
        forall|i: int| 0 <= i < search(s, query, lo, hi) ==> entry_height(s, i) > query,
        forall|i: int| search(s, query, lo, hi) <= i < n ==> entry_height(s, i) <= query,
    decreases hi - lo,
{
    if lo < hi {
        let mid = lo + (hi - lo) / 2;
        if entry_height(s, mid) > query {
            assert forall|i: int| 0 <= i < mid + 1 implies entry_height(s, i) > query by {
                assert(entry_height(s, i) >= entry_height(s, mid));
            }
            lemma_search(s, query, mid + 1, hi, n);
        } else {
            assert forall|i: int| mid <= i < n implies entry_height(s, i) <= query by {
                assert(entry_height(s, mid) >= entry_height(s, i));
            }
            lemma_search(s, query, lo, mid, n);
        }
    }
}

/// In a chunk with descending heights, a lookup finds the most recent transition at or before
/// the query height: everything before it in the chunk is later than the query, and it and
/// everything behind it is not.
pub proof fn law_value_at_height(s: Seq<u8>, n: int, query: u32)
    requires
        0 <= n,
        heights_descending(s, n),
    ensures
        0 <= search(s, query, 0, n) <= n,
        forall|i: int| 0 <= i < search(s, query, 0, n) ==> entry_height(s, i) > query,
        forall|i: int| search(s, query, 0, n) <= i < n ==> entry_height(s, i) <= query,
{
    lemma_search(s, query, 0, n, n);
}

/// The chunks of a finished blob, from header to footer.
pub open spec fn finished_blob(
    level_id: u32,
    body: Seq<u8>,
    chunk_count: u32,
    total_entry_count: u64,
) -> Seq<u8> {
    header_bytes(HistoryBlobHeader { version: 1, flags: 1, level_id }) + body + footer_bytes(
        HistoryBlobFooter { chunk_count, total_entry_count, body_len: body.len() as u64 },
    )
}

/// The entries of the chunk behind `earlier` in a blob.
pub open spec fn chunk_entries(s: Seq<u8>, earlier: Seq<u8>, n: int) -> Seq<u8> {
    s.subrange(16 + earlier.len() as int, 10 + earlier.len() as int + chunk_len(n))
}

proof fn lemma_regroup(a: Seq<u8>, b: Seq<u8>, c: Seq<u8>, d: Seq<u8>, e: Seq<u8>)
    ensures
        a + (b + c + d) + e == (a + b) + c + (d + e),
{
    assert(a + (b + c + d) + e =~= (a + b) + c + (d + e));
}

/// As [`law_chunk_read_back`], where a header stands before the chunk.
proof fn lemma_chunk_behind_header(
    head: Seq<u8>,
    earlier: Seq<u8>,
    entries: Seq<(u32, MARFValue)>,
    later: Seq<u8>,
    foot: Seq<u8>,
)
    requires
        head.len() == 10,
        1 <= entries.len() <= u32::MAX,
    ensures
        ({
            let body = earlier + chunk_bytes(entries) + later;
            let s = head + body + foot;
            let n = entries.len() as int;
            let e = chunk_entries(s, earlier, n);
            &&& body.len() == earlier.len() + chunk_len(n) + later.len()
            &&& has_chunk(s, body.len() as int, 10 + earlier.len() as int, chunk_len(n), n)
            &&& holds_entries(e, entries)
        }),
{
    let body = earlier + chunk_bytes(entries) + later;
    let n = entries.len() as int;
    assert(chunk_bytes(entries).len() == chunk_len(n)) by {
        lemma_entries_len(entries);
        lemma_be32_round_trip(entries.len() as u32);
    }
    lemma_regroup(head, earlier, chunk_bytes(entries), later, foot);
    law_chunk_read_back(head + earlier, entries, later + foot, body.len() as int);
}

proof fn lemma_finished_chunk(
    level_id: u32,
    earlier: Seq<u8>,
    entries: Seq<(u32, MARFValue)>,
    later: Seq<u8>,
    chunk_count: u32,
    total_entry_count: u64,
)
    requires
        1 <= entries.len() <= u32::MAX,
    ensures
        ({
            let body = earlier + chunk_bytes(entries) + later;
            let s = finished_blob(level_id, body, chunk_count, total_entry_count);
            let n = entries.len() as int;
            let e = chunk_entries(s, earlier, n);
            &&& body.len() == earlier.len() + chunk_len(n) + later.len()
            &&& has_chunk(s, body.len() as int, 10 + earlier.len() as int, chunk_len(n), n)
            &&& holds_entries(e, entries)
        }),
{
    let body = earlier + chunk_bytes(entries) + later;
    let h = HistoryBlobHeader { version: 1, flags: 1, level_id };
    let f = HistoryBlobFooter { chunk_count, total_entry_count, body_len: body.len() as u64 };
    assert(header_bytes(h).len() == 10) by {
        law_header_round_trip(h, Seq::empty());
    }
    lemma_chunk_behind_header(header_bytes(h), earlier, entries, later, footer_bytes(f));
}

proof fn lemma_search_entries(e: Seq<u8>, entries: Seq<(u32, MARFValue)>, query: u32)
    requires
        descending(entries),
        holds_entries(e, entries),
    ensures
        ({
            let at = search(e, query, 0, entries.len() as int);
            &&& 0 <= at <= entries.len()
            &&& forall|i: int| 0 <= i < at ==> (#[trigger] entries[i]).0 > query
            &&& at < entries.len() ==> entries[at].0 <= query
        }),
{
    let n = entries.len() as int;
    assert forall|i: int, j: int| 0 <= i <= j < n implies entry_height(e, i) >= entry_height(e, j) by {
        assert(entries[i].0 >= entries[j].0);
    }
    law_value_at_height(e, n, query);
    let at = search(e, query, 0, n);
    assert forall|i: int| 0 <= i < at implies (#[trigger] entries[i]).0 > query by {
        assert(entry_height(e, i) > query);
    }
    if at < n {
        assert(entry_height(e, at) <= query);
    }
}

/// What was appended to a blob is read back once the blob is finished, whatever was appended before
/// and after: the blob opens, the chunk is where it was said to be, it holds the entries, and a
/// lookup at a height finds the latest entry at or before it.
pub proof fn law_blob_reads_back(
    level_id: u32,
    earlier: Seq<u8>,
    entries: Seq<(u32, MARFValue)>,
    later: Seq<u8>,
    chunk_count: u32,
    total_entry_count: u64,
    query: u32,
)
    requires
        1 <= entries.len() <= u32::MAX,
        descending(entries),
        earlier.len() + chunk_len(entries.len() as int) + later.len() <= u64::MAX,
    ensures
        ({
            let body = earlier + chunk_bytes(entries) + later;
            let s = finished_blob(level_id, body, chunk_count, total_entry_count);
            let n = entries.len() as int;
            let e = chunk_entries(s, earlier, n);
            let at = search(e, query, 0, n);
            &&& opened(s, Some(level_id)) is Some
            &&& opened(s, Some(level_id)).unwrap().1.body_len == body.len()
            &&& has_chunk(s, body.len() as int, 10 + earlier.len() as int, chunk_len(n), n)
            &&& holds_entries(e, entries)
            &&& 0 <= at <= n
            &&& forall|i: int| 0 <= i < at ==> (#[trigger] entries[i]).0 > query
            &&& at < n ==> entries[at].0 <= query
        }),
{
    let body = earlier + chunk_bytes(entries) + later;
    let s = finished_blob(level_id, body, chunk_count, total_entry_count);
    let e = chunk_entries(s, earlier, entries.len() as int);
    lemma_finished_chunk(level_id, earlier, entries, later, chunk_count, total_entry_count);
    lemma_search_entries(e, entries, query);
    law_finished_blob_opens(level_id, body, chunk_count, total_entry_count);
}

// ---------------------------------------------------------------------------------------
// Code
// ---------------------------------------------------------------------------------------
fn is_magic(bytes: &[u8], at: usize) -> (r: bool)
    requires
        at + 4 <= bytes@.len(),
    ensures
        r == (bytes@.subrange(at as int, at + 4) == magic()),
{
    let len = bytes.len();
    let got = vstd::slice::slice_subrange(bytes, at, at + 4);
    let want: [u8; 4] = HISTORY_BLOB_MAGIC;
    assert(want@ =~= magic());
    bytes_equal(got, want.as_slice())
}

impl HistoryBlobHeader {
    /// Encode the header as `HISTORY_BLOB_HEADER_SIZE` bytes (big-endian).
    pub fn encode(&self) -> (buf: Vec<u8>)
        ensures
            buf@ == header_bytes(*self),
            buf@.len() == HISTORY_BLOB_HEADER_SIZE,
    {
        let mut buf: Vec<u8> = Vec::new();
        let want: [u8; 4] = HISTORY_BLOB_MAGIC;
        push_all(&mut buf, want.as_slice());
        buf.push(self.version);
        buf.push(self.flags);
        push_be32(&mut buf, self.level_id);
        assert(buf@ =~= header_bytes(*self));
        buf
    }

    /// Decode and validate: bad magic, another version, a missing fixed-value flag or a
    /// reserved flag bit are corruption.
    pub fn decode(bytes: &[u8]) -> (r: Result<HistoryBlobHeader, Error>)
        ensures
            r matches Ok(h) ==> parse_header(bytes@) == Some(h),
            r matches Err(e) ==> e is CorruptionError && parse_header(bytes@) is None,
    {
        if bytes.len() < HISTORY_BLOB_HEADER_SIZE {
            return Err(
                corruption_of(
                    [
                        Piece::Text("history blob: header truncated ("),
                        Piece::Number(bytes.len() as u64),
                        Piece::Text(" < "),
                        Piece::Number(HISTORY_BLOB_HEADER_SIZE as u64),
                        Piece::Text(")"),
                    ].as_slice(),
                ),
            );
        }
        if !is_magic(bytes, 0) {
            return Err(
                corruption_of(
                    [
                        Piece::Text("history blob: bad header magic ["),
                        Piece::Number(bytes[0] as u64),
                        Piece::Text(", "),
                        Piece::Number(bytes[1] as u64),
                        Piece::Text(", "),
                        Piece::Number(bytes[2] as u64),
                        Piece::Text(", "),
                        Piece::Number(bytes[3] as u64),
                        Piece::Text("], expected [77, 72, 73, 83]"),
                    ].as_slice(),
                ),
            );
        }
        let version = bytes[4];
        if version != HISTORY_BLOB_VERSION {
            return Err(
                corruption_of(
                    [
                        Piece::Text("history blob: unsupported version "),
                        Piece::Number(version as u64),
                        Piece::Text(" (expected "),
                        Piece::Number(HISTORY_BLOB_VERSION as u64),
                        Piece::Text(")"),
                    ].as_slice(),
                ),
            );
        }
        let flags = bytes[5];
        proof {
            lemma_flags(flags);
        }
        if flags & HISTORY_BLOB_FLAG_FIXED_VALUE_ENCODING == 0 {
            return Err(
                corruption_of(
                    [
                        Piece::Text("history blob: v1 requires fixed-value-encoding flag bit set in 0x"),
                        Piece::Hex(flags),
                    ].as_slice(),
                ),
            );
        }
        if flags & !HISTORY_BLOB_FLAG_FIXED_VALUE_ENCODING != 0 {
            return Err(
                corruption_of(
                    [
                        Piece::Text("history blob: reserved header flag bits set (flags=0x"),
                        Piece::Hex(flags),
                        Piece::Text(", valid mask 0x"),
                        Piece::Hex(HISTORY_BLOB_FLAG_FIXED_VALUE_ENCODING),
                        Piece::Text(")"),
                    ].as_slice(),
                ),
            );
        }
        Ok(HistoryBlobHeader { version, flags, level_id: read_be32(bytes, 6) })
    }
}

/// Only the flag byte with bit 0 and nothing else passes.
proof fn lemma_flags(flags: u8)
    by (bit_vector)
    ensures
        (flags & 1 != 0 && flags & !1u8 == 0) <==> flags == 1,
{
}

impl HistoryBlobFooter {
    /// Encode the footer as `HISTORY_BLOB_FOOTER_SIZE` bytes (big-endian).
    pub fn encode(&self) -> (buf: Vec<u8>)
        ensures
            buf@ == footer_bytes(*self),
            buf@.len() == HISTORY_BLOB_FOOTER_SIZE,
    {
        let mut buf: Vec<u8> = Vec::new();
        push_be32(&mut buf, self.chunk_count);
        push_be64(&mut buf, self.total_entry_count);
        push_be64(&mut buf, self.body_len);
        let want: [u8; 4] = HISTORY_BLOB_MAGIC;
        push_all(&mut buf, want.as_slice());
        proof {
            law_footer_round_trip(*self, Seq::empty());
        }
        assert(buf@ =~= footer_bytes(*self));
        buf
    }

    /// Decode and validate the trailing magic. That `body_len` fits the blob is checked by
    /// [`HistoryBlobReader::open`].
    pub fn decode(bytes: &[u8]) -> (r: Result<HistoryBlobFooter, Error>)
        ensures
            r matches Ok(f) ==> parse_footer(bytes@) == Some(f),
            r matches Err(e) ==> e is CorruptionError && parse_footer(bytes@) is None,
    {
        if bytes.len() < HISTORY_BLOB_FOOTER_SIZE {
            return Err(
                corruption_of(
                    [
                        Piece::Text("history blob: footer truncated ("),
                        Piece::Number(bytes.len() as u64),
                        Piece::Text(" < "),
                        Piece::Number(HISTORY_BLOB_FOOTER_SIZE as u64),
                        Piece::Text(")"),
                    ].as_slice(),
                ),
            );
        }
        let chunk_count = read_be32(bytes, 0);
        let total_entry_count = read_be64(bytes, 4);
        let body_len = read_be64(bytes, 12);
        if !is_magic(bytes, 20) {
            return Err(
                corruption_of(
                    [
                        Piece::Text("history blob: bad footer magic ["),
                        Piece::Number(bytes[20] as u64),
                        Piece::Text(", "),
                        Piece::Number(bytes[21] as u64),
                        Piece::Text(", "),
                        Piece::Number(bytes[22] as u64),
                        Piece::Text(", "),
                        Piece::Number(bytes[23] as u64),
                        Piece::Text("], expected [77, 72, 73, 83] (truncated or wrong format)"),
                    ].as_slice(),
                ),
            );
        }
        Ok(HistoryBlobFooter { chunk_count, total_entry_count, body_len })
    }
}

impl HistoryChunkHeader {
    /// Encode the header as `HISTORY_CHUNK_HEADER_SIZE` bytes (big-endian).
    pub fn encode(&self) -> (buf: Vec<u8>)
        ensures
            buf@ == chunk_header_bytes(*self),
            buf@.len() == HISTORY_CHUNK_HEADER_SIZE,
    {
        let mut buf: Vec<u8> = Vec::new();
        buf.push(self.version);
        buf.push(self.flags);
        push_be32(&mut buf, self.entry_count);
        assert(buf@ =~= chunk_header_bytes(*self));
        buf
    }

    /// Decode and validate: another version, a missing fixed-value flag, a reserved flag bit
    /// or an entry count of zero are corruption.
    pub fn decode(bytes: &[u8]) -> (r: Result<HistoryChunkHeader, Error>)
        ensures
            r matches Ok(h) ==> parse_chunk_header(bytes@) == Some(h),
            r matches Err(e) ==> e is CorruptionError && parse_chunk_header(bytes@) is None,
    {
        if bytes.len() < HISTORY_CHUNK_HEADER_SIZE {
            return Err(
                corruption_of(
                    [
                        Piece::Text("history chunk: header truncated ("),
                        Piece::Number(bytes.len() as u64),
                        Piece::Text(" < "),
                        Piece::Number(HISTORY_CHUNK_HEADER_SIZE as u64),
                        Piece::Text(")"),
                    ].as_slice(),
                ),
            );
        }
        let version = bytes[0];
        if version != HISTORY_CHUNK_VERSION {
            return Err(
                corruption_of(
                    [
                        Piece::Text("history chunk: unsupported chunk version "),
                        Piece::Number(version as u64),
                        Piece::Text(" (expected "),
                        Piece::Number(HISTORY_CHUNK_VERSION as u64),
                        Piece::Text(")"),
                    ].as_slice(),
                ),
            );
        }
        let flags = bytes[1];
        proof {
            lemma_flags(flags);
        }
        if flags & HISTORY_CHUNK_FLAG_FIXED_VALUE_ENCODING == 0 {
            return Err(
                corruption("history chunk: v1 requires fixed-value-encoding flag bit set"),
            );
        }
        if flags & !HISTORY_CHUNK_FLAG_FIXED_VALUE_ENCODING != 0 {
            return Err(
                corruption_of(
                    [
                        Piece::Text("history chunk: reserved flag bits set (flags=0x"),
                        Piece::Hex(flags),
                        Piece::Text(")"),
                    ].as_slice(),
                ),
            );
        }
        let entry_count = read_be32(bytes, 2);
        if entry_count == 0 {
            return Err(corruption("history chunk: entry_count == 0 is invalid"));
        }
        Ok(HistoryChunkHeader { version, flags, entry_count })
    }

    /// Total byte length of this chunk (header and entries). It must fit in a `usize`.
    pub fn chunk_byte_len(&self) -> (r: usize)
        requires
            chunk_len(self.entry_count as int) <= usize::MAX,
        ensures
            r == chunk_len(self.entry_count as int),
    {
        HISTORY_CHUNK_HEADER_SIZE + (self.entry_count as usize) * HISTORY_CHUNK_ENTRY_SIZE_V1
    }
}

/// Pointer from a squashed leaf into a chunk of the history blob, plus the value at the tip.
#[derive(Debug, Clone, Copy, PartialEq, Eq)]
pub struct ChunkRef {
    /// Byte offset from the start of the blob to the start of this chunk's header.
    pub history_offset: u64,
    /// Bytes occupied by this chunk.
    pub history_byte_len: u32,
    /// Number of `(height, value)` entries in this chunk.
    pub history_entry_count: u32,
    /// The value of the first entry, which is the most recent one.
    pub tip_value: MARFValue,
}

/// A decoded history chunk. Borrows from the chunk bytes.
#[derive(Debug, Clone, Copy)]
pub struct HistoryChunk<'a> {
    pub entry_count: u32,
    /// Raw entries bytes, sorted descending by height.
    pub entries_bytes: &'a [u8],
}

impl<'a> HistoryChunk<'a> {
    /// Do the bytes hold exactly the entries?
    pub open spec fn wf(&self) -> bool {
        self.entries_bytes@.len() == 44 * self.entry_count
    }

    /// Decode a chunk from a byte slice. The slice must start with the chunk header and contain
    /// the full chunk.
    pub fn decode(bytes: &'a [u8]) -> (r: Result<HistoryChunk<'a>, Error>)
        ensures
            r matches Ok(c) ==> {
                &&& parse_chunk_header(bytes@) matches Some(h) && h.entry_count == c.entry_count
                &&& chunk_len(c.entry_count as int) <= bytes@.len()
                &&& c.entries_bytes@ == bytes@.subrange(6, chunk_len(c.entry_count as int))
                &&& c.wf()
            },
            r matches Err(e) ==> e is CorruptionError && (parse_chunk_header(bytes@) matches Some(h)
                ==> bytes@.len() < chunk_len(h.entry_count as int)),
    {
        let header = match HistoryChunkHeader::decode(bytes) {
            Ok(h) => h,
            Err(e) => {
                return Err(e);
            },
        };
        let chunk_total: u64 = 6 + header.entry_count as u64 * 44;
        let have = bytes.len();
        if (have as u64) < chunk_total {
            return Err(
                corruption_of(
                    [
                        Piece::Text("history chunk: body truncated ("),
                        Piece::Number(have as u64),
                        Piece::Text(" < "),
                        Piece::Number(chunk_total),
                        Piece::Text(")"),
                    ].as_slice(),
                ),
            );
        }
        let entries_bytes = vstd::slice::slice_subrange(
            bytes,
            HISTORY_CHUNK_HEADER_SIZE,
            chunk_total as usize,
        );
        Ok(HistoryChunk { entry_count: header.entry_count, entries_bytes })
    }

    /// Number of `(height, value)` entries in this chunk.
    pub fn len(&self) -> (r: usize)
        ensures
            r == self.entry_count,
    {
        self.entry_count as usize
    }

    pub fn is_empty(&self) -> (r: bool)
        ensures
            r == (self.entry_count == 0),
    {
        self.entry_count == 0
    }

    /// The `(height, value)` entry at index `idx`, in the chunk's descending-by-height order.
    fn entry_at(&self, idx: usize) -> (r: (u32, MARFValue))
        requires
            self.wf(),
            idx < self.entry_count,
        ensures
            r.0 == entry_height(self.entries_bytes@, idx as int),
            r.1@ == entry_value(self.entries_bytes@, idx as int),
    {
        let have = self.entries_bytes.len();
        let off = idx * HISTORY_CHUNK_ENTRY_SIZE_V1;
        let height = read_be32(self.entries_bytes, off);
        let value_bytes = vstd::slice::slice_subrange(
            self.entries_bytes,
            off + 4,
            off + HISTORY_CHUNK_ENTRY_SIZE_V1,
        );
        let value = array40(value_bytes);
        assert(value@ =~= entry_value(self.entries_bytes@, idx as int));
        (height, MARFValue(value))
    }

    /// Point-in-time lookup. Returns the value from the most recent transition at or before
    /// `query_height`, or `None` if the key did not exist at that height.
    pub fn value_at_height(&self, query_height: u32) -> (r: Option<MARFValue>)
        requires
            self.wf(),
        ensures
            ({
                let at = search(self.entries_bytes@, query_height, 0, self.entry_count as int);
                match r {
                    Some(v) => at < self.entry_count && v@ == entry_value(self.entries_bytes@, at),
                    None => at >= self.entry_count,
                }
            }),
            heights_descending(self.entries_bytes@, self.entry_count as int) ==> match r {
                Some(v) => exists|i: int| #[trigger]
                    is_latest(self.entries_bytes@, self.entry_count as int, query_height, i) && v@
                        == entry_value(self.entries_bytes@, i),
                None => forall|i: int|
                    0 <= i < self.entry_count ==> #[trigger] entry_height(self.entries_bytes@, i)
                        > query_height,
            },
    {
        proof {
            if heights_descending(self.entries_bytes@, self.entry_count as int) {
                law_value_at_height(self.entries_bytes@, self.entry_count as int, query_height);
                let at = search(self.entries_bytes@, query_height, 0, self.entry_count as int);
                if at < self.entry_count {
                    assert(is_latest(
                        self.entries_bytes@,
                        self.entry_count as int,
                        query_height,
                        at,
                    ));
                }
            }
        }
        let n = self.len();
        let mut lo: usize = 0;
        let mut hi: usize = n;
        while lo < hi
            invariant
                self.wf(),
                n == self.entry_count,
                lo <= hi <= n,
                search(self.entries_bytes@, query_height, 0, n as int) == search(
                    self.entries_bytes@,
                    query_height,
                    lo as int,
                    hi as int,
                ),
            decreases hi - lo,
        {
            let mid = lo + (hi - lo) / 2;
            let (h, _) = self.entry_at(mid);
            if h > query_height {
                lo = mid + 1;
            } else {
                hi = mid;
            }
        }
        if lo >= n {
            None
        } else {
            Some(self.entry_at(lo).1)
        }
    }

    /// Decode every entry into an owned `Vec`.
    pub fn entries_owned(&self) -> (r: Vec<(u32, MARFValue)>)
        requires
            self.wf(),
        ensures
            r@.len() == self.entry_count,
            forall|i: int|
                0 <= i < r@.len() ==> (#[trigger] r@[i]).0 == entry_height(self.entries_bytes@, i)
                    && r@[i].1@ == entry_value(self.entries_bytes@, i),
    {
        let mut out: Vec<(u32, MARFValue)> = Vec::new();
        let n = self.len();
        let mut i: usize = 0;
        while i < n
            invariant
                self.wf(),
                n == self.entry_count,
                i <= n,
                out@.len() == i,
                forall|j: int|
                    0 <= j < i ==> (#[trigger] out@[j]).0 == entry_height(self.entries_bytes@, j)
                        && out@[j].1@ == entry_value(self.entries_bytes@, j),
            decreases n - i,
        {
            out.push(self.entry_at(i));
            i += 1;
        }
        out
    }
}

/// Append-only writer for a history blob. It holds the bytes that belong to the file at
/// `tmp_path`; the caller stores them, and renames the file once the blob is published.
pub struct HistoryBlobWriter {
    /// Where the blob is being written to.
    pub tmp_path: String,
    /// The bytes of the blob so far.
    pub bytes: Vec<u8>,
    /// Where the next chunk starts.
    pub next_offset: u64,
    /// Chunks appended so far.
    pub chunk_count: u32,
    /// Entries appended so far.
    pub total_entry_count: u64,
}

/// Is the slice sorted descending by height?
fn is_descending(entries: &[(u32, MARFValue)]) -> (r: bool)
    ensures
        r == descending(entries@),
{
    let mut i: usize = 1;
    while i < entries.len()
        invariant
            1 <= i,
            forall|a: int, b: int|
                0 <= a <= b < i && b < entries@.len() ==> (#[trigger] entries@[a]).0 >= (
                #[trigger] entries@[b]).0,
        decreases entries@.len() - i,
    {
        if entries[i - 1].0 < entries[i].0 {
            assert(entries@[i - 1].0 < entries@[i as int].0);
            return false;
        }
        i += 1;
    }
    true
}

impl HistoryBlobWriter {
    /// Does every byte belong to the header or to a chunk that was appended successfully?
    pub open spec fn intact(&self) -> bool {
        self.next_offset == self.bytes@.len() && self.next_offset >= 10
    }

    /// Begin a new history blob with its header.
    pub fn create_at(tmp_path: String, level_id: u32) -> (w: HistoryBlobWriter)
        ensures
            w.tmp_path == tmp_path,
            w.bytes@ == header_bytes(HistoryBlobHeader { version: 1, flags: 1, level_id }),
            w.next_offset == 10,
            w.chunk_count == 0,
            w.total_entry_count == 0,
            w.intact(),
    {
        let header = HistoryBlobHeader {
            version: HISTORY_BLOB_VERSION,
            flags: HISTORY_BLOB_FLAG_FIXED_VALUE_ENCODING,
            level_id,
        };
        HistoryBlobWriter {
            tmp_path,
            bytes: header.encode(),
            next_offset: 10,
            chunk_count: 0,
            total_entry_count: 0,
        }
    }

    /// Path the blob is written to.
    pub fn tmp_path(&self) -> (p: &str)
        ensures
            p@ == self.tmp_path@,
    {
        self.tmp_path.as_str()
    }

    /// Append one chunk of entries. `entries` must be sorted descending by height and
    /// non-empty. Returns the chunk's offset and byte-length.
    ///
    /// Entries that are refused leave the blob as it was. Where a count or an offset overflows,
    /// the bytes have been written already, and the counts before the one that overflows have
    /// moved.
    pub fn append_chunk(&mut self, entries: &[(u32, MARFValue)]) -> (r: Result<(u64, u32), Error>)
        ensures
            ({
                let n = entries@.len() as int;
                let refused = n == 0 || n > u32::MAX || !descending(entries@);
                let len = chunk_len(n);
                let too_long = len > u32::MAX || old(self).next_offset + len > u64::MAX;
                let chunks_full = old(self).chunk_count == u32::MAX;
                let entries_full = old(self).total_entry_count + n > u64::MAX;
                &&& refused ==> (r matches Err(e) && e is CorruptionError) && *final(self) == *old(
                    self,
                )
                &&& !refused ==> final(self).bytes@ == old(self).bytes@ + chunk_bytes(entries@)
                &&& !refused && (too_long || chunks_full || entries_full) ==> (r matches Err(e)
                    && e is OverflowError)
                &&& !refused && !too_long && !chunks_full && !entries_full ==> r == Ok::<
                    (u64, u32),
                    Error,
                >((old(self).next_offset, len as u32))
                &&& !refused ==> final(self).next_offset == old(self).next_offset + if too_long {
                    0
                } else {
                    len
                }
                &&& !refused ==> final(self).chunk_count == old(self).chunk_count + if too_long
                    || chunks_full {
                    0int
                } else {
                    1
                }
                &&& !refused ==> final(self).total_entry_count == old(self).total_entry_count
                    + if too_long || chunks_full || entries_full {
                    0
                } else {
                    n
                }
                &&& final(self).tmp_path == old(self).tmp_path
                &&& old(self).intact() && (r is Ok || refused) ==> final(self).intact()
            }),
    {
        if entries.len() == 0 {
            return Err(
                corruption(
                    "history blob: refusing to append empty chunk (history_entry_count >= 1 invariant)",
                ),
            );
        }
        if entries.len() as u64 > u32::MAX as u64 {
            return Err(corruption("history blob: chunk entry_count exceeds u32"));
        }
        let entry_count = entries.len() as u32;
        if !is_descending(entries) {
            return Err(
                corruption("history blob: chunk entries must be sorted descending by height"),
            );
        }
        let chunk_offset = self.next_offset;
        let header = HistoryChunkHeader {
            version: HISTORY_CHUNK_VERSION,
            flags: HISTORY_CHUNK_FLAG_FIXED_VALUE_ENCODING,
            entry_count,
        };
        let ghost start = self.bytes@;
        let encoded = header.encode();
        push_all(&mut self.bytes, encoded.as_slice());
        let ghost head = self.bytes@;
        let mut i: usize = 0;
        assert(self.bytes@ =~= head + entries_bytes(entries@.take(0)));
        while i < entries.len()
            invariant
                i <= entries@.len(),
                self.bytes@ == head + entries_bytes(entries@.take(i as int)),
                self.next_offset == old(self).next_offset,
                self.chunk_count == old(self).chunk_count,
                self.total_entry_count == old(self).total_entry_count,
                self.tmp_path == old(self).tmp_path,
            decreases entries@.len() - i,
        {
            let ghost nxt = entries@.take(i + 1);
            assert(nxt.drop_last() =~= entries@.take(i as int));
            push_be32(&mut self.bytes, entries[i].0);
            push_all(&mut self.bytes, entries[i].1.as_bytes());
            assert(self.bytes@ =~= head + entries_bytes(nxt));
            i += 1;
        }
        proof {
            assert(entries@.take(i as int) =~= entries@);
            assert(self.bytes@ =~= start + chunk_bytes(entries@));
            lemma_entries_len(entries@);
            lemma_be32_round_trip(entry_count);
        }
        let chunk_byte_len: u64 = 6 + entry_count as u64 * 44;
        if chunk_byte_len > u32::MAX as u64 {
            return Err(Error::OverflowError);
        }
        self.next_offset = match self.next_offset.checked_add(chunk_byte_len) {
            Some(x) => x,
            None => {
                return Err(Error::OverflowError);
            },
        };
        self.chunk_count = match self.chunk_count.checked_add(1) {
            Some(x) => x,
            None => {
                return Err(Error::OverflowError);
            },
        };
        self.total_entry_count = match self.total_entry_count.checked_add(entries.len() as u64) {
            Some(x) => x,
            None => {
                return Err(Error::OverflowError);
            },
        };
        Ok((chunk_offset, chunk_byte_len as u32))
    }

    /// Give the blob up. The file at the path that is returned goes.
    pub fn cancel(self) -> (tmp_path: String)
        ensures
            tmp_path == self.tmp_path,
    {
        self.tmp_path
    }

    /// The complete blob, footer included.
    pub fn finalize(self) -> (r: Result<Vec<u8>, Error>)
        ensures
            r is Ok <==> self.next_offset >= 10,
            r matches Ok(file) ==> file@ == self.bytes@ + footer_bytes(
                HistoryBlobFooter {
                    chunk_count: self.chunk_count,
                    total_entry_count: self.total_entry_count,
                    body_len: (self.next_offset - 10) as u64,
                },
            ),
            r matches Err(e) ==> e is CorruptionError,
    {
        if self.next_offset < 10 {
            return Err(corruption("history blob: next_offset < header size"));
        }
        let footer = HistoryBlobFooter {
            chunk_count: self.chunk_count,
            total_entry_count: self.total_entry_count,
            body_len: self.next_offset - 10,
        };
        let mut file = self.bytes;
        let encoded = footer.encode();
        push_all(&mut file, encoded.as_slice());
        Ok(file)
    }
}

/// A finished history blob that waits to be renamed into place. Until it is forgotten, whoever
/// drops it removes its file.
pub struct StagedHistoryBlob {
    /// Where the blob was written to.
    pub tmp_path: String,
    /// Set once the file was renamed.
    pub consumed: bool,
}

impl StagedHistoryBlob {
    /// Guard a finished blob.
    pub fn new(tmp_path: String) -> (r: StagedHistoryBlob)
        ensures
            r.tmp_path == tmp_path,
            !r.consumed,
    {
        StagedHistoryBlob { tmp_path, consumed: false }
    }

    /// Path of the blob.
    pub fn tmp_path(&self) -> (p: &str)
        ensures
            p@ == self.tmp_path@,
    {
        self.tmp_path.as_str()
    }

    /// Release the guard: the file was renamed.
    pub fn forget(&mut self)
        ensures
            final(self).consumed,
            final(self).tmp_path == old(self).tmp_path,
    {
        self.consumed = true;
    }

    /// The file to remove when the guard is dropped.
    pub fn leftover(&self) -> (r: Option<&str>)
        ensures
            match r {
                Some(p) => !self.consumed && p@ == self.tmp_path@,
                None => self.consumed,
            },
    {
        if self.consumed {
            None
        } else {
            Some(self.tmp_path.as_str())
        }
    }
}

/// Read-only view of the bytes of a history blob, validated when it is opened.
#[derive(Debug, Clone, Copy)]
pub struct HistoryBlobReader<'a> {
    pub bytes: &'a [u8],
    pub header: HistoryBlobHeader,
    pub footer: HistoryBlobFooter,
}

impl<'a> HistoryBlobReader<'a> {
    /// Do header and footer belong to the bytes?
    pub open spec fn wf(&self) -> bool {
        opened(self.bytes@, None) == Some((self.header, self.footer))
    }

    /// Open and validate the bytes of a history blob: long enough for header and footer, header
    /// valid and of the expected level, footer valid and in agreement with the length.
    pub fn open(bytes: &'a [u8], expected_level_id: Option<u32>) -> (r: Result<
        HistoryBlobReader<'a>,
        Error,
    >)
        ensures
            r matches Ok(reader) ==> reader.bytes == bytes && opened(bytes@, expected_level_id)
                == Some((reader.header, reader.footer)) && reader.wf(),
            r matches Err(e) ==> e is CorruptionError && opened(bytes@, expected_level_id) is None,
    {
        let file_len = bytes.len();
        if file_len < HISTORY_BLOB_HEADER_SIZE + HISTORY_BLOB_FOOTER_SIZE {
            return Err(
                corruption_of(
                    [
                        Piece::Text("history blob: file too short ("),
                        Piece::Number(file_len as u64),
                        Piece::Text(" < "),
                        Piece::Number(34),
                        Piece::Text(")"),
                    ].as_slice(),
                ),
            );
        }
        let header = match HistoryBlobHeader::decode(bytes) {
            Ok(h) => h,
            Err(e) => {
                return Err(e);
            },
        };
        if let Some(expected) = expected_level_id {
            if header.level_id != expected {
                return Err(
                    corruption_of(
                        [
                            Piece::Text("history blob: header level_id "),
                            Piece::Number(header.level_id as u64),
                            Piece::Text(" does not match expected "),
                            Piece::Number(expected as u64),
                        ].as_slice(),
                    ),
                );
            }
        }
        let footer_start = file_len - HISTORY_BLOB_FOOTER_SIZE;
        let tail = vstd::slice::slice_subrange(bytes, footer_start, file_len);
        assert(tail@ =~= bytes@.skip(bytes@.len() - 24));
        let footer = match HistoryBlobFooter::decode(tail) {
            Ok(f) => f,
            Err(e) => {
                return Err(e);
            },
        };
        let expected_file_len = match footer.body_len.checked_add(34) {
            Some(x) => x,
            None => {
                return Err(corruption("history blob: footer body_len overflow"));
            },
        };
        if expected_file_len != file_len as u64 {
            return Err(
                corruption_of(
                    [
                        Piece::Text("history blob: footer body_len "),
                        Piece::Number(footer.body_len),
                        Piece::Text(" inconsistent with file length "),
                        Piece::Number(file_len as u64),
                        Piece::Text(" (expected "),
                        Piece::Number(expected_file_len),
                        Piece::Text(" = header "),
                        Piece::Number(HISTORY_BLOB_HEADER_SIZE as u64),
                        Piece::Text(" + body "),
                        Piece::Number(footer.body_len),
                        Piece::Text(" + footer "),
                        Piece::Number(HISTORY_BLOB_FOOTER_SIZE as u64),
                        Piece::Text(")"),
                    ].as_slice(),
                ),
            );
        }
        Ok(HistoryBlobReader { bytes, header, footer })
    }

    /// File header (validated at open).
    pub fn header(&self) -> (r: &HistoryBlobHeader)
        ensures
            *r == self.header,
    {
        &self.header
    }

    /// File footer (validated at open).
    pub fn footer(&self) -> (r: &HistoryBlobFooter)
        ensures
            *r == self.footer,
    {
        &self.footer
    }

    /// Byte offset where chunks start (immediately after the header).
    pub fn body_start(&self) -> (r: u64)
        ensures
            r == 10,
    {
        10
    }

    /// Read the chunk at `(offset, byte_len)`, as a leaf points to it. The length must be
    /// exactly that of a chunk with the expected number of entries, the chunk must lie in the
    /// body, and its header must agree on the number of entries.
    pub fn read_chunk(&self, offset: u64, byte_len: u32, expected_entry_count: u32) -> (r: Result<
        HistoryChunk<'a>,
        Error,
    >)
        requires
            self.wf(),
        ensures
            r is Ok <==> has_chunk(
                self.bytes@,
                self.footer.body_len as int,
                offset as int,
                byte_len as int,
                expected_entry_count as int,
            ),
            r matches Ok(c) ==> c.entry_count == expected_entry_count && c.wf()
                && c.entries_bytes@ == self.bytes@.subrange(offset + 6, offset + byte_len),
            r matches Err(e) ==> e is CorruptionError,
    {
        let body_end = self.bytes.len() as u64 - 24;
        let expected_byte_len: u64 = 6 + expected_entry_count as u64 * 44;
        if expected_byte_len > u32::MAX as u64 || byte_len as u64 != expected_byte_len {
            return Err(
                corruption_of(
                    [
                        Piece::Text("history chunk @ offset "),
                        Piece::Number(offset),
                        Piece::Text(": byte_len "),
                        Piece::Number(byte_len as u64),
                        Piece::Text(" does not match expected "),
                        Piece::Number(expected_byte_len),
                        Piece::Text(" for entry_count "),
                        Piece::Number(expected_entry_count as u64),
                        Piece::Text(" (header "),
                        Piece::Number(HISTORY_CHUNK_HEADER_SIZE as u64),
                        Piece::Text("B + "),
                        Piece::Number(expected_entry_count as u64),
                        Piece::Text(" × "),
                        Piece::Number(HISTORY_CHUNK_ENTRY_SIZE_V1 as u64),
                        Piece::Text("B v1 entries)"),
                    ].as_slice(),
                ),
            );
        }
        let chunk_end = match offset.checked_add(byte_len as u64) {
            Some(x) => x,
            None => {
                return Err(corruption("history chunk: offset+len overflow"));
            },
        };
        if offset < 10 || chunk_end > body_end {
            return Err(
                corruption_of(
                    [
                        Piece::Text("history chunk: range ["),
                        Piece::Number(offset),
                        Piece::Text(".."),
                        Piece::Number(chunk_end),
                        Piece::Text("] out of body ["),
                        Piece::Number(10),
                        Piece::Text(".."),
                        Piece::Number(body_end),
                        Piece::Text("]"),
                    ].as_slice(),
                ),
            );
        }
        let chunk_slice = vstd::slice::slice_subrange(
            self.bytes,
            offset as usize,
            chunk_end as usize,
        );
        let ghost whole = self.bytes@.skip(offset as int);
        assert(chunk_slice@.subrange(2, 6) =~= whole.subrange(2, 6));
        assert(parse_chunk_header(chunk_slice@) == parse_chunk_header(whole));
        let chunk = match HistoryChunk::decode(chunk_slice) {
            Ok(c) => c,
            Err(e) => {
                return Err(e);
            },
        };
        if chunk.entry_count != expected_entry_count {
            return Err(
                corruption_of(
                    [
                        Piece::Text("history chunk @ offset "),
                        Piece::Number(offset),
                        Piece::Text(": header entry_count "),
                        Piece::Number(chunk.entry_count as u64),
                        Piece::Text(" does not match expected "),
                        Piece::Number(expected_entry_count as u64),
                        Piece::Text(" from leaf ChunkRef"),
                    ].as_slice(),
                ),
            );
        }
        assert(chunk.entries_bytes@ =~= self.bytes@.subrange(offset + 6, offset + byte_len));
        Ok(chunk)
    }
}

} // verus!
