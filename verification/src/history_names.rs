//! Names of history blob files.
//!
//! A published blob is named
//! `marf-history-level-{level_id:06}-h{min:08}-{max:08}-blob-{blob_offset:016x}.dat`; one that
//! is still being written starts with `.history-tmp-`.

use crate::text::{
    lemma_number_text_round_trip, number_text, parse_number, parsed_number, push_number,
    push_wide_hex,
};
use vstd::prelude::*;

verus! {

/// The identity of a history blob, as its name tells it: level, least and greatest height, and
/// the offset of the level's trie blob.
pub type BlobIdentity = (u32, u32, u32, u64);

/// The name of a history blob.
pub open spec fn blob_name(id: BlobIdentity) -> Seq<char> {
    "marf-history-level-"@ + number_text(id.0 as nat, 10, 6) + "-h"@ + number_text(
        id.1 as nat,
        10,
        8,
    ) + "-"@ + number_text(id.2 as nat, 10, 8) + "-blob-"@ + number_text(id.3 as nat, 16, 16)
        + ".dat"@
}

/// Does `s` start with `p`?
pub open spec fn starts_with(s: Seq<char>, p: Seq<char>) -> bool {
    s.len() >= p.len() && s.take(p.len() as int) == p
}

/// Does `s` end with `p`?
pub open spec fn ends_with(s: Seq<char>, p: Seq<char>) -> bool {
    s.len() >= p.len() && s.skip(s.len() - p.len()) == p
}

/// `s` cut at each dash: the parts that are complete, and what follows the last dash.
spec fn cut(s: Seq<char>) -> (Seq<Seq<char>>, Seq<char>)
    decreases s.len(),
{
    if s.len() == 0 {
        (Seq::empty(), Seq::empty())
    } else {
        let (parts, rest) = cut(s.drop_last());
        if s.last() == '-' {
            (parts.push(rest), Seq::empty())
        } else {
            (parts, rest.push(s.last()))
        }
    }
}

/// The parts of `s` between the dashes.
spec fn parts(s: Seq<char>) -> Seq<Seq<char>> {
    cut(s).0.push(cut(s).1)
}

/// The identity that the parts of a name spell.
spec fn parsed_parts(p: Seq<Seq<char>>) -> Option<BlobIdentity> {
    if p.len() != 5 || p[1].len() == 0 || p[1][0] != 'h' || p[3] != "blob"@ {
        None
    } else {
        match (
            parsed_number(p[0], 10, u32::MAX as nat),
            parsed_number(p[1].skip(1), 10, u32::MAX as nat),
            parsed_number(p[2], 10, u32::MAX as nat),
            parsed_number(p[4], 16, u64::MAX as nat),
        ) {
            (Some(level), Some(min), Some(max), Some(offset)) => Some(
                (level as u32, min as u32, max as u32, offset as u64),
            ),
            _ => None,
        }
    }
}

/// The identity of the history blob with this name, or `None` where it is the name of none.
pub open spec fn parsed_name(s: Seq<char>) -> Option<BlobIdentity> {
    if exists|id: BlobIdentity| s == #[trigger] blob_name(id) {
        Some(choose|id: BlobIdentity| s == #[trigger] blob_name(id))
    } else {
        None
    }
}

/// The identity that a file name spells, in the canonical form or another.
spec fn spelled_name(s: Seq<char>) -> Option<BlobIdentity> {
    if !ends_with(s, ".dat"@) || !starts_with(s.take(s.len() - 4), "marf-history-level-"@) {
        None
    } else {
        parsed_parts(parts(s.subrange(19, s.len() - 4)))
    }
}

/// Is `s` the name of a blob that is still being written?
pub open spec fn is_tmp_name(s: Seq<char>) -> bool {
    starts_with(s, ".history-tmp-"@) && ends_with(s, ".dat"@)
}

/// The name of a history blob that is still being written.
pub open spec fn tmp_name(level_id: u32, nanos: u128, pid: u32, seq: u64) -> Seq<char> {
    ".history-tmp-level-"@ + number_text(level_id as nat, 10, 6) + "-"@ + number_text(
        nanos as nat,
        16,
        0,
    ) + "-"@ + number_text(pid as nat, 10, 0) + "-"@ + number_text(seq as nat, 10, 0) + ".dat"@
}

/// `dir` and `name` as one path: a separator stands between them unless `dir` is empty or ends
/// in one.
pub open spec fn joined(dir: Seq<char>, name: Seq<char>) -> Seq<char> {
    if dir.len() == 0 || dir.last() == '/' {
        dir + name
    } else {
        dir.push('/') + name
    }
}

spec fn no_dash(s: Seq<char>) -> bool {
    forall|i: int| 0 <= i < s.len() ==> s[i] != '-'
}

proof fn lemma_cut_plain(s: Seq<char>, t: Seq<char>)
    requires
        no_dash(t),
    ensures
        cut(s + t) == (cut(s).0, cut(s).1 + t),
    decreases t.len(),
{
    if t.len() == 0 {
        assert(s + t =~= s);
        assert(cut(s).1 + t =~= cut(s).1);
    } else {
        assert((s + t).drop_last() =~= s + t.drop_last());
        assert(t.last() != '-');
        lemma_cut_plain(s, t.drop_last());
        assert(cut(s).1 + t =~= (cut(s).1 + t.drop_last()).push(t.last()));
    }
}

proof fn lemma_cut_dash(s: Seq<char>)
    ensures
        cut(s.push('-')) == (cut(s).0.push(cut(s).1), Seq::<char>::empty()),
{
    assert(s.push('-').drop_last() =~= s);
}

proof fn lemma_name_spells(id: BlobIdentity)
    ensures
        spelled_name(blob_name(id)) == Some(id),
        !is_tmp_name(blob_name(id)),
{
    reveal_strlit("marf-history-level-");
    reveal_strlit("-h");
    reveal_strlit("-");
    reveal_strlit("-blob-");
    reveal_strlit("blob");
    reveal_strlit(".dat");
    reveal_strlit(".history-tmp-");
    let a = number_text(id.0 as nat, 10, 6);
    let b = number_text(id.1 as nat, 10, 8);
    let c = number_text(id.2 as nat, 10, 8);
    let d = number_text(id.3 as nat, 16, 16);
    lemma_number_text_round_trip(id.0 as nat, 10, 6, u32::MAX as nat);
    lemma_number_text_round_trip(id.1 as nat, 10, 8, u32::MAX as nat);
    lemma_number_text_round_trip(id.2 as nat, 10, 8, u32::MAX as nat);
    lemma_number_text_round_trip(id.3 as nat, 16, 16, u64::MAX as nat);
    let s = blob_name(id);
    assert(s.skip(s.len() - 4) =~= ".dat"@);
    assert(s.take(s.len() - 4).take(19) =~= "marf-history-level-"@);
    let hb = seq!['h'] + b;
    let e = Seq::<char>::empty();
    let s1 = a;
    let s2 = s1.push('-') + hb;
    let s3 = s2.push('-') + c;
    let s4 = s3.push('-') + "blob"@;
    let s5 = s4.push('-') + d;
    assert(s.subrange(19, s.len() - 4) =~= s5);
    assert(no_dash(hb)) by {
        assert forall|i: int| 0 <= i < hb.len() implies hb[i] != '-' by {
            if i > 0 {
                assert(hb[i] == b[i - 1]);
            }
        }
    }
    lemma_cut_plain(e, a);
    assert(e + a =~= a);
    lemma_cut_dash(s1);
    lemma_cut_plain(s1.push('-'), hb);
    lemma_cut_dash(s2);
    lemma_cut_plain(s2.push('-'), c);
    lemma_cut_dash(s3);
    lemma_cut_plain(s3.push('-'), "blob"@);
    lemma_cut_dash(s4);
    lemma_cut_plain(s4.push('-'), d);
    assert(e + hb =~= hb && e + c =~= c && e + "blob"@ =~= "blob"@ && e + d =~= d);
    assert(parts(s5) =~= seq![a, hb, c, "blob"@, d]);
    assert(hb.skip(1) =~= b);
    assert(s[0] == 'm');
    if is_tmp_name(s) {
        assert(s.take(13)[0] == '.');
    }
}

/// Two blobs with one name are the same blob.
pub proof fn law_name_injective(a: BlobIdentity, b: BlobIdentity)
    requires
        blob_name(a) == blob_name(b),
    ensures
        a == b,
{
    lemma_name_spells(a);
    lemma_name_spells(b);
}

/// A name tells an identity exactly where it is the name that was made from it.
pub proof fn law_only_canonical_names(s: Seq<char>, id: BlobIdentity)
    ensures
        parsed_name(s) == Some(id) <==> s == blob_name(id),
{
    if s == blob_name(id) {
        let found = choose|id: BlobIdentity| s == #[trigger] blob_name(id);
        law_name_injective(found, id);
    }
}

/// A name that was made from an identity tells that identity, and is not that of a blob that is
/// still being written.
pub proof fn law_name_round_trip(id: BlobIdentity)
    ensures
        parsed_name(blob_name(id)) == Some(id),
        !is_tmp_name(blob_name(id)),
{
    lemma_name_spells(id);
    law_only_canonical_names(blob_name(id), id);
}

/// The characters of a string.
pub fn chars_of(s: &str) -> (r: Vec<char>)
    ensures
        r@ == s@,
{
    let mut out: Vec<char> = Vec::new();
    let n = s.unicode_len();
    let mut i: usize = 0;
    while i < n
        invariant
            n == s@.len(),
            i <= n,
            out@ == s@.take(i as int),
        decreases n - i,
    {
        out.push(s.get_char(i));
        i += 1;
        assert(out@ =~= s@.take(i as int));
    }
    assert(out@ =~= s@);
    out
}

/// Does the text from `at` on start with `want`?
fn matches_at(s: &[char], at: usize, want: &str) -> (r: bool)
    requires
        at <= s@.len(),
    ensures
        r == starts_with(s@.skip(at as int), want@),
{
    let n = want.unicode_len();
    let ghost rest = s@.skip(at as int);
    let have = s.len();
    if have - at < n {
        return false;
    }
    let mut i: usize = 0;
    while i < n
        invariant
            n == want@.len(),
            have == s@.len(),
            at + n <= have,
            rest == s@.skip(at as int),
            i <= n,
            forall|j: int| 0 <= j < i ==> rest[j] == want@[j],
        decreases n - i,
    {
        let c = want.get_char(i);
        if s[at + i] != c {
            assert(rest.take(n as int)[i as int] != want@[i as int]);
            return false;
        }
        assert(rest[i as int] == want@[i as int]);
        i += 1;
    }
    assert(rest.take(n as int) =~= want@);
    true
}

/// Does the text end with `want`?
fn has_suffix(s: &[char], want: &str) -> (r: bool)
    ensures
        r == ends_with(s@, want@),
{
    let n = want.unicode_len();
    let len = s.len();
    if len < n {
        return false;
    }
    let r = matches_at(s, len - n, want);
    assert(s@.skip(len - n).take(n as int) =~= s@.skip(len - n));
    r
}

/// Is the text exactly `want`?
fn is_text(s: &[char], want: &str) -> (r: bool)
    ensures
        r == (s@ == want@),
{
    let n = want.unicode_len();
    let r = s.len() == n && matches_at(s, 0, want);
    assert(s@.skip(0) =~= s@);
    assert(s@.take(s@.len() as int) =~= s@);
    r
}

/// The parts of `s` between the dashes.
fn split_dashes(s: &[char]) -> (r: Vec<Vec<char>>)
    ensures
        r@.len() == parts(s@).len(),
        forall|i: int| 0 <= i < r@.len() ==> (#[trigger] r@[i])@ == parts(s@)[i],
{
    let mut out: Vec<Vec<char>> = Vec::new();
    let mut cur: Vec<char> = Vec::new();
    let mut i: usize = 0;
    assert(cur@ =~= Seq::<char>::empty());
    while i < s.len()
        invariant
            i <= s@.len(),
            out@.len() == cut(s@.take(i as int)).0.len(),
            forall|j: int|
                0 <= j < out@.len() ==> (#[trigger] out@[j])@ == cut(s@.take(i as int)).0[j],
            cur@ == cut(s@.take(i as int)).1,
        decreases s@.len() - i,
    {
        let ghost nxt = s@.take(i + 1);
        assert(nxt.drop_last() =~= s@.take(i as int));
        let c = s[i];
        if c == '-' {
            out.push(cur);
            cur = Vec::new();
            assert(cur@ =~= Seq::<char>::empty());
        } else {
            cur.push(c);
        }
        i += 1;
    }
    assert(s@.take(i as int) =~= s@);
    out.push(cur);
    out
}

/// Canonical name for a history blob file.
pub fn history_blob_filename(level_id: u32, min_height: u32, max_height: u32, blob_offset: u64) -> (r:
    String)
    ensures
        r@ == blob_name((level_id, min_height, max_height, blob_offset)),
{
    let mut s = "marf-history-level-".to_owned();
    push_number(&mut s, level_id as u64, 10, 6);
    s.append("-h");
    push_number(&mut s, min_height as u64, 10, 8);
    s.append("-");
    push_number(&mut s, max_height as u64, 10, 8);
    s.append("-blob-");
    push_number(&mut s, blob_offset, 16, 16);
    s.append(".dat");
    s
}

/// `dir` and `name` as one path.
pub fn join_path(dir: &str, name: &str) -> (r: String)
    ensures
        r@ == joined(dir@, name@),
{
    let n = dir.unicode_len();
    let mut s = dir.to_owned();
    if n > 0 {
        if dir.get_char(n - 1) != '/' {
            s.append("/");
            proof {
                reveal_strlit("/");
                assert(s@ =~= dir@.push('/'));
            }
        }
    }
    s.append(name);
    s
}

/// Canonical full path for a history blob file in the directory of the index.
pub fn history_blob_path(
    marf_dir: &str,
    level_id: u32,
    min_height: u32,
    max_height: u32,
    blob_offset: u64,
) -> (r: String)
    ensures
        r@ == joined(marf_dir@, blob_name((level_id, min_height, max_height, blob_offset))),
{
    let name = history_blob_filename(level_id, min_height, max_height, blob_offset);
    join_path(marf_dir, name.as_str())
}

/// Name of a history blob that is still being written. The caller tells it apart from others by
/// a time stamp, its process and a sequence number.
pub fn history_blob_tmp_name(level_id: u32, nanos: u128, pid: u32, seq: u64) -> (r: String)
    ensures
        r@ == tmp_name(level_id, nanos, pid, seq),
        is_tmp_name(r@),
        parsed_name(r@) is None,
{
    let mut s = ".history-tmp-level-".to_owned();
    push_number(&mut s, level_id as u64, 10, 6);
    s.append("-");
    push_wide_hex(&mut s, nanos);
    s.append("-");
    push_number(&mut s, pid as u64, 10, 0);
    s.append("-");
    push_number(&mut s, seq, 10, 0);
    s.append(".dat");
    proof {
        reveal_strlit(".history-tmp-level-");
        reveal_strlit(".history-tmp-");
        reveal_strlit(".dat");
        reveal_strlit("marf-history-level-");
        assert(s@.take(13) =~= ".history-tmp-"@);
        assert(s@.skip(s@.len() - 4) =~= ".dat"@);
        assert(s@[0] == '.');
        assert forall|id: BlobIdentity| s@ != #[trigger] blob_name(id) by {
            assert(blob_name(id)[0] == 'm');
        }
    }
    s
}

/// Path of a history blob that is still being written, in the directory of the index.
pub fn history_blob_tmp_path(marf_dir: &str, level_id: u32, nanos: u128, pid: u32, seq: u64) -> (r:
    String)
    ensures
        r@ == joined(marf_dir@, tmp_name(level_id, nanos, pid, seq)),
{
    let name = history_blob_tmp_name(level_id, nanos, pid, seq);
    join_path(marf_dir, name.as_str())
}

/// The identity of the history blob with this name, or `None` if the name does not have the
/// canonical form.
pub fn parse_history_blob_filename(name: &str) -> (r: Option<(u32, u32, u32, u64)>)
    ensures
        r == parsed_name(name@),
        forall|id: BlobIdentity| r == Some(id) <==> name@ == #[trigger] blob_name(id),
{
    proof {
        assert forall|id: BlobIdentity| parsed_name(name@) == Some(id) <==> name@
            == #[trigger] blob_name(id) by {
            law_only_canonical_names(name@, id);
        }
    }
    let id = match spelled_identity(name) {
        Some(id) => id,
        None => {
            proof {
                if let Some(id) = parsed_name(name@) {
                    lemma_name_spells(id);
                }
            }
            return None;
        },
    };
    // Numbers can be spelled in other ways, with other widths: only one of them is the name.
    let canonical = history_blob_filename(id.0, id.1, id.2, id.3);
    let chars = chars_of(name);
    if is_text(chars.as_slice(), canonical.as_str()) {
        Some(id)
    } else {
        proof {
            if let Some(other) = parsed_name(name@) {
                lemma_name_spells(other);
            }
        }
        None
    }
}

fn spelled_identity(name: &str) -> (r: Option<(u32, u32, u32, u64)>)
    ensures
        r == spelled_name(name@),
{
    proof {
        reveal_strlit(".dat");
        reveal_strlit("marf-history-level-");
    }
    let chars = chars_of(name);
    let len = chars.len();
    if !has_suffix(chars.as_slice(), ".dat") {
        return None;
    }
    let stem = vstd::slice::slice_subrange(chars.as_slice(), 0, len - 4);
    assert(stem@ =~= name@.take(len - 4));
    assert(stem@.skip(0) =~= stem@);
    if !matches_at(stem, 0, "marf-history-level-") {
        return None;
    }
    let rest = vstd::slice::slice_subrange(chars.as_slice(), 19, len - 4);
    assert(rest@ =~= name@.subrange(19, len - 4));
    let pieces = split_dashes(rest);
    let ghost p = parts(rest@);
    if pieces.len() != 5 {
        return None;
    }
    assert(pieces@[0]@ == p[0] && pieces@[1]@ == p[1] && pieces@[2]@ == p[2] && pieces@[3]@ == p[3]
        && pieces@[4]@ == p[4]);
    let min_piece = pieces[1].as_slice();
    if min_piece.len() == 0 || min_piece[0] != 'h' {
        return None;
    }
    let min_text = vstd::slice::slice_subrange(min_piece, 1, min_piece.len());
    assert(min_text@ =~= p[1].skip(1));
    if !is_text(pieces[3].as_slice(), "blob") {
        return None;
    }
    let level_id = parse_number(pieces[0].as_slice(), 10, u32::MAX as u64);
    let min_height = parse_number(min_text, 10, u32::MAX as u64);
    let max_height = parse_number(pieces[2].as_slice(), 10, u32::MAX as u64);
    let blob_offset = parse_number(pieces[4].as_slice(), 16, u64::MAX);
    proof {
        lemma_parsed_bound(p[0], 10, u32::MAX as nat);
        lemma_parsed_bound(p[1].skip(1), 10, u32::MAX as nat);
        lemma_parsed_bound(p[2], 10, u32::MAX as nat);
    }
    match (level_id, min_height, max_height, blob_offset) {
        (Some(level), Some(min), Some(max), Some(offset)) => Some(
            (level as u32, min as u32, max as u32, offset),
        ),
        _ => None,
    }
}

proof fn lemma_parsed_bound(s: Seq<char>, base: nat, max: nat)
    ensures
        parsed_number(s, base, max) matches Some(v) ==> v <= max,
{
}

/// Is this the name of a history blob that is still being written?
pub fn is_history_blob_tmp_name(name: &str) -> (r: bool)
    ensures
        r == is_tmp_name(name@),
{
    let chars = chars_of(name);
    assert(chars@.skip(0) =~= chars@);
    matches_at(chars.as_slice(), 0, ".history-tmp-") && has_suffix(chars.as_slice(), ".dat")
}

} // verus!
