//! The hot zone: rolling files that hold the tries of recent blocks.
//!
//! One hot file is active and takes the writer's appends; the others were rotated out and are
//! still referenced by blocks that have not been promoted. A set knows the files by their
//! sequence number and their length. What is on disk is read and written by the caller.

use crate::error::{corruption, corruption_at, Error};
use crate::history_names::{chars_of, starts_with};
use crate::text::{
    lemma_number_text_round_trip, lemma_padded_sorts, number_text, parse_number, parsed_number,
    push_number, sorts_before, ten_to,
};
use std::collections::HashMap;
use vstd::prelude::*;
use vstd::std_specs::iter::IteratorSpec;

verus! {

broadcast use vstd::std_specs::hash::group_hash_axioms;

/// Default rotation threshold for hot files: 1 GiB.
pub const DEFAULT_HOT_FILE_ROTATION_THRESHOLD_BYTES: u64 = 1 << 30;

/// What stands between the path of the database and the sequence number of a hot file.
pub const HOT_FILE_PREFIX: &'static str = ".hot.";

/// The path of a hot file.
pub open spec fn hot_path(db_path: Seq<char>, seq: u32) -> Seq<char> {
    db_path + HOT_FILE_PREFIX@ + number_text(seq as nat, 10, 8)
}

/// The sequence number that a file name tells, where it names a hot file of the database with
/// file name `stem`.
pub open spec fn hot_name_seq(stem: Seq<char>, name: Seq<char>) -> Option<u32> {
    let prefix = stem + HOT_FILE_PREFIX@;
    if starts_with(name, prefix) {
        match parsed_number(name.skip(prefix.len() as int), 10, u32::MAX as nat) {
            Some(seq) => Some(seq as u32),
            None => None,
        }
    } else {
        None
    }
}

/// A hot file's own name tells its sequence number.
pub proof fn law_hot_name_round_trip(stem: Seq<char>, seq: u32)
    ensures
        hot_name_seq(stem, hot_path(stem, seq)) == Some(seq),
{
    let prefix = stem + HOT_FILE_PREFIX@;
    let name = hot_path(stem, seq);
    lemma_number_text_round_trip(seq as nat, 10, 8, u32::MAX as nat);
    assert(name.take(prefix.len() as int) =~= prefix);
    assert(name.skip(prefix.len() as int) =~= number_text(seq as nat, 10, 8));
}

/// Hot files sort in the order in which they were written, as long as their numbers have no more
/// than eight digits.
pub proof fn law_hot_paths_sort(db_path: Seq<char>, a: u32, b: u32)
    requires
        a < b < 100_000_000,
    ensures
        sorts_before(hot_path(db_path, a), hot_path(db_path, b)),
{
    assert(ten_to(8) == 100_000_000) by {
        reveal_with_fuel(ten_to, 9);
    }
    lemma_padded_sorts(a as nat, b as nat, 8);
    let head = db_path + HOT_FILE_PREFIX@;
    let s = number_text(a as nat, 10, 8);
    let t = number_text(b as nat, 10, 8);
    let k = choose|k: int|
        0 <= k <= s.len() && k < t.len() && #[trigger] s.take(k) == t.take(k) && (k == s.len()
            || s[k] < t[k]);
    let n = head.len() + k;
    assert(hot_path(db_path, a).take(n) =~= head + s.take(k));
    assert(hot_path(db_path, b).take(n) =~= head + t.take(k));
}

/// Build the path for a hot file with the given database path and sequence number. The number
/// is zero-padded to eight digits so that listings sort in append order.
pub fn hot_file_path(db_path: &str, seq: u32) -> (r: String)
    ensures
        r@ == hot_path(db_path@, seq),
{
    let mut s = db_path.to_owned();
    s.append(HOT_FILE_PREFIX);
    push_number(&mut s, seq as u64, 10, 8);
    s
}

/// The sequence number of the hot file with this name, or `None` where it is not a hot file of
/// the database with file name `stem`.
pub fn hot_file_seq(stem: &str, name: &str) -> (r: Option<u32>)
    ensures
        r == hot_name_seq(stem@, name@),
{
    let mut prefix = stem.to_owned();
    prefix.append(HOT_FILE_PREFIX);
    let want = chars_of(prefix.as_str());
    let have = chars_of(name);
    let ghost p = stem@ + HOT_FILE_PREFIX@;
    let n = want.len();
    let total = have.len();
    if total < n {
        return None;
    }
    let mut i: usize = 0;
    while i < n
        invariant
            n == want@.len(),
            p == stem@ + HOT_FILE_PREFIX@,
            want@ == p,
            have@ == name@,
            n <= total,
            total == have@.len(),
            i <= n,
            forall|j: int| 0 <= j < i ==> have@[j] == want@[j],
        decreases n - i,
    {
        if have[i] != want[i] {
            assert(name@.take(n as int)[i as int] != p[i as int]);
            return None;
        }
        i += 1;
    }
    assert(name@.take(n as int) =~= p);
    let rest = vstd::slice::slice_subrange(have.as_slice(), n, total);
    assert(rest@ =~= name@.skip(n as int));
    match parse_number(rest, 10, u32::MAX as u64) {
        Some(seq) => Some(seq as u32),
        None => None,
    }
}

/// Which of the names in a directory are hot files, in order.
pub open spec fn hot_seqs_among(stem: Seq<char>, names: Seq<String>) -> Seq<u32>
    decreases names.len(),
{
    if names.len() == 0 {
        Seq::empty()
    } else {
        let before = hot_seqs_among(stem, names.drop_last());
        match hot_name_seq(stem, names.last()@) {
            Some(seq) => before.push(seq),
            None => before,
        }
    }
}

/// The sequence numbers of the hot files among the names of a directory.
pub fn scan_hot_files(stem: &str, names: &[String]) -> (r: Vec<u32>)
    ensures
        r@ == hot_seqs_among(stem@, names@),
{
    let mut out: Vec<u32> = Vec::new();
    let mut i: usize = 0;
    assert(out@ =~= hot_seqs_among(stem@, names@.take(0)));
    while i < names.len()
        invariant
            i <= names@.len(),
            out@ == hot_seqs_among(stem@, names@.take(i as int)),
        decreases names@.len() - i,
    {
        assert(names@.take(i + 1).drop_last() =~= names@.take(i as int));
        if let Some(seq) = hot_file_seq(stem, names[i].as_str()) {
            out.push(seq);
        }
        i += 1;
    }
    assert(names@.take(i as int) =~= names@);
    out
}

/// A single hot file.
#[derive(Debug)]
pub struct HotFile {
    /// Path on disk.
    pub path: String,
    /// Sequence number.
    pub seq: u32,
    /// Length in bytes: where the next append lands.
    pub len: u64,
}

impl HotFile {
    /// A hot file with this many bytes.
    pub fn new(path: String, seq: u32, len: u64) -> (r: HotFile)
        ensures
            r.path == path,
            r.seq == seq,
            r.len == len,
    {
        HotFile { path, seq, len }
    }

    /// Sequence number of this hot file.
    pub fn seq(&self) -> (r: u32)
        ensures
            r == self.seq,
    {
        self.seq
    }

    /// Path on disk.
    pub fn path(&self) -> (r: &str)
        ensures
            r@ == self.path@,
    {
        self.path.as_str()
    }

    /// Length of the file.
    pub fn len(&self) -> (r: u64)
        ensures
            r == self.len,
    {
        self.len
    }

    /// Make room for `buf` at the file's tail. Returns the offset where it belongs.
    pub fn append(&mut self, buf: &[u8]) -> (offset: u64)
        requires
            old(self).len + buf@.len() <= u64::MAX,
        ensures
            offset == old(self).len,
            final(self).len == old(self).len + buf@.len(),
            final(self).path == old(self).path,
            final(self).seq == old(self).seq,
    {
        let offset = self.len;
        self.len = self.len + buf.len() as u64;
        offset
    }

    /// The file was cut, or filled up with zeros, to `new_len` bytes.
    pub fn truncate(&mut self, new_len: u64)
        ensures
            final(self).len == new_len,
            final(self).path == old(self).path,
            final(self).seq == old(self).seq,
    {
        self.len = new_len;
    }
}

/// Copy bytes from a map of the file into `buf`, as many as there are from `offset` on. `None`
/// where the map ends before `offset`: it may lag behind the file, which then has to be read.
pub fn read_mapped(map: &[u8], buf: &mut [u8], offset: u64) -> (r: Option<usize>)
    ensures
        final(buf)@.len() == old(buf)@.len(),
        r is None <==> offset > map@.len(),
        r is None ==> final(buf)@ == old(buf)@,
        r matches Some(n) ==> {
            let rest = map@.skip(offset as int);
            &&& n == if rest.len() < old(buf)@.len() {
                rest.len()
            } else {
                old(buf)@.len()
            }
            &&& final(buf)@ == rest.take(n as int) + old(buf)@.skip(n as int)
        },
{
    let have = map.len();
    if offset > have as u64 {
        return None;
    }
    let start = offset as usize;
    let room = buf.len();
    let n: usize = if have - start < room {
        have - start
    } else {
        room
    };
    let ghost rest = map@.skip(offset as int);
    let mut i: usize = 0;
    assert(buf@ =~= rest.take(0) + old(buf)@.skip(0));
    while i < n
        invariant
            have == map@.len(),
            start == offset,
            start + n <= have,
            n <= room,
            room == old(buf)@.len(),
            rest == map@.skip(offset as int),
            i <= n,
            buf@.len() == room,
            buf@ == rest.take(i as int) + old(buf)@.skip(i as int),
        decreases n - i,
    {
        buf[i] = map[start + i];
        i += 1;
        assert(buf@ =~= rest.take(i as int) + old(buf)@.skip(i as int));
    }
    Some(n)
}

/// The hot files of one index, by sequence number.
#[derive(Debug)]
pub struct HotFileSet {
    /// Path of the database.
    pub db_path: String,
    /// All hot files.
    pub files: HashMap<u32, HotFile>,
    /// Sequence number of the active file. New appends land here.
    pub active_seq: u32,
    /// Length from which on the active file is rotated out.
    pub rotation_threshold_bytes: u64,
    /// Whether the files are mapped into memory.
    pub mmap_enabled: bool,
}

/// The lengths of the files that were found, by sequence number. What was found last counts.
pub open spec fn found_lens(on_disk: Seq<(u32, u64)>) -> Map<u32, u64>
    decreases on_disk.len(),
{
    if on_disk.len() == 0 {
        Map::empty()
    } else {
        found_lens(on_disk.drop_last()).insert(on_disk.last().0, on_disk.last().1)
    }
}

/// The files of a set that is being opened: those found, and the active one.
pub open spec fn opened_lens(on_disk: Seq<(u32, u64)>, active_seq: u32) -> Map<u32, u64> {
    let found = found_lens(on_disk);
    if found.contains_key(active_seq) {
        found
    } else {
        found.insert(active_seq, 0)
    }
}

/// The sequence numbers that are referenced and have no file, in order.
pub open spec fn orphan_seqs(referenced: Seq<(u32, u64)>, files: Map<u32, u64>) -> Seq<u32>
    decreases referenced.len(),
{
    if referenced.len() == 0 {
        Seq::empty()
    } else {
        let before = orphan_seqs(referenced.drop_last(), files);
        if files.contains_key(referenced.last().0) {
            before
        } else {
            before.push(referenced.last().0)
        }
    }
}

/// The rows that reference a file that exists, in order.
pub open spec fn kept_rows(referenced: Seq<(u32, u64)>, files: Map<u32, u64>) -> Seq<(u32, u64)>
    decreases referenced.len(),
{
    if referenced.len() == 0 {
        Seq::empty()
    } else {
        let before = kept_rows(referenced.drop_last(), files);
        if files.contains_key(referenced.last().0) {
            before.push(referenced.last())
        } else {
            before
        }
    }
}

/// Does every referenced file exist, with at least the bytes that were committed?
pub open spec fn committed_present(referenced: Seq<(u32, u64)>, files: Map<u32, u64>) -> bool {
    forall|i: int|
        0 <= i < referenced.len() ==> files.contains_key((#[trigger] referenced[i]).0)
            && files[referenced[i].0] >= referenced[i].1
}

proof fn lemma_orphans(referenced: Seq<(u32, u64)>, files: Map<u32, u64>)
    ensures
        forall|i: int|
            0 <= i < referenced.len() && !files.contains_key((#[trigger] referenced[i]).0)
                ==> orphan_seqs(referenced, files).contains(referenced[i].0),
        forall|j: int|
            0 <= j < orphan_seqs(referenced, files).len() ==> !files.contains_key(
                #[trigger] orphan_seqs(referenced, files)[j],
            ),
    decreases referenced.len(),
{
    if referenced.len() > 0 {
        let front = referenced.drop_last();
        lemma_orphans(front, files);
        let before = orphan_seqs(front, files);
        let all = orphan_seqs(referenced, files);
        assert forall|i: int|
            0 <= i < referenced.len() && !files.contains_key(
                (#[trigger] referenced[i]).0,
            ) implies all.contains(referenced[i].0) by {
            if i < front.len() {
                assert(front[i] == referenced[i]);
                assert(before.contains(referenced[i].0));
                let k = choose|k: int| 0 <= k < before.len() && before[k] == referenced[i].0;
                assert(all[k] == referenced[i].0);
            } else {
                assert(all[all.len() - 1] == referenced[i].0);
            }
        }
    }
}

/// Opening a set for writing gives up exactly the rows of the files that are gone: every row
/// that is left references a file of the set.
pub proof fn law_reconciled_rows_have_files(
    on_disk: Seq<(u32, u64)>,
    active_seq: u32,
    referenced: Seq<(u32, u64)>,
    row: int,
)
    requires
        0 <= row < referenced.len(),
    ensures
        opened_lens(on_disk, active_seq).contains_key(referenced[row].0) <==> !orphan_seqs(
            referenced,
            opened_lens(on_disk, active_seq),
        ).contains(referenced[row].0),
{
    let files = opened_lens(on_disk, active_seq);
    lemma_orphans(referenced, files);
    let o = orphan_seqs(referenced, files);
    if o.contains(referenced[row].0) {
        let k = choose|k: int| 0 <= k < o.len() && o[k] == referenced[row].0;
        assert(!files.contains_key(o[k]));
    }
}

/// `seqs` as a list in brackets.
pub open spec fn seqs_text(seqs: Seq<u32>) -> Seq<char>
    decreases seqs.len(),
{
    if seqs.len() == 0 {
        Seq::empty()
    } else if seqs.len() == 1 {
        number_text(seqs[0] as nat, 10, 0)
    } else {
        seqs_text(seqs.drop_last()) + ", "@ + number_text(seqs.last() as nat, 10, 0)
    }
}

fn push_seqs(out: &mut String, seqs: &[u32])
    ensures
        final(out)@ == old(out)@ + seqs_text(seqs@),
{
    let mut i: usize = 0;
    assert(out@ =~= old(out)@ + seqs_text(seqs@.take(0)));
    while i < seqs.len()
        invariant
            i <= seqs@.len(),
            out@ == old(out)@ + seqs_text(seqs@.take(i as int)),
        decreases seqs@.len() - i,
    {
        let ghost nxt = seqs@.take(i + 1);
        assert(nxt.drop_last() =~= seqs@.take(i as int));
        if i > 0 {
            out.append(", ");
        }
        push_number(out, seqs[i] as u64, 10, 0);
        i += 1;
        assert(out@ =~= old(out)@ + seqs_text(nxt));
    }
    assert(seqs@.take(i as int) =~= seqs@);
}

/// The message for rows without files that only a writer may clean up.
pub open spec fn readonly_orphans_message(seqs: Seq<u32>) -> Seq<char> {
    "hot_file: readonly open observed missing referenced hot file(s) (orphan_seqs=["@ + seqs_text(
        seqs,
    ) + "]); reopen RW to reconcile"@
}

/// The message where a reader finds no active file.
pub open spec fn no_active_message(db_path: Seq<char>, seq: u32) -> Seq<char> {
    "hot_file: readonly open: active hot file (seq="@ + number_text(seq as nat, 10, 0)
        + ") is missing from disk at "@ + hot_path(db_path, seq) + "; refusing to synthesize"@
}

/// The message where a committed file is not there (`on_disk` is `None`) or too short.
pub open spec fn not_committed_message(seq: u32, on_disk: Option<u64>, committed: u64) -> Seq<
    char,
> {
    "hot_file: <db>.hot."@ + number_text(seq as nat, 10, 8) + match on_disk {
        None => " is referenced by marf_data but not present on disk"@,
        Some(len) => " is shorter than committed extent (on_disk="@ + number_text(len as nat, 10, 0)
            + ", committed="@ + number_text(committed as nat, 10, 0) + ")"@,
    }
}

/// Is `e` what is reported of a row whose file is not there or too short?
pub open spec fn refused_row(row: (u32, u64), files: Map<u32, u64>, e: Error) -> bool {
    let on_disk = if files.contains_key(row.0) {
        Some(files[row.0])
    } else {
        None
    };
    &&& on_disk matches Some(len) ==> len < row.1
    &&& e matches Error::CorruptionError(m) && m@ == not_committed_message(row.0, on_disk, row.1)
}

/// Is `e` what is reported of the first row whose file is not there or too short?
pub open spec fn not_committed_to(
    referenced: Seq<(u32, u64)>,
    files: Map<u32, u64>,
    e: Error,
) -> bool {
    exists|k: int|
        0 <= k < referenced.len() && committed_present(referenced.take(k), files)
            && #[trigger] refused_row(referenced[k], files, e)
}

fn not_committed(seq: u32, on_disk: Option<u64>, committed: u64) -> (e: Error)
    ensures
        e matches Error::CorruptionError(m) && m@ == not_committed_message(seq, on_disk, committed),
{
    let mut m = "hot_file: <db>.hot.".to_owned();
    push_number(&mut m, seq as u64, 10, 8);
    match on_disk {
        None => m.append(" is referenced by marf_data but not present on disk"),
        Some(len) => {
            m.append(" is shorter than committed extent (on_disk=");
            push_number(&mut m, len, 10, 0);
            m.append(", committed=");
            push_number(&mut m, committed, 10, 0);
            m.append(")");
        },
    }
    assert(m@ =~= not_committed_message(seq, on_disk, committed));
    Error::CorruptionError(m)
}

impl HotFileSet {
    /// Does every file have the name and number under which the set knows it?
    pub open spec fn wf(&self) -> bool {
        forall|s: u32| #[trigger]
            self.files@.contains_key(s) ==> self.files@[s].seq == s && self.files@[s].path@
                == hot_path(self.db_path@, s)
    }

    /// The lengths of the files, by sequence number.
    pub open spec fn lens(&self) -> Map<u32, u64> {
        self.files@.map_values(|f: HotFile| f.len)
    }

    /// Put a file into the set, in place of one with the same number.
    fn put(&mut self, seq: u32, len: u64)
        requires
            old(self).wf(),
        ensures
            final(self).wf(),
            final(self).lens() == old(self).lens().insert(seq, len),
            final(self).db_path == old(self).db_path,
            final(self).active_seq == old(self).active_seq,
            final(self).rotation_threshold_bytes == old(self).rotation_threshold_bytes,
            final(self).mmap_enabled == old(self).mmap_enabled,
    {
        let path = hot_file_path(self.db_path.as_str(), seq);
        let _ = self.files.insert(seq, HotFile::new(path, seq, len));
        assert(self.lens() =~= old(self).lens().insert(seq, len));
    }

    /// Open the set over the files that were found, each with its length, and the rows that
    /// reference hot files, each sequence number with its committed length.
    ///
    /// An active file that was not found is new and empty. Sequence numbers that are referenced
    /// and have no file are returned: `drop_rows` deletes their rows, and its errors are passed on.
    /// A reader must do neither, so both are corruption to it. A file that nothing references
    /// stays: it was promoted, and waits to be swept. The files of all other rows must have the
    /// bytes that were committed.
    pub fn open<D: Fn(u32) -> Result<(), Error>>(
        db_path: &str,
        active_seq: u32,
        mmap_enabled: bool,
        rotation_threshold_bytes: u64,
        readonly: bool,
        on_disk: &[(u32, u64)],
        referenced: &[(u32, u64)],
        drop_rows: D,
    ) -> (r: Result<(HotFileSet, Vec<u32>), Error>)
        requires
            forall|seq: u32| drop_rows.requires((seq,)),
        ensures
            ({
                let files = opened_lens(on_disk@, active_seq);
                let orphans = orphan_seqs(referenced@, files);
                let no_active = !found_lens(on_disk@).contains_key(active_seq);
                match r {
                    Ok((set, rows)) => {
                        &&& !(readonly && (no_active || orphans.len() > 0))
                        &&& set.wf()
                        &&& set.lens() == files
                        &&& rows@ == orphans
                        &&& forall|i: int|
                            0 <= i < orphans.len() ==> drop_rows.ensures(
                                (#[trigger] orphans[i],),
                                Ok(()),
                            )
                        &&& committed_present(kept_rows(referenced@, files), files)
                        &&& set.db_path@ == db_path@
                        &&& set.active_seq == active_seq
                        &&& set.rotation_threshold_bytes == rotation_threshold_bytes
                        &&& set.mmap_enabled == mmap_enabled
                    },
                    Err(e) => if readonly && no_active {
                        e matches Error::CorruptionError(m) && m@ == no_active_message(
                            db_path@,
                            active_seq,
                        )
                    } else if readonly && orphans.len() > 0 {
                        e matches Error::CorruptionError(m) && m@ == readonly_orphans_message(
                            orphans,
                        )
                    } else {
                        ||| exists|i: int|
                            0 <= i < orphans.len() && drop_rows.ensures(
                                (#[trigger] orphans[i],),
                                Err(e),
                            )
                        ||| not_committed_to(kept_rows(referenced@, files), files, e)
                    },
                }
            }),
    {
        let mut set = HotFileSet {
            db_path: db_path.to_owned(),
            files: HashMap::new(),
            active_seq,
            rotation_threshold_bytes,
            mmap_enabled,
        };
        let mut i: usize = 0;
        assert(set.lens() =~= found_lens(on_disk@.take(0)));
        while i < on_disk.len()
            invariant
                i <= on_disk@.len(),
                set.wf(),
                set.lens() == found_lens(on_disk@.take(i as int)),
                set.db_path@ == db_path@,
                set.active_seq == active_seq,
                set.rotation_threshold_bytes == rotation_threshold_bytes,
                set.mmap_enabled == mmap_enabled,
            decreases on_disk@.len() - i,
        {
            assert(on_disk@.take(i + 1).drop_last() =~= on_disk@.take(i as int));
            set.put(on_disk[i].0, on_disk[i].1);
            i += 1;
        }
        assert(on_disk@.take(i as int) =~= on_disk@);
        if !set.files.contains_key(&active_seq) {
            if readonly {
                let path = hot_file_path(db_path, active_seq);
                let mut m = "hot_file: readonly open: active hot file (seq=".to_owned();
                push_number(&mut m, active_seq as u64, 10, 0);
                m.append(") is missing from disk at ");
                m.append(path.as_str());
                m.append("; refusing to synthesize");
                return Err(Error::CorruptionError(m));
            }
            set.put(active_seq, 0);
        }
        let orphans = set.rows_without_file(referenced);
        if orphans.len() > 0 && readonly {
            let mut m =
                "hot_file: readonly open observed missing referenced hot file(s) (orphan_seqs=[".to_owned();
            push_seqs(&mut m, orphans.as_slice());
            m.append("]); reopen RW to reconcile");
            return Err(Error::CorruptionError(m));
        }
        let mut k: usize = 0;
        while k < orphans.len()
            invariant
                forall|seq: u32| drop_rows.requires((seq,)),
                k <= orphans@.len(),
                orphans@ == orphan_seqs(referenced@, opened_lens(on_disk@, active_seq)),
                !(readonly && !found_lens(on_disk@).contains_key(active_seq)),
                !(readonly && orphans@.len() > 0),
                forall|j: int|
                    0 <= j < k ==> drop_rows.ensures((#[trigger] orphans@[j],), Ok(())),
            decreases orphans@.len() - k,
        {
            match drop_rows(orphans[k]) {
                Ok(u) => {
                    assert(u == ());
                },
                Err(e) => {
                    assert(drop_rows.ensures((orphans@[k as int],), Err(e)));
                    return Err(e);
                },
            }
            k += 1;
        }
        let kept = set.rows_with_file(referenced);
        match set.check_committed(kept.as_slice()) {
            Ok(_) => Ok((set, orphans)),
            Err(e) => Err(e),
        }
    }

    /// The rows that reference a file of the set.
    fn rows_with_file(&self, referenced: &[(u32, u64)]) -> (r: Vec<(u32, u64)>)
        ensures
            r@ == kept_rows(referenced@, self.lens()),
    {
        let mut out: Vec<(u32, u64)> = Vec::new();
        let mut i: usize = 0;
        assert(out@ =~= kept_rows(referenced@.take(0), self.lens()));
        while i < referenced.len()
            invariant
                i <= referenced@.len(),
                out@ == kept_rows(referenced@.take(i as int), self.lens()),
            decreases referenced@.len() - i,
        {
            assert(referenced@.take(i + 1).drop_last() =~= referenced@.take(i as int));
            if self.files.contains_key(&referenced[i].0) {
                out.push(referenced[i]);
            }
            i += 1;
        }
        assert(referenced@.take(i as int) =~= referenced@);
        out
    }

    /// The sequence numbers that are referenced and have no file.
    pub fn rows_without_file(&self, referenced: &[(u32, u64)]) -> (r: Vec<u32>)
        ensures
            r@ == orphan_seqs(referenced@, self.lens()),
    {
        let mut out: Vec<u32> = Vec::new();
        let mut i: usize = 0;
        assert(out@ =~= orphan_seqs(referenced@.take(0), self.lens()));
        while i < referenced.len()
            invariant
                i <= referenced@.len(),
                out@ == orphan_seqs(referenced@.take(i as int), self.lens()),
            decreases referenced@.len() - i,
        {
            assert(referenced@.take(i + 1).drop_last() =~= referenced@.take(i as int));
            if !self.files.contains_key(&referenced[i].0) {
                out.push(referenced[i].0);
            }
            i += 1;
        }
        assert(referenced@.take(i as int) =~= referenced@);
        out
    }

    /// Check that every referenced file exists and is not shorter than what was committed.
    pub fn check_committed(&self, referenced: &[(u32, u64)]) -> (r: Result<(), Error>)
        ensures
            r is Ok <==> committed_present(referenced@, self.lens()),
            r matches Err(e) ==> not_committed_to(referenced@, self.lens(), e),
    {
        let mut i: usize = 0;
        while i < referenced.len()
            invariant
                i <= referenced@.len(),
                forall|j: int|
                    0 <= j < i ==> self.lens().contains_key((#[trigger] referenced@[j]).0)
                        && self.lens()[referenced@[j].0] >= referenced@[j].1,
            decreases referenced@.len() - i,
        {
            let (seq, committed) = referenced[i];
            assert(referenced@[i as int] == (seq, committed));
            match self.files.get(&seq) {
                None => {
                    assert(!self.lens().contains_key(seq));
                    let e = not_committed(seq, None, committed);
                    assert(refused_row(referenced@[i as int], self.lens(), e));
                    return Err(e);
                },
                Some(hot) => {
                    if hot.len < committed {
                        assert(self.lens()[seq] < committed);
                        let e = not_committed(seq, Some(hot.len), committed);
                        assert(refused_row(referenced@[i as int], self.lens(), e));
                        return Err(e);
                    }
                },
            }
            i += 1;
        }
        Ok(())
    }

    /// Sequence number of the active hot file.
    pub fn active_seq(&self) -> (r: u32)
        ensures
            r == self.active_seq,
    {
        self.active_seq
    }

    /// Configured rotation threshold in bytes.
    pub fn rotation_threshold_bytes(&self) -> (r: u64)
        ensures
            r == self.rotation_threshold_bytes,
    {
        self.rotation_threshold_bytes
    }

    /// Override the rotation threshold.
    pub fn set_rotation_threshold_bytes(&mut self, bytes: u64)
        ensures
            final(self).rotation_threshold_bytes == bytes,
            final(self).files == old(self).files,
            final(self).db_path == old(self).db_path,
            final(self).active_seq == old(self).active_seq,
            final(self).mmap_enabled == old(self).mmap_enabled,
    {
        self.rotation_threshold_bytes = bytes;
    }

    /// Number of hot files in the set.
    pub fn file_count(&self) -> (r: usize)
        ensures
            r == self.lens().dom().len(),
    {
        assert(self.lens().dom() =~= self.files@.dom());
        self.files.len()
    }

    /// Where the next append of `buf` to the active file lands: the file and the offset. The
    /// file is longer afterwards. Nothing is rotated here.
    pub fn append_to_active(&mut self, buf: &[u8]) -> (r: Result<(u32, u64), Error>)
        requires
            old(self).wf(),
            old(self).lens().contains_key(old(self).active_seq) ==> old(self).lens()[old(
                self,
            ).active_seq] + buf@.len() <= u64::MAX,
        ensures
            final(self).wf(),
            final(self).active_seq == old(self).active_seq,
            final(self).db_path == old(self).db_path,
            final(self).rotation_threshold_bytes == old(self).rotation_threshold_bytes,
            final(self).mmap_enabled == old(self).mmap_enabled,
            match r {
                Ok((seq, offset)) => {
                    &&& old(self).lens().contains_key(seq)
                    &&& seq == old(self).active_seq
                    &&& offset == old(self).lens()[seq]
                    &&& final(self).lens() == old(self).lens().insert(
                        seq,
                        (offset + buf@.len()) as u64,
                    )
                },
                Err(e) => {
                    &&& e is CorruptionError
                    &&& !old(self).lens().contains_key(old(self).active_seq)
                    &&& final(self).lens() == old(self).lens()
                },
            },
    {
        let seq = self.active_seq;
        match self.files.remove(&seq) {
            None => {
                assert(self.lens() =~= old(self).lens());
                Err(
                    corruption_at(
                        "hot_file: active hot file (seq=",
                        seq as u64,
                        ") missing from set",
                    ),
                )
            },
            Some(mut hot) => {
                assert(old(self).files@.contains_key(seq));
                assert(hot.len == old(self).lens()[seq]);
                let offset = hot.append(buf);
                let _ = self.files.insert(seq, hot);
                assert(self.lens() =~= old(self).lens().insert(seq, (offset + buf@.len()) as u64));
                Ok((seq, offset))
            },
        }
    }

    /// Length of the active hot file.
    pub fn active_len(&self) -> (r: Result<u64, Error>)
        ensures
            match r {
                Ok(len) => self.lens().contains_key(self.active_seq) && len
                    == self.lens()[self.active_seq],
                Err(e) => e is CorruptionError && !self.lens().contains_key(self.active_seq),
            },
    {
        match self.files.get(&self.active_seq) {
            Some(hot) => Ok(hot.len),
            None => Err(
                corruption_at(
                    "hot_file: active hot file (seq=",
                    self.active_seq as u64,
                    ") missing from set",
                ),
            ),
        }
    }

    /// Whether the active file has reached the rotation threshold.
    pub fn should_rotate(&self) -> (r: Result<bool, Error>)
        ensures
            match r {
                Ok(b) => self.lens().contains_key(self.active_seq) && b == (
                self.lens()[self.active_seq] >= self.rotation_threshold_bytes),
                Err(e) => e is CorruptionError && !self.lens().contains_key(self.active_seq),
            },
    {
        match self.active_len() {
            Ok(len) => Ok(len >= self.rotation_threshold_bytes),
            Err(e) => Err(e),
        }
    }

    /// The sequence number that follows the active one.
    pub fn next_seq(&self) -> (r: Result<u32, Error>)
        ensures
            match r {
                Ok(seq) => self.active_seq < u32::MAX && seq == self.active_seq + 1,
                Err(e) => e is CorruptionError && self.active_seq == u32::MAX,
            },
    {
        match self.active_seq.checked_add(1) {
            Some(seq) => Ok(seq),
            None => Err(corruption("hot_file: active_hot_seq exhausted u32")),
        }
    }

    /// Rotate the active hot file out: the file with the next sequence number, which has
    /// `opened_len` bytes (none where it is new), becomes active. The old one stays in the set.
    pub fn rotate(&mut self, opened_len: u64) -> (r: Result<u32, Error>)
        requires
            old(self).wf(),
        ensures
            final(self).wf(),
            final(self).db_path == old(self).db_path,
            final(self).rotation_threshold_bytes == old(self).rotation_threshold_bytes,
            final(self).mmap_enabled == old(self).mmap_enabled,
            match r {
                Ok(seq) => {
                    &&& seq == old(self).active_seq + 1
                    &&& final(self).active_seq == seq
                    &&& final(self).lens() == old(self).lens().insert(seq, opened_len)
                },
                Err(e) => {
                    &&& e is CorruptionError
                    &&& old(self).active_seq == u32::MAX
                    &&& *final(self) == *old(self)
                },
            },
    {
        match self.next_seq() {
            Err(e) => Err(e),
            Ok(seq) => {
                self.put(seq, opened_len);
                let ghost lens = self.lens();
                self.active_seq = seq;
                assert(self.lens() =~= lens);
                Ok(seq)
            },
        }
    }

    /// The active hot file was cut to `new_len` bytes.
    pub fn truncate_active(&mut self, new_len: u64) -> (r: Result<(), Error>)
        requires
            old(self).wf(),
        ensures
            final(self).wf(),
            final(self).active_seq == old(self).active_seq,
            final(self).db_path == old(self).db_path,
            final(self).rotation_threshold_bytes == old(self).rotation_threshold_bytes,
            final(self).mmap_enabled == old(self).mmap_enabled,
            match r {
                Ok(_) => old(self).lens().contains_key(old(self).active_seq) && final(self).lens()
                    == old(self).lens().insert(old(self).active_seq, new_len),
                Err(e) => e is CorruptionError && !old(self).lens().contains_key(
                    old(self).active_seq,
                ) && final(self).lens() == old(self).lens(),
            },
    {
        let seq = self.active_seq;
        match self.files.remove(&seq) {
            None => {
                assert(self.lens() =~= old(self).lens());
                Err(
                    corruption_at(
                        "hot_file: active hot file (seq=",
                        seq as u64,
                        ") missing from set",
                    ),
                )
            },
            Some(mut hot) => {
                hot.truncate(new_len);
                let _ = self.files.insert(seq, hot);
                assert(self.lens() =~= old(self).lens().insert(seq, new_len));
                Ok(())
            },
        }
    }

    /// Path of the hot file with the given sequence number.
    pub fn path_for_seq(&self, seq: u32) -> (r: Result<&str, Error>)
        requires
            self.wf(),
        ensures
            match r {
                Ok(path) => self.lens().contains_key(seq) && path@ == hot_path(self.db_path@, seq),
                Err(e) => !self.lens().contains_key(seq) && (e matches Error::CorruptionError(m)
                    && m@ == "hot_file: path_for_seq for seq="@ + number_text(seq as nat, 10, 0)
                    + " but file not in set"@),
            },
    {
        match self.files.get(&seq) {
            Some(hot) => {
                assert(self.files@.contains_key(seq));
                Ok(hot.path.as_str())
            },
            None => Err(
                corruption_at(
                    "hot_file: path_for_seq for seq=",
                    seq as u64,
                    " but file not in set",
                ),
            ),
        }
    }

    /// Remove the entry for `seq`. There need not be one.
    pub fn drop_seq(&mut self, seq: u32)
        requires
            old(self).wf(),
        ensures
            final(self).wf(),
            final(self).lens() == old(self).lens().remove(seq),
            final(self).active_seq == old(self).active_seq,
            final(self).db_path == old(self).db_path,
            final(self).rotation_threshold_bytes == old(self).rotation_threshold_bytes,
            final(self).mmap_enabled == old(self).mmap_enabled,
    {
        let _ = self.files.remove(&seq);
        assert(self.lens() =~= old(self).lens().remove(seq));
    }

    /// The sequence numbers of the files, oldest first.
    pub fn seqs(&self) -> (r: Vec<u32>)
        ensures
            ascending(r@),
            forall|s: u32| r@.contains(s) <==> self.lens().contains_key(s),
    {
        let mut out: Vec<u32> = Vec::new();
        let ghost all = vstd::std_specs::hash::spec_keys_iter(&self.files).remaining().unref();
        let ghost mut done: int = 0;
        for k in it: self.files.keys()
            invariant
                it.seq().unref() == all,
                it.seq().no_duplicates(),
                done == it.index(),
                ascending(out@),
                forall|s: u32| out@.contains(s) <==> all.take(done).contains(s),
        {
            let ghost before = out@;
            let at = position(out.as_slice(), *k);
            proof {
                assert(*k == all[done]);
                assert(all.take(done + 1) =~= all.take(done).push(*k));
                if out@.contains(*k) {
                    let j = choose|j: int| 0 <= j < done && all.take(done)[j] == *k;
                    assert(it.seq()[j] == it.seq()[done]);
                }
            }
            out.insert(at, *k);
            proof {
                lemma_insert_ascending(before, at as int, *k);
                assert(out@ =~= before.insert(at as int, *k));
                assert forall|s: u32| out@.contains(s) <==> all.take(done + 1).contains(s) by {
                    lemma_push_contains(all.take(done), *k, s);
                    assert(before.contains(s) <==> all.take(done).contains(s));
                }
                done = done + 1;
            }
        }
        proof {
            assert(all.take(done) =~= all);
            assert(all.to_set() == self.files@.dom());
            assert forall|s: u32| out@.contains(s) <==> self.lens().contains_key(s) by {
                assert(all.contains(s) <==> all.to_set().contains(s));
            }
        }
        out
    }
}

/// Is every number greater than the one before it?
pub open spec fn ascending(s: Seq<u32>) -> bool {
    forall|i: int, j: int| 0 <= i < j < s.len() ==> s[i] < s[j]
}

/// Where `x` belongs in an ascending list.
fn position(s: &[u32], x: u32) -> (at: usize)
    requires
        ascending(s@),
    ensures
        at <= s@.len(),
        forall|i: int| 0 <= i < at ==> s@[i] < x,
        forall|i: int| at <= i < s@.len() ==> s@[i] >= x,
{
    let mut at: usize = 0;
    while at < s.len()
        invariant
            at <= s@.len(),
            ascending(s@),
            forall|i: int| 0 <= i < at ==> s@[i] < x,
        decreases s@.len() - at,
    {
        if s[at] >= x {
            return at;
        }
        at += 1;
    }
    at
}

proof fn lemma_insert_ascending(s: Seq<u32>, at: int, x: u32)
    requires
        ascending(s),
        0 <= at <= s.len(),
        !s.contains(x),
        forall|i: int| 0 <= i < at ==> s[i] < x,
        forall|i: int| at <= i < s.len() ==> s[i] >= x,
    ensures
        ascending(s.insert(at, x)),
        forall|y: u32| s.insert(at, x).contains(y) <==> s.contains(y) || y == x,
{
    let t = s.insert(at, x);
    assert forall|i: int, j: int| 0 <= i < j < t.len() implies t[i] < t[j] by {
        if i == at {
            assert(t[j] == s[j - 1]);
            assert(s.contains(s[j - 1]));
        }
    }
    assert forall|y: u32| t.contains(y) <==> s.contains(y) || y == x by {
        if t.contains(y) {
            let k = choose|k: int| 0 <= k < t.len() && t[k] == y;
            if k < at {
                assert(s[k] == y);
            } else if k > at {
                assert(s[k - 1] == y);
            }
        }
        if s.contains(y) {
            let k = choose|k: int| 0 <= k < s.len() && s[k] == y;
            if k < at {
                assert(t[k] == y);
            } else {
                assert(t[k + 1] == y);
            }
        }
        if y == x {
            assert(t[at] == y);
        }
    }
}

proof fn lemma_push_contains(s: Seq<u32>, x: u32, y: u32)
    ensures
        s.push(x).contains(y) <==> s.contains(y) || y == x,
{
    if s.contains(y) {
        let k = choose|k: int| 0 <= k < s.len() && s[k] == y;
        assert(s.push(x)[k] == y);
    }
    if y == x {
        assert(s.push(x)[s.len() as int] == y);
    }
}

} // verus!
