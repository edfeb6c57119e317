//! Flat storage of tries in memory, and the export of tries into it.

use crate::error::Error;
use crate::hot_file::read_mapped;
use crate::trie_file::{rest_of, TrieIdOffsets};
use vstd::prelude::*;

verus! {

/// The name of storage in memory.
pub open spec fn memory_path() -> Seq<char> {
    ":memory:"@
}

/// Is this the name of storage in memory?
pub fn is_memory_path(path: &str) -> (r: bool)
    ensures
        r == (path@ == memory_path()),
{
    let have = crate::history_names::chars_of(path);
    let want = crate::history_names::chars_of(":memory:");
    if have.len() != want.len() {
        return false;
    }
    let mut i: usize = 0;
    while i < have.len()
        invariant
            have@ == path@,
            want@ == memory_path(),
            have@.len() == want@.len(),
            i <= have@.len(),
            forall|j: int| 0 <= j < i ==> have@[j] == want@[j],
        decreases have@.len() - i,
    {
        if have[i] != want[i] {
            assert(path@[i as int] != memory_path()[i as int]);
            return false;
        }
        i += 1;
    }
    assert(path@ =~= memory_path());
    true
}

/// Path of the file with the tries of the database at `path`.
pub fn blobs_path(path: &str) -> (r: String)
    ensures
        r@ == path@ + ".blobs"@,
{
    let mut s = path.to_owned();
    s.append(".blobs");
    s
}

/// `data` with `buf` written over it from `offset` on. Where it was shorter, zeros fill the gap.
pub open spec fn overwritten(data: Seq<u8>, buf: Seq<u8>, offset: int) -> Seq<u8> {
    let end = offset + buf.len();
    let n = if data.len() < end {
        end
    } else {
        data.len() as int
    };
    Seq::new(
        n as nat,
        |i: int|
            if offset <= i < end {
                buf[i - offset]
            } else if i < data.len() {
                data[i]
            } else {
                0
            },
    )
}

/// What was written is read back, what was there beside it is still there, a gap before it holds
/// zeros, and nothing else is there.
pub proof fn law_overwritten(data: Seq<u8>, buf: Seq<u8>, offset: int)
    requires
        0 <= offset,
    ensures
        overwritten(data, buf, offset).subrange(offset, offset + buf.len()) == buf,
        forall|i: int|
            0 <= i < data.len() && (i < offset || offset + buf.len() <= i)
                ==> #[trigger] overwritten(data, buf, offset)[i] == data[i],
        offset == data.len() ==> overwritten(data, buf, offset) == data + buf,
        forall|i: int|
            data.len() <= i < offset ==> #[trigger] overwritten(data, buf, offset)[i] == 0,
        overwritten(data, buf, offset).len() == if offset + buf.len() > data.len() {
            offset + buf.len()
        } else {
            data.len() as int
        },
{
    assert(overwritten(data, buf, offset).subrange(offset, offset + buf.len()) =~= buf);
    if offset == data.len() {
        assert(overwritten(data, buf, offset) =~= data + buf);
    }
}

/// Flat storage of tries in memory.
#[derive(Debug)]
pub struct TrieFileRAM {
    pub data: Vec<u8>,
    pub trie_offsets: TrieIdOffsets,
}

/// A trie that was exported: its block, and where it is.
#[derive(Debug, Clone, Copy, PartialEq, Eq, Structural)]
pub struct ExportedBlob {
    pub block_id: u32,
    pub offset: u64,
    pub length: u64,
}

/// What becomes of a block in an export.
#[derive(Debug, Clone, Copy, PartialEq, Eq, Structural)]
pub enum ExportStep {
    /// There is no such block, or it is unconfirmed.
    Skip,
    /// Its trie is copied.
    Copy,
}

/// What becomes of a block, given whether it is unconfirmed. A block that does not exist is
/// skipped; any other error ends the export.
pub fn export_step(unconfirmed: Result<bool, Error>) -> (r: Result<ExportStep, Error>)
    ensures
        match unconfirmed {
            Ok(true) => r == Ok::<ExportStep, Error>(ExportStep::Skip),
            Err(Error::NotFoundError) => r == Ok::<ExportStep, Error>(ExportStep::Skip),
            Ok(false) => r == Ok::<ExportStep, Error>(ExportStep::Copy),
            Err(e) => r == Err::<ExportStep, Error>(e),
        },
{
    match unconfirmed {
        Ok(true) => Ok(ExportStep::Skip),
        Err(Error::NotFoundError) => Ok(ExportStep::Skip),
        Ok(false) => Ok(ExportStep::Copy),
        Err(e) => Err(e),
    }
}

/// The tries of a database: which blocks are confirmed, and their tries.
pub struct BlobTable {
    pub confirmed: spec_fn(u32) -> bool,
    pub blob: spec_fn(u32) -> Seq<u8>,
}

/// Do the two lookups answer from this database?
pub open spec fn serves<
    U: Fn(u32) -> Result<bool, Error>,
    B: Fn(u32) -> Result<Vec<u8>, Error>,
>(is_unconfirmed: U, read_blob: B, table: BlobTable) -> bool {
    &&& forall|id: u32| #[trigger]
        is_unconfirmed.ensures((id,), Ok(true)) ==> !(table.confirmed)(id)
    &&& forall|id: u32| #[trigger]
        is_unconfirmed.ensures((id,), Err(Error::NotFoundError)) ==> !(table.confirmed)(id)
    &&& forall|id: u32| #[trigger]
        is_unconfirmed.ensures((id,), Ok(false)) ==> (table.confirmed)(id)
    &&& forall|id: u32, bytes: Vec<u8>| #[trigger]
        read_blob.ensures((id,), Ok(bytes)) ==> bytes@ == (table.blob)(id)
}

/// Can block `id` have ended an export with `e`? A block that does not exist ends none, and only
/// the tries of confirmed blocks are read.
pub open spec fn export_failed<
    U: Fn(u32) -> Result<bool, Error>,
    B: Fn(u32) -> Result<Vec<u8>, Error>,
>(is_unconfirmed: U, read_blob: B, id: u32, e: Error) -> bool {
    ||| !(e is NotFoundError) && is_unconfirmed.ensures((id,), Err(e))
    ||| is_unconfirmed.ensures((id,), Ok(false)) && read_blob.ensures((id,), Err(e))
}

/// The storage and the rows after the first `n` blocks were exported to the end of `data`.
pub open spec fn exported(table: BlobTable, data: Seq<u8>, n: nat) -> (Seq<u8>, Seq<ExportedBlob>)
    decreases n,
{
    if n == 0 {
        (data, Seq::empty())
    } else {
        let (before, rows) = exported(table, data, (n - 1) as nat);
        let id = (n - 1) as u32;
        if (table.confirmed)(id) {
            let blob = (table.blob)(id);
            (
                before + blob,
                rows.push(
                    ExportedBlob {
                        block_id: id,
                        offset: before.len() as u64,
                        length: blob.len() as u64,
                    },
                ),
            )
        } else {
            (before, rows)
        }
    }
}

/// Every row of an export leads to the trie of its block, only confirmed blocks have rows, each
/// confirmed block among those exported has one, and what was there before is still there.
pub proof fn law_export(table: BlobTable, data: Seq<u8>, n: nat)
    requires
        n <= 0x1_0000_0000,
        exported(table, data, n).0.len() <= u64::MAX,
    ensures
        ({
            let (now, rows) = exported(table, data, n);
            &&& data.len() <= now.len()
            &&& now.take(data.len() as int) == data
            &&& forall|i: int|
                0 <= i < rows.len() ==> {
                    let row = #[trigger] rows[i];
                    &&& row.block_id < n
                    &&& (table.confirmed)(row.block_id)
                    &&& row.offset + row.length <= now.len()
                    &&& now.subrange(row.offset as int, row.offset + row.length) == (table.blob)(
                        row.block_id,
                    )
                }
            &&& forall|id: u32|
                id < n && #[trigger] (table.confirmed)(id) ==> exists|i: int|
                    0 <= i < rows.len() && (#[trigger] rows[i]).block_id == id
        }),
    decreases n,
{
    let (now, rows) = exported(table, data, n);
    if n == 0 {
        assert(now.take(data.len() as int) =~= data);
    } else {
        let (before, had) = exported(table, data, (n - 1) as nat);
        law_export(table, data, (n - 1) as nat);
        let last = (n - 1) as u32;
        assert(now.take(data.len() as int) =~= data);
        assert forall|i: int| 0 <= i < rows.len() implies {
            let row = #[trigger] rows[i];
            &&& row.block_id < n
            &&& (table.confirmed)(row.block_id)
            &&& row.offset + row.length <= now.len()
            &&& now.subrange(row.offset as int, row.offset + row.length) == (table.blob)(
                row.block_id,
            )
        } by {
            let row = rows[i];
            if i < had.len() {
                assert(rows[i] == had[i]);
                assert(now.subrange(row.offset as int, row.offset + row.length)
                    =~= before.subrange(row.offset as int, row.offset + row.length));
            } else {
                assert(now.subrange(row.offset as int, row.offset + row.length) =~= (table.blob)(
                    last,
                ));
            }
        }
        assert forall|id: u32| id < n && #[trigger] (table.confirmed)(id) implies exists|i: int|
            0 <= i < rows.len() && (#[trigger] rows[i]).block_id == id by {
            if id < n - 1 {
                let i = choose|i: int| 0 <= i < had.len() && (#[trigger] had[i]).block_id == id;
                assert(rows[i].block_id == id);
            } else {
                assert(rows[had.len() as int].block_id == id);
            }
        }
    }
}

impl TrieFileRAM {
    pub fn new() -> (r: TrieFileRAM)
        ensures
            r.data@ == Seq::<u8>::empty(),
            r.trie_offsets@ == Map::<u32, u64>::empty(),
            r.trie_offsets.bounded(),
    {
        TrieFileRAM { data: Vec::new(), trie_offsets: TrieIdOffsets::new() }
    }

    /// The name of storage in memory.
    pub fn get_path(&self) -> (r: String)
        ensures
            r@ == memory_path(),
    {
        ":memory:".to_owned()
    }

    /// Read into `buf` as many bytes as there are from `offset` on.
    pub fn read_bytes_at(&self, buf: &mut [u8], offset: u64) -> (r: Result<usize, Error>)
        ensures
            final(buf)@.len() == old(buf)@.len(),
            match r {
                Ok(n) => {
                    let rest = self.data@.skip(offset as int);
                    &&& offset <= self.data@.len()
                    &&& n == if rest.len() < old(buf)@.len() {
                        rest.len()
                    } else {
                        old(buf)@.len()
                    }
                    &&& final(buf)@ == rest.take(n as int) + old(buf)@.skip(n as int)
                },
                Err(e) => {
                    &&& e is NotFoundError
                    &&& offset > self.data@.len()
                    &&& final(buf)@ == old(buf)@
                },
            },
    {
        match read_mapped(self.data.as_slice(), buf, offset) {
            Some(n) => Ok(n),
            None => Err(Error::NotFoundError),
        }
    }

    /// The bytes from `offset` on, at most `length` of them.
    pub fn read_blob_range(&self, offset: u64, length: u64) -> (r: Result<Vec<u8>, Error>)
        ensures
            match r {
                Ok(bytes) => offset <= self.data@.len() && bytes@ == crate::trie_file::at_most(
                    rest_of(self.data@, offset as int),
                    length as int,
                ),
                Err(e) => e is NotFoundError && offset > self.data@.len(),
            },
    {
        let have = self.data.len();
        if offset > have as u64 {
            return Err(Error::NotFoundError);
        }
        let start = offset as usize;
        let end: usize = if length < (have - start) as u64 {
            start + length as usize
        } else {
            have
        };
        let mut out: Vec<u8> = Vec::new();
        crate::bytes::push_all(
            &mut out,
            vstd::slice::slice_subrange(self.data.as_slice(), start, end),
        );
        assert(out@ =~= crate::trie_file::at_most(
            rest_of(self.data@, offset as int),
            length as int,
        ));
        Ok(out)
    }

    /// Write a chunk at `offset`. Where the storage is shorter, zeros fill the gap.
    pub fn pwrite_blob_chunk(&mut self, data: &[u8], offset: u64)
        requires
            offset + data@.len() <= usize::MAX,
        ensures
            final(self).data@ == overwritten(old(self).data@, data@, offset as int),
            final(self).trie_offsets == old(self).trie_offsets,
    {
        let start = offset as usize;
        let count = data.len();
        let end = start + count;
        let ghost was = self.data@;
        while self.data.len() < end
            invariant
                was == old(self).data@,
                self.trie_offsets == old(self).trie_offsets,
                self.data@.len() >= was.len(),
                self.data@.len() <= end || self.data@.len() == was.len(),
                forall|i: int|
                    0 <= i < self.data@.len() ==> #[trigger] self.data@[i] == if i < was.len() {
                        was[i]
                    } else {
                        0
                    },
            decreases end - self.data@.len(),
        {
            self.data.push(0);
        }
        let ghost full = self.data@;
        let mut i: usize = 0;
        while i < count
            invariant
                count == data@.len(),
                end == start + count,
                end <= full.len(),
                self.trie_offsets == old(self).trie_offsets,
                self.data@.len() == full.len(),
                i <= count,
                forall|j: int|
                    0 <= j < full.len() ==> #[trigger] self.data@[j] == if start <= j < start + i {
                        data@[j - start]
                    } else {
                        full[j]
                    },
            decreases count - i,
        {
            self.data[start + i] = data[i];
            i += 1;
        }
        assert(self.data@ =~= overwritten(was, data@, offset as int));
    }

    /// Append a trie at `blobs_length`, the length of all tries so far. Returns where it is.
    pub fn append_trie_blob(&mut self, blobs_length: u64, buf: &[u8]) -> (offset: u64)
        requires
            blobs_length + buf@.len() <= usize::MAX,
        ensures
            offset == blobs_length,
            final(self).data@ == overwritten(old(self).data@, buf@, blobs_length as int),
            final(self).trie_offsets == old(self).trie_offsets,
    {
        self.pwrite_blob_chunk(buf, blobs_length);
        blobs_length
    }

    /// Cut the storage to `len` bytes, if it has more.
    fn cut(&mut self, len: u64)
        ensures
            final(self).data@ == crate::trie_file::at_most(old(self).data@, len as int),
            final(self).trie_offsets == old(self).trie_offsets,
    {
        if len < self.data.len() as u64 {
            self.data.truncate(len as usize);
            assert(self.data@ =~= old(self).data@.take(len as int));
        }
    }

    /// Write `buf` at `offset` and let the storage end there. Offsets that were cached may be
    /// wrong now and are forgotten.
    pub fn write_blob_at_and_truncate(&mut self, buf: &[u8], offset: u64)
        requires
            offset + buf@.len() <= usize::MAX,
        ensures
            final(self).data@ == overwritten(old(self).data@, buf@, offset as int).take(
                offset + buf@.len(),
            ),
            final(self).trie_offsets@ == Map::<u32, u64>::empty(),
            final(self).trie_offsets.bounded(),
    {
        self.pwrite_blob_chunk(buf, offset);
        let end = offset + buf.len() as u64;
        self.cut(end);
        assert(self.data@ =~= overwritten(old(self).data@, buf@, offset as int).take(
            offset + buf@.len(),
        ));
        self.trie_offsets.clear();
    }

    /// Finish a write in chunks: cut the storage where asked to, and forget cached offsets.
    pub fn finish_blob_write(&mut self, truncate_to: Option<u64>)
        ensures
            final(self).data@ == match truncate_to {
                Some(len) => crate::trie_file::at_most(old(self).data@, len as int),
                None => old(self).data@,
            },
            final(self).trie_offsets@ == Map::<u32, u64>::empty(),
            final(self).trie_offsets.bounded(),
    {
        if let Some(len) = truncate_to {
            self.cut(len);
        }
        self.trie_offsets.clear();
    }

    /// Forget cached offsets: somebody else has changed the storage.
    pub fn remap_and_invalidate(&mut self)
        ensures
            final(self).data == old(self).data,
            final(self).trie_offsets@ == Map::<u32, u64>::empty(),
            final(self).trie_offsets.bounded(),
    {
        self.trie_offsets.clear();
    }

    /// Copy the tries of all confirmed blocks up to `max_block` to the end of the storage. `rows`
    /// gets a row for each.
    ///
    /// `is_unconfirmed` tells whether a block is unconfirmed, with `NotFoundError` for one that
    /// does not exist, and `read_blob` gives the trie of a block. Other errors end the export, and so
    /// does running out of room.
    pub fn export_trie_blobs<
        U: Fn(u32) -> Result<bool, Error>,
        B: Fn(u32) -> Result<Vec<u8>, Error>,
    >(
        &mut self,
        max_block: u32,
        is_unconfirmed: &U,
        read_blob: &B,
        rows: &mut Vec<ExportedBlob>,
    ) -> (r: Result<(), Error>)
        requires
            forall|id: u32| is_unconfirmed.requires((id,)),
            forall|id: u32| read_blob.requires((id,)),
        ensures
            final(self).trie_offsets == old(self).trie_offsets,
            forall|table: BlobTable| #[trigger]
                serves(*is_unconfirmed, *read_blob, table) ==> (r is Ok ==> (
                final(self).data@,
                final(rows)@,
            ) == (
                exported(table, old(self).data@, max_block as nat + 1).0,
                old(rows)@ + exported(table, old(self).data@, max_block as nat + 1).1,
            )),
            r matches Err(e) ==> {
                ||| exists|id: u32|
                    id <= max_block && #[trigger] export_failed(*is_unconfirmed, *read_blob, id, e)
                        && forall|table: BlobTable| #[trigger]
                        serves(*is_unconfirmed, *read_blob, table) ==> (
                        final(self).data@,
                        final(rows)@,
                    ) == (
                        exported(table, old(self).data@, id as nat).0,
                        old(rows)@ + exported(table, old(self).data@, id as nat).1,
                    )
                ||| e is OverflowError && forall|table: BlobTable| #[trigger]
                    serves(*is_unconfirmed, *read_blob, table) ==> exported(
                        table,
                        old(self).data@,
                        max_block as nat + 1,
                    ).0.len() > usize::MAX
            },
    {
        let ghost start = self.data@;
        let ghost had = rows@;
        let mut id: u32 = 0;
        loop
            invariant
                forall|id: u32| is_unconfirmed.requires((id,)),
                forall|id: u32| read_blob.requires((id,)),
                start == old(self).data@,
                had == old(rows)@,
                self.trie_offsets == old(self).trie_offsets,
                id <= max_block,
                forall|table: BlobTable| #[trigger]
                    serves(*is_unconfirmed, *read_blob, table) ==> self.data@ == exported(
                        table,
                        start,
                        id as nat,
                    ).0 && rows@ == had + exported(table, start, id as nat).1,
            decreases max_block - id,
        {
            let unconfirmed = is_unconfirmed(id);
            assert(is_unconfirmed.ensures((id,), unconfirmed));
            match export_step(unconfirmed) {
                Ok(ExportStep::Skip) => {},
                Ok(ExportStep::Copy) => {
                    let blob = match read_blob(id) {
                        Ok(blob) => blob,
                        Err(e) => {
                            assert(export_failed(*is_unconfirmed, *read_blob, id, e));
                            return Err(e);
                        },
                    };
                    if self.data.len().checked_add(blob.len()).is_none() {
                        assert forall|table: BlobTable| #[trigger]
                            serves(*is_unconfirmed, *read_blob, table) implies exported(
                            table,
                            start,
                            max_block as nat + 1,
                        ).0.len() > usize::MAX by {
                            lemma_exported_grows(table, start, id as nat + 1, max_block as nat + 1);
                        }
                        return Err(Error::OverflowError);
                    }
                    let offset = self.data.len() as u64;
                    let ghost before = self.data@;
                    self.pwrite_blob_chunk(blob.as_slice(), offset);
                    proof {
                        law_overwritten(before, blob@, before.len() as int);
                    }
                    rows.push(
                        ExportedBlob { block_id: id, offset, length: blob.len() as u64 },
                    );
                    assert forall|table: BlobTable| #[trigger]
                        serves(*is_unconfirmed, *read_blob, table) implies rows@ == had + exported(
                        table,
                        start,
                        id as nat + 1,
                    ).1 by {
                        assert(rows@ =~= had + exported(table, start, id as nat + 1).1);
                    }
                },
                Err(e) => {
                    assert(export_failed(*is_unconfirmed, *read_blob, id, e));
                    return Err(e);
                },
            }
            if id == max_block {
                return Ok(());
            }
            id = id + 1;
        }
    }
}

proof fn lemma_exported_grows(table: BlobTable, data: Seq<u8>, a: nat, b: nat)
    requires
        a <= b,
    ensures
        exported(table, data, a).0.len() <= exported(table, data, b).0.len(),
    decreases b,
{
    if a < b {
        lemma_exported_grows(table, data, a, (b - 1) as nat);
    }
}

} // verus!
