//! The error type that every layer of the index reports.

use crate::hash::TrieHash;
use crate::patch::TrieNodePatch;
use crate::ptr::{ptrs_fmt, ptrs_text, TriePtr};
use crate::text::{number_text, push_number};
use vstd::prelude::*;

verus! {

/// Why a cursor could not take its next step.
#[derive(Debug, Clone, Copy, PartialEq, Eq, Structural)]
pub enum CursorError {
    PathDiverged,
    BackptrEncountered(TriePtr),
    ChrNotFound,
}

impl CursorError {
    /// The message shown to an operator.
    pub fn message(&self) -> (s: &'static str)
        ensures
            s@ == match *self {
                CursorError::PathDiverged => "Path diverged"@,
                CursorError::BackptrEncountered(_) => "Back-pointer encountered"@,
                CursorError::ChrNotFound => "Node child not found"@,
            },
    {
        match self {
            CursorError::PathDiverged => "Path diverged",
            CursorError::BackptrEncountered(_) => "Back-pointer encountered",
            CursorError::ChrNotFound => "Node child not found",
        }
    }
}

/// What can go wrong when a message is written or read.
#[derive(Debug)]
pub enum CodecError {
    /// The bytes end too early.
    ReadError,
    /// The value has no encoding.
    SerializeError(String),
    /// The bytes spell no value.
    DeserializeError(String),
}

impl CodecError {
    /// The message shown to an operator.
    pub open spec fn spec_message(self) -> Seq<char> {
        match self {
            CodecError::ReadError => "ReadError"@,
            CodecError::SerializeError(s) => "SerializeError(\""@ + s@ + "\")"@,
            CodecError::DeserializeError(s) => "DeserializeError(\""@ + s@ + "\")"@,
        }
    }

    /// The message shown to an operator.
    pub fn message(&self) -> (s: String)
        ensures
            s@ == self.spec_message(),
    {
        match self {
            CodecError::ReadError => "ReadError".to_owned(),
            CodecError::SerializeError(s) => {
                let mut out = "SerializeError(\"".to_owned();
                out.append(s.as_str());
                out.append("\")");
                out
            },
            CodecError::DeserializeError(s) => {
                let mut out = "DeserializeError(\"".to_owned();
                out.append(s.as_str());
                out.append("\")");
                out
            },
        }
    }
}

/// What can go wrong when reading, writing or reclaiming tries.
#[derive(Debug)]
pub enum Error {
    NotOpenedError,
    RequestedIdentifierForExtensionTrie,
    NotFoundError,
    BackptrNotFoundError,
    ExistsError,
    BadSeekValue,
    CorruptionError(String),
    BlockHashMapCorruptionError(Option<Box<Error>>),
    ReadOnlyError,
    UnconfirmedError,
    NotDirectoryError,
    PartialWriteError,
    InProgressError,
    WriteNotBegunError,
    CursorError(CursorError),
    RestoreMarfBlockError(Box<Error>),
    NonMatchingForks([u8; 32], [u8; 32]),
    OverflowError,
    Patch(Option<TrieHash>, TrieNodePatch),
    NodeTooDeep,
    NotSupportedError(String),
    /// A squash was published while the read was under way: read again from the root.
    RetryAfterSquash,
}

impl Error {
    /// The message shown to an operator.
    pub open spec fn spec_message(self) -> Seq<char>
        decreases self,
    {
        match self {
            Error::CorruptionError(s) => s@,
            Error::CursorError(e) => match e {
                CursorError::PathDiverged => "Path diverged"@,
                CursorError::BackptrEncountered(_) => "Back-pointer encountered"@,
                CursorError::ChrNotFound => "Node child not found"@,
            },
            Error::BlockHashMapCorruptionError(inner) => match inner {
                Some(e) => "Corrupted MARF BlockHashMap"@ + ": "@ + e.spec_message(),
                None => "Corrupted MARF BlockHashMap"@,
            },
            Error::NotOpenedError => "Tried to read data from unopened storage"@,
            Error::NotFoundError => "Object not found"@,
            Error::BackptrNotFoundError => "Object not found from backptrs"@,
            Error::ExistsError => "Object exists"@,
            Error::BadSeekValue => "Bad seek value"@,
            Error::ReadOnlyError => "Storage is in read-only mode"@,
            Error::UnconfirmedError => "Storage is in unconfirmed mode"@,
            Error::NotDirectoryError => "Not a directory"@,
            Error::PartialWriteError => "Data is partially written and not yet recovered"@,
            Error::InProgressError => "Write was in progress"@,
            Error::WriteNotBegunError => "Write has not begun"@,
            Error::RestoreMarfBlockError(
                _,
            ) => "Failed to restore previous open block during block header check"@,
            Error::NonMatchingForks(_, _) => "The supplied blocks are not in the same fork"@,
            Error::RequestedIdentifierForExtensionTrie => "BUG: MARF requested the identifier for a RAM trie"@,
            Error::OverflowError => "Overflow"@,
            Error::Patch(_, p) => "Read patch node instead of expected node: TrieNodePatch(ptr="@
                + ptrs_text(seq![p.ptr]) + " ptr_diff="@ + ptrs_text(p.ptr_diff@) + ")"@,
            Error::NodeTooDeep => "Node is too deeply buried under patches"@,
            Error::NotSupportedError(s) => "Operation not supported: "@ + s@,
            Error::RetryAfterSquash => "Retry after concurrent squash"@,
        }
    }

    /// The message shown to an operator.
    pub fn message(&self) -> (s: String)
        ensures
            s@ == self.spec_message(),
        decreases self,
    {
        match self {
            Error::CorruptionError(s) => s.clone(),
            Error::CursorError(e) => e.message().to_owned(),
            Error::BlockHashMapCorruptionError(inner) => {
                let mut out = "Corrupted MARF BlockHashMap".to_owned();
                if let Some(e) = inner {
                    out.append(": ");
                    let tail = (&**e).message();
                    out.append(tail.as_str());
                }
                out
            },
            Error::NotOpenedError => "Tried to read data from unopened storage".to_owned(),
            Error::NotFoundError => "Object not found".to_owned(),
            Error::BackptrNotFoundError => "Object not found from backptrs".to_owned(),
            Error::ExistsError => "Object exists".to_owned(),
            Error::BadSeekValue => "Bad seek value".to_owned(),
            Error::ReadOnlyError => "Storage is in read-only mode".to_owned(),
            Error::UnconfirmedError => "Storage is in unconfirmed mode".to_owned(),
            Error::NotDirectoryError => "Not a directory".to_owned(),
            Error::PartialWriteError => "Data is partially written and not yet recovered".to_owned(),
            Error::InProgressError => "Write was in progress".to_owned(),
            Error::WriteNotBegunError => "Write has not begun".to_owned(),
            Error::RestoreMarfBlockError(
                _,
            ) => "Failed to restore previous open block during block header check".to_owned(),
            Error::NonMatchingForks(
                _,
                _,
            ) => "The supplied blocks are not in the same fork".to_owned(),
            Error::RequestedIdentifierForExtensionTrie => "BUG: MARF requested the identifier for a RAM trie".to_owned(),
            Error::OverflowError => "Overflow".to_owned(),
            Error::Patch(_, p) => {
                let mut out =
                    "Read patch node instead of expected node: TrieNodePatch(ptr=".to_owned();
                let base: [TriePtr; 1] = [p.ptr];
                let base_text = ptrs_fmt(base.as_slice());
                assert(base@ =~= seq![p.ptr]);
                out.append(base_text.as_str());
                out.append(" ptr_diff=");
                let diff_text = ptrs_fmt(p.ptr_diff.as_slice());
                out.append(diff_text.as_str());
                out.append(")");
                out
            },
            Error::NodeTooDeep => "Node is too deeply buried under patches".to_owned(),
            Error::NotSupportedError(s) => {
                let mut out = "Operation not supported: ".to_owned();
                out.append(s.as_str());
                out
            },
            Error::RetryAfterSquash => "Retry after concurrent squash".to_owned(),
        }
    }

    /// Is this the internal signal that a squash was published under the reader?
    pub fn is_retry_after_squash(&self) -> (r: bool)
        ensures
            r == (*self is RetryAfterSquash),
    {
        matches!(self, Error::RetryAfterSquash)
    }
}

/// A corruption report with a fixed message.
pub fn corruption(message: &str) -> (e: Error)
    ensures
        e matches Error::CorruptionError(s) && s@ == message@,
{
    Error::CorruptionError(message.to_owned())
}

/// A part of a message.
#[derive(Debug, Clone, Copy)]
pub enum Piece {
    Text(&'static str),
    Number(u64),
    /// A byte, as two hexadecimal digits.
    Hex(u8),
}

impl Piece {
    pub open spec fn text(self) -> Seq<char> {
        match self {
            Piece::Text(s) => s@,
            Piece::Number(n) => number_text(n as nat, 10, 0),
            Piece::Hex(b) => number_text(b as nat, 16, 2),
        }
    }
}

/// The message that is made of these parts.
pub open spec fn message_of(pieces: Seq<Piece>) -> Seq<char>
    decreases pieces.len(),
{
    if pieces.len() == 0 {
        Seq::empty()
    } else {
        message_of(pieces.drop_last()) + pieces.last().text()
    }
}

/// A corruption report with a message made of parts.
pub fn corruption_of(pieces: &[Piece]) -> (e: Error)
    ensures
        e matches Error::CorruptionError(s) && s@ == message_of(pieces@),
{
    let mut s = String::new();
    let mut i: usize = 0;
    assert(s@ =~= message_of(pieces@.take(0)));
    while i < pieces.len()
        invariant
            i <= pieces@.len(),
            s@ == message_of(pieces@.take(i as int)),
        decreases pieces@.len() - i,
    {
        assert(pieces@.take(i + 1).drop_last() =~= pieces@.take(i as int));
        match pieces[i] {
            Piece::Text(t) => s.append(t),
            Piece::Number(n) => push_number(&mut s, n, 10, 0),
            Piece::Hex(b) => push_number(&mut s, b as u64, 16, 2),
        }
        i += 1;
    }
    assert(pieces@.take(i as int) =~= pieces@);
    Error::CorruptionError(s)
}

/// A corruption error that names a number in its message.
pub fn corruption_at(before: &str, number: u64, after: &str) -> (e: Error)
    ensures
        e matches Error::CorruptionError(s) && s@ == before@ + number_text(number as nat, 10, 0)
            + after@,
{
    let mut s = before.to_owned();
    push_number(&mut s, number, 10, 0);
    s.append(after);
    Error::CorruptionError(s)
}

} // verus!
