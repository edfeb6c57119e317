//! Nodes as they come out of storage: decoded, borrowed, or still as bytes.

use crate::error::{corruption, Error};
use crate::hash::TrieHash;
use crate::marf_walk::TrieLeafSquashed;
use crate::model::{parse_node, NodeModel};
use crate::node::{
    no_meta, TrieNode, TrieNode16, TrieNode256, TrieNode4, TrieNode48, TrieNodeTransientMeta,
    TrieNodeType,
};
use crate::node_id::{clear_ctrl_bits, law_ctrl_bits, TrieNodeID};
use crate::node_ref::TrieNodeRef;
use crate::patch::TrieNodePatch;
use crate::ptr::TriePtr;
use crate::squashed::{decodes_by, tip_leaf, SquashedCodec, SquashedForm};
use crate::value::TrieLeaf;
use vstd::prelude::*;

verus! {

/// The node at the head of `s`, of the kind that `node_id` names.
pub open spec fn parse_any(node_id: u8, s: Seq<u8>) -> Option<(NodeModel, nat)> {
    match TrieNodeID::spec_from_u8(clear_ctrl_bits(node_id)) {
        Some(kind) => parse_node(kind, s),
        None => None,
    }
}

/// Decode the node at the head of `bytes`, of the kind that `node_id` names. Returns it with
/// the bytes it takes.
pub fn decode_nodetype_from_slice_at_head(bytes: &[u8], node_id: u8) -> (r: Result<
    (TrieNodeType, usize),
    Error,
>)
    ensures
        r matches Ok((node, n)) ==> parse_any(node_id, bytes@) == Some((node.model(), n as nat))
            && node.meta() == no_meta() && node.model().valid(),
        r matches Err(e) ==> e is CorruptionError && parse_any(node_id, bytes@) is None,
{
    match TrieNodeID::from_u8(clear_ctrl_bits(node_id)) {
        Some(TrieNodeID::Node4) => match TrieNode4::from_bytes(bytes) {
            Ok((node, n)) => Ok((TrieNodeType::Node4(node), n)),
            Err(e) => Err(e),
        },
        Some(TrieNodeID::Node16) => match TrieNode16::from_bytes(bytes) {
            Ok((node, n)) => Ok((TrieNodeType::Node16(node), n)),
            Err(e) => Err(e),
        },
        Some(TrieNodeID::Node48) => match TrieNode48::from_bytes(bytes) {
            Ok((node, n)) => Ok((TrieNodeType::Node48(Box::new(node)), n)),
            Err(e) => Err(e),
        },
        Some(TrieNodeID::Node256) => match TrieNode256::from_bytes(bytes) {
            Ok((node, n)) => Ok((TrieNodeType::Node256(Box::new(node)), n)),
            Err(e) => Err(e),
        },
        Some(TrieNodeID::Leaf) => match TrieLeaf::from_bytes(bytes) {
            Ok((node, n)) => Ok((TrieNodeType::Leaf(node), n)),
            Err(e) => Err(e),
        },
        _ => Err(corruption("Not a node kind that stands on its own")),
    }
}

/// The node that `s` spells with nothing left over.
pub open spec fn parse_exact(kind: TrieNodeID, s: Seq<u8>) -> Option<NodeModel> {
    match parse_node(kind, s) {
        Some((m, n)) => if n == s.len() {
            Some(m)
        } else {
            None
        },
        None => None,
    }
}

/// Decode the node that `bytes` spell, with nothing left over.
pub fn decode_stable_node_bytes(bytes: &[u8], node_type: TrieNodeID) -> (r: Result<
    TrieNodeType,
    Error,
>)
    ensures
        r matches Ok(node) ==> parse_exact(node_type, bytes@) == Some(node.model()) && node.meta()
            == no_meta() && node.model().valid(),
        r matches Err(e) ==> e is CorruptionError && parse_exact(node_type, bytes@) is None,
{
    proof {
        law_ctrl_bits(node_type.spec_to_u8());
        crate::node_id::law_node_id_round_trip(node_type, 0);
    }
    match decode_nodetype_from_slice_at_head(bytes, node_type.to_u8()) {
        Ok((node, n)) => if n == bytes.len() {
            Ok(node)
        } else {
            Err(corruption("Node is followed by trailing bytes"))
        },
        Err(e) => Err(e),
    }
}

/// A borrowed slice of serialized trie node bytes.
///
/// Carries the node type so the decoder knows how to interpret the bytes.
#[derive(Debug, Clone, Copy)]
pub struct BorrowedNodeBytes<'a> {
    pub node_type: TrieNodeID,
    pub bytes: &'a [u8],
}

impl<'a> BorrowedNodeBytes<'a> {
    /// Create from a node type and a borrowed byte slice.
    pub fn new(node_type: TrieNodeID, bytes: &'a [u8]) -> (r: BorrowedNodeBytes<'a>)
        ensures
            r.node_type == node_type,
            r.bytes == bytes,
    {
        BorrowedNodeBytes { node_type, bytes }
    }

    /// The type of trie node these bytes encode.
    pub fn node_type(&self) -> (r: TrieNodeID)
        ensures
            r == self.node_type,
    {
        self.node_type
    }

    /// The raw serialized bytes.
    pub fn bytes(&self) -> (r: &'a [u8])
        ensures
            r == self.bytes,
    {
        self.bytes
    }
}

/// An owned copy of serialized trie node bytes.
#[derive(Debug)]
pub struct OwnedNodeBytes {
    pub node_type: TrieNodeID,
    pub bytes: Vec<u8>,
}

impl OwnedNodeBytes {
    /// Create from a node type and its serialized bytes.
    pub fn new(node_type: TrieNodeID, bytes: Vec<u8>) -> (r: OwnedNodeBytes)
        ensures
            r.node_type == node_type,
            r.bytes == bytes,
    {
        OwnedNodeBytes { node_type, bytes }
    }

    /// The type of trie node these bytes encode.
    pub fn node_type(&self) -> (r: TrieNodeID)
        ensures
            r == self.node_type,
    {
        self.node_type
    }

    /// The raw serialized bytes.
    pub fn bytes(&self) -> (r: &[u8])
        ensures
            r@ == self.bytes@,
    {
        self.bytes.as_slice()
    }
}

/// Serialized node bytes, either borrowed or owned.
#[derive(Debug)]
pub enum BytesBacking<'a> {
    /// Zero-copy reference into mapped blob data. More may follow the node.
    Borrowed(BorrowedNodeBytes<'a>),
    /// Owned buffer that holds the node and nothing else.
    Owned(OwnedNodeBytes),
}

impl<'a> BytesBacking<'a> {
    /// The kind of node these bytes encode.
    pub open spec fn spec_node_type(&self) -> TrieNodeID {
        match *self {
            BytesBacking::Borrowed(node) => node.node_type,
            BytesBacking::Owned(node) => node.node_type,
        }
    }

    /// The raw bytes.
    pub open spec fn spec_bytes(&self) -> Seq<u8> {
        match *self {
            BytesBacking::Borrowed(node) => node.bytes@,
            BytesBacking::Owned(node) => node.bytes@,
        }
    }

    /// The node that the bytes spell: borrowed bytes may go on behind it, owned bytes may not.
    pub open spec fn decoded(&self) -> Option<NodeModel> {
        match *self {
            BytesBacking::Borrowed(node) => match parse_node(node.node_type, node.bytes@) {
                Some((m, _)) => Some(m),
                None => None,
            },
            BytesBacking::Owned(node) => parse_exact(node.node_type, node.bytes@),
        }
    }

    /// The type of trie node these bytes encode.
    pub fn node_type(&self) -> (r: TrieNodeID)
        ensures
            r == self.spec_node_type(),
    {
        match self {
            BytesBacking::Borrowed(node) => node.node_type(),
            BytesBacking::Owned(node) => node.node_type(),
        }
    }

    /// The raw serialized bytes (borrowed or owned).
    pub fn bytes(&self) -> (r: &[u8])
        ensures
            r@ == self.spec_bytes(),
    {
        match self {
            BytesBacking::Borrowed(node) => node.bytes(),
            BytesBacking::Owned(node) => node.bytes(),
        }
    }

    /// Decode the node. The bytes of a squashed leaf, whose form only the caller knows, spell none.
    pub fn decode(&self) -> (r: Result<TrieNodeType, Error>)
        ensures
            r matches Ok(node) ==> self.decoded() == Some(node.model()) && node.meta() == no_meta()
                && node.model().valid(),
            r matches Err(e) ==> e is CorruptionError && self.decoded() is None,
    {
        match self {
            BytesBacking::Owned(node) => decode_stable_node_bytes(node.bytes(), node.node_type()),
            BytesBacking::Borrowed(node) => {
                proof {
                    law_ctrl_bits(node.node_type.spec_to_u8());
                    crate::node_id::law_node_id_round_trip(node.node_type, 0);
                }
                match decode_nodetype_from_slice_at_head(node.bytes(), node.node_type().to_u8()) {
                    Ok((decoded, _)) => Ok(decoded),
                    Err(e) => Err(e),
                }
            },
        }
    }

    /// The squashed leaf that the bytes spell, where they have this form. As with any node, borrowed
    /// bytes may go on behind it, owned bytes may not.
    pub open spec fn squashed(&self, form: SquashedForm) -> Option<TrieLeafSquashed> {
        match form(self.spec_bytes()) {
            Some((leaf, n)) => if self is Borrowed || n == self.spec_bytes().len() {
                Some(leaf)
            } else {
                None
            },
            None => None,
        }
    }

    /// Decode the squashed leaf.
    fn decode_squashed<D: Fn(&[u8]) -> Option<(TrieLeafSquashed, usize)>>(
        &self,
        squashed: &SquashedCodec<D>,
    ) -> (r: Result<TrieLeafSquashed, Error>)
        requires
            squashed.ready(),
        ensures
            forall|form: SquashedForm| #[trigger]
                decodes_by(*squashed, form) ==> match r {
                    Ok(leaf) => self.squashed(form) == Some(leaf),
                    Err(e) => e is CorruptionError && self.squashed(form) is None,
                },
    {
        let bytes = self.bytes();
        match squashed.decode_at_head(bytes) {
            Ok((leaf, n)) => if matches!(self, BytesBacking::Borrowed(_)) || n == bytes.len() {
                Ok(leaf)
            } else {
                Err(corruption("Node is followed by trailing bytes"))
            },
            Err(e) => Err(e),
        }
    }
}

/// How a read node's data is backed in memory.
#[derive(Debug)]
pub enum ReadNodeBacking<'a> {
    /// Decoded node borrowed from scratch or parking state.
    VolatileDecoded(TrieNodeRef<'a>),
    /// Decoded node borrowed from persisted storage.
    PersistedDecoded(TrieNodeRef<'a>),
    /// Raw serialized bytes from persisted storage, decoded when needed.
    PersistedBytes(BytesBacking<'a>),
    /// Fully owned decoded node.
    Owned(TrieNodeType),
}

/// A trie node read from storage.
#[derive(Debug)]
pub struct ReadTrieNode<'a> {
    /// The node's Merkle hash, if read.
    pub hash: Option<TrieHash>,
    /// Number of patch layers resolved to produce this node (0 if uncompressed).
    pub patch_depth: usize,
    /// The node data: decoded, raw bytes, or owned.
    pub backing: ReadNodeBacking<'a>,
    /// Transient state of the node that a borrowed view cannot carry.
    pub transient_meta: Option<TrieNodeTransientMeta>,
}

impl<'a> ReadTrieNode<'a> {
    /// The node, where its bytes spell one.
    pub open spec fn decoded(&self) -> Option<NodeModel> {
        match self.backing {
            ReadNodeBacking::VolatileDecoded(node) => Some(node.model()),
            ReadNodeBacking::PersistedDecoded(node) => Some(node.model()),
            ReadNodeBacking::PersistedBytes(node) => node.decoded(),
            ReadNodeBacking::Owned(node) => Some(node.model()),
        }
    }

    /// Can the node be operated on: an index leads only to slots that exist.
    pub open spec fn valid(&self) -> bool {
        match self.backing {
            ReadNodeBacking::VolatileDecoded(node) => node.model().valid(),
            ReadNodeBacking::PersistedDecoded(node) => node.model().valid(),
            _ => true,
        }
    }

    /// The child for a path character.
    pub open spec fn child(&self, chr: u8) -> Option<TriePtr> {
        match self.backing {
            ReadNodeBacking::VolatileDecoded(node) => node.spec_walk(chr),
            ReadNodeBacking::PersistedDecoded(node) => node.spec_walk(chr),
            ReadNodeBacking::PersistedBytes(node) => node.decoded().unwrap().child(chr),
            ReadNodeBacking::Owned(node) => node.model().child(chr),
        }
    }

    /// The kind of the node.
    pub open spec fn spec_node_type(&self) -> TrieNodeID {
        match self.backing {
            ReadNodeBacking::VolatileDecoded(node) => node.model().kind,
            ReadNodeBacking::PersistedDecoded(node) => node.model().kind,
            ReadNodeBacking::PersistedBytes(node) => node.spec_node_type(),
            ReadNodeBacking::Owned(node) => node.model().kind,
        }
    }

    fn new(hash: Option<TrieHash>, patch_depth: usize, backing: ReadNodeBacking<'a>) -> (r:
        ReadTrieNode<'a>)
        ensures
            r.hash == hash,
            r.patch_depth == patch_depth,
            r.backing == backing,
            r.transient_meta is None,
    {
        ReadTrieNode { hash, patch_depth, backing, transient_meta: None }
    }

    /// Attach transient state captured from the source node.
    pub fn with_transient_meta(self, meta: TrieNodeTransientMeta) -> (r: ReadTrieNode<'a>)
        ensures
            r == (ReadTrieNode { transient_meta: Some(meta), ..self }),
    {
        ReadTrieNode {
            hash: self.hash,
            patch_depth: self.patch_depth,
            backing: self.backing,
            transient_meta: Some(meta),
        }
    }

    /// Construct from a decoded persisted node.
    pub fn from_borrowed(node: TrieNodeRef<'a>, hash: Option<TrieHash>) -> (r: ReadTrieNode<'a>)
        ensures
            r == (ReadTrieNode {
                hash,
                patch_depth: 0,
                backing: ReadNodeBacking::PersistedDecoded(node),
                transient_meta: None,
            }),
    {
        ReadTrieNode::new(hash, 0, ReadNodeBacking::PersistedDecoded(node))
    }

    /// Construct from a decoded node in scratch or parking state.
    pub fn from_state_borrowed(node: TrieNodeRef<'a>, hash: Option<TrieHash>) -> (r: ReadTrieNode<
        'a,
    >)
        ensures
            r == (ReadTrieNode {
                hash,
                patch_depth: 0,
                backing: ReadNodeBacking::VolatileDecoded(node),
                transient_meta: None,
            }),
    {
        ReadTrieNode::new(hash, 0, ReadNodeBacking::VolatileDecoded(node))
    }

    /// Construct from borrowed raw bytes.
    pub fn from_stable_bytes(node: BorrowedNodeBytes<'a>, hash: Option<TrieHash>) -> (r:
        ReadTrieNode<'a>)
        ensures
            r == (ReadTrieNode {
                hash,
                patch_depth: 0,
                backing: ReadNodeBacking::PersistedBytes(BytesBacking::Borrowed(node)),
                transient_meta: None,
            }),
    {
        ReadTrieNode::new(hash, 0, ReadNodeBacking::PersistedBytes(BytesBacking::Borrowed(node)))
    }

    /// Construct from owned raw bytes.
    pub fn from_owned_bytes(node: OwnedNodeBytes, hash: Option<TrieHash>) -> (r: ReadTrieNode<'a>)
        ensures
            r == (ReadTrieNode {
                hash,
                patch_depth: 0,
                backing: ReadNodeBacking::PersistedBytes(BytesBacking::Owned(node)),
                transient_meta: None,
            }),
    {
        ReadTrieNode::new(hash, 0, ReadNodeBacking::PersistedBytes(BytesBacking::Owned(node)))
    }

    /// Construct from a fully-owned decoded node.
    pub fn from_owned(node: TrieNodeType, hash: Option<TrieHash>) -> (r: ReadTrieNode<'a>)
        ensures
            r == (ReadTrieNode {
                hash,
                patch_depth: node.meta().patch_depth,
                backing: ReadNodeBacking::Owned(node),
                transient_meta: None,
            }),
    {
        let patch_depth = node.patch_depth();
        ReadTrieNode::new(hash, patch_depth, ReadNodeBacking::Owned(node))
    }

    /// Return the node type ID.
    pub fn node_type(&self) -> (r: Option<TrieNodeID>)
        ensures
            r == Some(self.spec_node_type()),
    {
        proof {
            crate::node_id::law_node_id_round_trip(self.spec_node_type(), 0);
        }
        match &self.backing {
            ReadNodeBacking::VolatileDecoded(node) => TrieNodeID::from_u8(node.id()),
            ReadNodeBacking::PersistedDecoded(node) => TrieNodeID::from_u8(node.id()),
            ReadNodeBacking::PersistedBytes(node) => Some(node.node_type()),
            ReadNodeBacking::Owned(node) => TrieNodeID::from_u8(node.id()),
        }
    }

    /// Return the node type ID as a raw `u8`.
    pub fn node_type_u8(&self) -> (r: u8)
        ensures
            r == self.spec_node_type().spec_to_u8(),
    {
        match &self.backing {
            ReadNodeBacking::VolatileDecoded(node) => node.id(),
            ReadNodeBacking::PersistedDecoded(node) => node.id(),
            ReadNodeBacking::PersistedBytes(node) => node.node_type().to_u8(),
            ReadNodeBacking::Owned(node) => node.id(),
        }
    }

    /// Returns `true` if this is a Node256 (the largest intermediate node type).
    pub fn is_node256(&self) -> (r: bool)
        ensures
            r == (self.spec_node_type() is Node256),
    {
        matches!(self.node_type(), Some(TrieNodeID::Node256))
    }

    /// Set the patch depth (number of resolved patch layers) on this node.
    pub fn with_patch_depth(self, patch_depth: usize) -> (r: ReadTrieNode<'a>)
        ensures
            r == (ReadTrieNode { patch_depth, ..self }),
    {
        ReadTrieNode {
            hash: self.hash,
            patch_depth,
            backing: self.backing,
            transient_meta: self.transient_meta,
        }
    }

    /// Returns `true` if this node is a leaf (end of a key path).
    pub fn is_leaf(&self) -> (r: bool)
        ensures
            r == (self.spec_node_type() is Leaf || self.spec_node_type() is LeafSquashed),
    {
        match &self.backing {
            ReadNodeBacking::VolatileDecoded(node) => node.is_leaf(),
            ReadNodeBacking::PersistedDecoded(node) => node.is_leaf(),
            ReadNodeBacking::PersistedBytes(node) => matches!(
                node.node_type(),
                TrieNodeID::Leaf | TrieNodeID::LeafSquashed
            ),
            ReadNodeBacking::Owned(node) => node.is_leaf(),
        }
    }

    /// An owned copy of the node, decoded if need be, without transient state unless it is held
    /// as an owned node. The bytes of a squashed leaf spell no such node: see
    /// `as_leaf_squashed_ref`.
    pub fn decode(&self) -> (r: Result<TrieNodeType, Error>)
        requires
            self.decoded() matches Some(m) ==> m.path.len() <= 32,
        ensures
            r matches Ok(node) ==> self.decoded() == Some(node.model()) && node.meta() == (
            match self.backing {
                ReadNodeBacking::Owned(n) => n.meta(),
                _ => no_meta(),
            }),
            r matches Err(e) ==> e is CorruptionError && self.decoded() is None,
    {
        match &self.backing {
            ReadNodeBacking::VolatileDecoded(node) => Ok(node.to_owned_node()),
            ReadNodeBacking::PersistedDecoded(node) => Ok(node.to_owned_node()),
            ReadNodeBacking::PersistedBytes(node) => node.decode(),
            ReadNodeBacking::Owned(node) => Ok(node.clone()),
        }
    }

    /// Return the node's compressed path segment bytes.
    pub fn path_bytes(&self) -> (r: Result<Vec<u8>, Error>)
        ensures
            r matches Ok(p) ==> self.decoded() matches Some(m) && p@ == m.path,
            r matches Err(e) ==> e is CorruptionError && self.decoded() is None,
    {
        let mut out: Vec<u8> = Vec::new();
        match &self.backing {
            ReadNodeBacking::VolatileDecoded(node) => {
                crate::bytes::push_all(&mut out, node.path_bytes());
            },
            ReadNodeBacking::PersistedDecoded(node) => {
                crate::bytes::push_all(&mut out, node.path_bytes());
            },
            ReadNodeBacking::PersistedBytes(node) => {
                match node.decode() {
                    Ok(decoded) => {
                        crate::bytes::push_all(&mut out, decoded.path_bytes());
                    },
                    Err(e) => {
                        return Err(e);
                    },
                }
            },
            ReadNodeBacking::Owned(node) => {
                crate::bytes::push_all(&mut out, node.path_bytes());
            },
        }
        assert(out@ =~= self.decoded().unwrap().path);
        Ok(out)
    }

    /// Return the node's child pointers.
    pub fn ptrs(&self) -> (r: Result<Vec<TriePtr>, Error>)
        ensures
            r matches Ok(p) ==> self.decoded() matches Some(m) && p@ == m.ptrs,
            r matches Err(e) ==> e is CorruptionError && self.decoded() is None,
    {
        match &self.backing {
            ReadNodeBacking::VolatileDecoded(node) => Ok(copy_ptrs(node.ptrs())),
            ReadNodeBacking::PersistedDecoded(node) => Ok(copy_ptrs(node.ptrs())),
            ReadNodeBacking::PersistedBytes(node) => match node.decode() {
                Ok(decoded) => Ok(copy_ptrs(decoded.ptrs())),
                Err(e) => Err(e),
            },
            ReadNodeBacking::Owned(node) => Ok(copy_ptrs(node.ptrs())),
        }
    }

    /// Follow a path byte to the corresponding child pointer, if present.
    pub fn walk(&self, chr: u8) -> (r: Result<Option<TriePtr>, Error>)
        requires
            self.valid(),
        ensures
            r matches Ok(p) ==> self.decoded() is Some && p == self.child(chr),
            r matches Err(e) ==> e is CorruptionError && self.decoded() is None,
    {
        match &self.backing {
            ReadNodeBacking::VolatileDecoded(node) => Ok(node.walk(chr)),
            ReadNodeBacking::PersistedDecoded(node) => Ok(node.walk(chr)),
            ReadNodeBacking::PersistedBytes(node) => match node.decode() {
                Ok(decoded) => Ok(decoded.walk(chr)),
                Err(e) => Err(e),
            },
            ReadNodeBacking::Owned(node) => Ok(node.walk(chr)),
        }
    }

    /// Is this the stored form of a squashed leaf?
    pub open spec fn holds_squashed(&self) -> bool {
        self.backing matches ReadNodeBacking::PersistedBytes(node) && node.spec_node_type()
            is LeafSquashed
    }

    /// The squashed leaf, where this is the stored form of one.
    pub open spec fn squashed(&self, form: SquashedForm) -> Option<TrieLeafSquashed> {
        match self.backing {
            ReadNodeBacking::PersistedBytes(node) => node.squashed(form),
            _ => None,
        }
    }

    /// The leaf, if this node is one. A squashed leaf is the leaf with the value at the end of its
    /// range.
    pub fn as_leaf<D: Fn(&[u8]) -> Option<(TrieLeafSquashed, usize)>>(
        &self,
        squashed: &SquashedCodec<D>,
    ) -> (r: Result<Option<TrieLeaf>, Error>)
        requires
            self.decoded() matches Some(m) ==> m.path.len() <= 32,
            squashed.ready(),
        ensures
            self.holds_squashed() ==> forall|form: SquashedForm| #[trigger]
                decodes_by(*squashed, form) ==> match r {
                    Ok(leaf) => self.squashed(form) matches Some(sq) && leaf == Some(tip_leaf(sq)),
                    Err(e) => e is CorruptionError && self.squashed(form) is None,
                },
            !self.holds_squashed() ==> match r {
                Ok(Some(leaf)) => self.decoded() == Some(leaf.model()),
                Ok(None) => self.decoded() matches Some(m) && !(m.kind is Leaf),
                Err(e) => e is CorruptionError && self.decoded() is None,
            },
    {
        if let ReadNodeBacking::PersistedBytes(node) = &self.backing {
            if node.node_type() == TrieNodeID::LeafSquashed {
                return match node.decode_squashed(squashed) {
                    Ok(sq) => Ok(Some(TrieLeaf { path: sq.path, data: sq.chunk.tip_value })),
                    Err(e) => Err(e),
                };
            }
        }
        match self.decode() {
            Ok(TrieNodeType::Leaf(leaf)) => Ok(Some(leaf)),
            Ok(_) => Ok(None),
            Err(e) => Err(e),
        }
    }

    /// The squashed leaf, if this node is one. Stored bytes are decoded, whatever their kind.
    pub fn as_leaf_squashed_ref<D: Fn(&[u8]) -> Option<(TrieLeafSquashed, usize)>>(
        &self,
        squashed: &SquashedCodec<D>,
    ) -> (r: Result<Option<TrieLeafSquashed>, Error>)
        requires
            squashed.ready(),
        ensures
            self.holds_squashed() ==> forall|form: SquashedForm| #[trigger]
                decodes_by(*squashed, form) ==> match r {
                    Ok(sq) => sq is Some && self.squashed(form) == sq,
                    Err(e) => e is CorruptionError && self.squashed(form) is None,
                },
            !self.holds_squashed() ==> match r {
                Ok(sq) => sq is None && self.decoded() is Some,
                Err(e) => e is CorruptionError && self.decoded() is None,
            },
    {
        match &self.backing {
            ReadNodeBacking::PersistedBytes(node) => if node.node_type()
                == TrieNodeID::LeafSquashed {
                match node.decode_squashed(squashed) {
                    Ok(sq) => Ok(Some(sq)),
                    Err(e) => Err(e),
                }
            } else {
                match node.decode() {
                    Ok(_) => Ok(None),
                    Err(e) => Err(e),
                }
            },
            _ => Ok(None),
        }
    }

    /// Consume this read node and return an owned node and its hash.
    ///
    /// Transient state that was attached is applied to the owned node, so that going through a
    /// borrowed view does not lose it.
    pub fn into_owned_node(self) -> (r: Result<(TrieNodeType, Option<TrieHash>), Error>)
        requires
            self.decoded() matches Some(m) ==> m.path.len() <= 32,
        ensures
            r matches Ok((node, hash)) ==> {
                let bare = match self.backing {
                    ReadNodeBacking::Owned(n) => n.meta(),
                    _ => no_meta(),
                };
                &&& self.decoded() == Some(node.model())
                &&& hash == self.hash
                &&& node.meta() == match self.transient_meta {
                    Some(meta) => if node.model().kind is Leaf {
                        no_meta()
                    } else {
                        meta.applied(bare)
                    },
                    None => bare,
                }
            },
            r matches Err(e) ==> e is CorruptionError && self.decoded() is None,
    {
        let mut node = match self.decode() {
            Ok(node) => node,
            Err(e) => {
                return Err(e);
            },
        };
        if let Some(meta) = self.transient_meta {
            meta.apply_to(&mut node);
        }
        Ok((node, self.hash))
    }

    /// Consume this read node and return only the hash, discarding node data.
    pub fn into_hash(self) -> (r: Option<TrieHash>)
        ensures
            r == self.hash,
    {
        self.hash
    }
}

fn copy_ptrs(ptrs: &[TriePtr]) -> (r: Vec<TriePtr>)
    ensures
        r@ == ptrs@,
{
    let mut out: Vec<TriePtr> = Vec::new();
    let mut i: usize = 0;
    while i < ptrs.len()
        invariant
            i <= ptrs@.len(),
            out@ == ptrs@.take(i as int),
        decreases ptrs@.len() - i,
    {
        out.push(ptrs[i]);
        assert(ptrs@.take(i + 1) =~= ptrs@.take(i as int).push(ptrs@[i as int]));
        i += 1;
    }
    assert(ptrs@.take(i as int) =~= ptrs@);
    out
}

/// The kind of item returned when reading from persisted trie storage: either a fully-resolved
/// node or an unresolved patch that needs to be applied to its base node.
#[derive(Debug)]
pub enum ReadTrieItemKind<'a> {
    /// A resolved trie node.
    Node(ReadTrieNode<'a>),
    /// A patch node referencing a base node in an ancestor block.
    Patch(&'a TrieNodePatch),
}

/// A single item read from trie storage, with its hash and compression depth.
#[derive(Debug)]
pub struct ReadTrieItem<'a> {
    pub hash: Option<TrieHash>,
    pub patch_depth: usize,
    pub kind: ReadTrieItemKind<'a>,
}

impl<'a> ReadTrieItem<'a> {
    /// Wrap a resolved node as a read item.
    pub fn from_node(node: ReadTrieNode<'a>) -> (r: ReadTrieItem<'a>)
        ensures
            r.hash == node.hash,
            r.patch_depth == node.patch_depth,
            r.kind == ReadTrieItemKind::Node(node),
    {
        ReadTrieItem {
            hash: node.hash,
            patch_depth: node.patch_depth,
            kind: ReadTrieItemKind::Node(node),
        }
    }

    /// Wrap an unresolved patch as a read item.
    pub fn from_patch(patch: &'a TrieNodePatch, hash: Option<TrieHash>) -> (r: ReadTrieItem<'a>)
        ensures
            r.hash == hash,
            r.patch_depth == 0,
            r.kind == ReadTrieItemKind::Patch(patch),
    {
        ReadTrieItem { hash, patch_depth: 0, kind: ReadTrieItemKind::Patch(patch) }
    }

    /// Returns `true` if this item is an unresolved patch.
    pub fn is_patch(&self) -> (r: bool)
        ensures
            r == (self.kind is Patch),
    {
        matches!(&self.kind, ReadTrieItemKind::Patch(_))
    }

    /// Borrow the patch, if this item is one.
    pub fn as_patch(&self) -> (r: Option<&TrieNodePatch>)
        ensures
            match r {
                Some(p) => self.kind == ReadTrieItemKind::Patch(p),
                None => self.kind is Node,
            },
    {
        match &self.kind {
            ReadTrieItemKind::Node(_) => None,
            ReadTrieItemKind::Patch(patch) => Some(*patch),
        }
    }

    /// Unwrap into a resolved node, or return `Error::Patch` if this is an unresolved patch
    /// (caller must resolve it first).
    pub fn into_node(self) -> (r: Result<ReadTrieNode<'a>, Error>)
        ensures
            match self.kind {
                ReadTrieItemKind::Node(node) => r == Ok::<ReadTrieNode<'a>, Error>(node),
                ReadTrieItemKind::Patch(patch) => r matches Err(Error::Patch(h, p)) && h
                    == self.hash && p.ptr == patch.ptr && p.ptr_diff@ == patch.ptr_diff@,
            },
    {
        match self.kind {
            ReadTrieItemKind::Node(node) => Ok(node),
            ReadTrieItemKind::Patch(patch) => Err(Error::Patch(self.hash, patch.clone())),
        }
    }
}

} // verus!
