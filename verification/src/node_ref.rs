//! Borrowed views of nodes.

use crate::model::NodeModel;
use crate::node::{
    find_slot, no_meta, TrieNode, TrieNode16, TrieNode256, TrieNode4, TrieNode48, TrieNodeType,
};
use crate::node_id::TrieNodeID;
use crate::path::NodePath;
use crate::ptr::TriePtr;
use crate::value::{MARFValue, TrieLeaf};
use vstd::prelude::*;

verus! {

/// A borrowed leaf.
#[derive(Debug, Clone, Copy)]
pub struct TrieLeafRef<'a> {
    pub path: &'a [u8],
    pub data: &'a MARFValue,
}

/// A borrowed node of any kind, without transient state.
#[allow(inconsistent_fields)]
#[derive(Debug, Clone, Copy)]
pub enum TrieNodeRef<'a> {
    Node4 { path: &'a [u8], ptrs: &'a [TriePtr; 4] },
    Node16 { path: &'a [u8], ptrs: &'a [TriePtr; 16] },
    Node48 { path: &'a [u8], indexes: &'a [i8; 256], ptrs: &'a [TriePtr; 48] },
    Node256 { path: &'a [u8], ptrs: &'a [TriePtr; 256] },
    Leaf(TrieLeafRef<'a>),
}

impl<'a> TrieNodeRef<'a> {
    /// The node, apart from its layout in memory.
    pub open spec fn model(&self) -> NodeModel {
        match *self {
            TrieNodeRef::Node4 { path, ptrs } => NodeModel {
                kind: TrieNodeID::Node4,
                path: path@,
                ptrs: ptrs@,
                indexes: Seq::empty(),
                data: Seq::empty(),
            },
            TrieNodeRef::Node16 { path, ptrs } => NodeModel {
                kind: TrieNodeID::Node16,
                path: path@,
                ptrs: ptrs@,
                indexes: Seq::empty(),
                data: Seq::empty(),
            },
            TrieNodeRef::Node48 { path, indexes, ptrs } => NodeModel {
                kind: TrieNodeID::Node48,
                path: path@,
                ptrs: ptrs@,
                indexes: indexes@,
                data: Seq::empty(),
            },
            TrieNodeRef::Node256 { path, ptrs } => NodeModel {
                kind: TrieNodeID::Node256,
                path: path@,
                ptrs: ptrs@,
                indexes: Seq::empty(),
                data: Seq::empty(),
            },
            TrieNodeRef::Leaf(leaf) => NodeModel {
                kind: TrieNodeID::Leaf,
                path: leaf.path@,
                ptrs: Seq::empty(),
                indexes: Seq::empty(),
                data: leaf.data@,
            },
        }
    }

    pub fn is_leaf(&self) -> (r: bool)
        ensures
            r == (self.model().kind is Leaf),
    {
        matches!(self, TrieNodeRef::Leaf(_))
    }

    pub fn is_node256(&self) -> (r: bool)
        ensures
            r == (self.model().kind is Node256),
    {
        matches!(self, TrieNodeRef::Node256 { .. })
    }

    pub fn id(&self) -> (r: u8)
        ensures
            r == self.model().kind.spec_to_u8(),
    {
        match self {
            TrieNodeRef::Node4 { .. } => TrieNodeID::Node4.to_u8(),
            TrieNodeRef::Node16 { .. } => TrieNodeID::Node16.to_u8(),
            TrieNodeRef::Node48 { .. } => TrieNodeID::Node48.to_u8(),
            TrieNodeRef::Node256 { .. } => TrieNodeID::Node256.to_u8(),
            TrieNodeRef::Leaf(_) => TrieNodeID::Leaf.to_u8(),
        }
    }

    pub fn ptrs(&self) -> (r: &[TriePtr])
        ensures
            r@ == self.model().ptrs,
    {
        match self {
            TrieNodeRef::Node4 { ptrs, .. } => ptrs.as_slice(),
            TrieNodeRef::Node16 { ptrs, .. } => ptrs.as_slice(),
            TrieNodeRef::Node48 { ptrs, .. } => ptrs.as_slice(),
            TrieNodeRef::Node256 { ptrs, .. } => ptrs.as_slice(),
            TrieNodeRef::Leaf(_) => {
                let r: &[TriePtr] = &[];
                assert(r@ =~= Seq::empty());
                r
            },
        }
    }

    pub fn path_bytes(&self) -> (r: &[u8])
        ensures
            r@ == self.model().path,
    {
        match self {
            TrieNodeRef::Node4 { path, .. } => path,
            TrieNodeRef::Node16 { path, .. } => path,
            TrieNodeRef::Node48 { path, .. } => path,
            TrieNodeRef::Node256 { path, .. } => path,
            TrieNodeRef::Leaf(leaf) => leaf.path,
        }
    }

    /// The child for a path character. A 48-way view trusts its index: the slot that an entry
    /// leads to is returned as it stands.
    pub open spec fn spec_walk(&self, chr: u8) -> Option<TriePtr> {
        let m = self.model();
        if m.kind is Node48 {
            if m.indexes[chr as int] >= 0 {
                Some(m.ptrs[m.indexes[chr as int] as int])
            } else {
                None
            }
        } else {
            m.child(chr)
        }
    }

    /// Follow a path character to a child pointer
    pub fn walk(&self, chr: u8) -> (r: Option<TriePtr>)
        requires
            self.model().valid(),
        ensures
            r == self.spec_walk(chr),
    {
        match self {
            TrieNodeRef::Node4 { ptrs, .. } => match find_slot(ptrs.as_slice(), chr) {
                Some(i) => Some(ptrs[i]),
                None => None,
            },
            TrieNodeRef::Node16 { ptrs, .. } => match find_slot(ptrs.as_slice(), chr) {
                Some(i) => Some(ptrs[i]),
                None => None,
            },
            TrieNodeRef::Node48 { indexes, ptrs, .. } => {
                let i = indexes[chr as usize];
                assert(indexes@[chr as int] < 48);
                if i >= 0 {
                    Some(ptrs[i as usize])
                } else {
                    None
                }
            },
            TrieNodeRef::Node256 { ptrs, .. } => {
                let ptr = ptrs[chr as usize];
                if !ptr.is_empty() {
                    Some(ptr)
                } else {
                    None
                }
            },
            TrieNodeRef::Leaf(_) => None,
        }
    }

    pub fn as_leaf(&self) -> (r: Option<TrieLeafRef<'a>>)
        ensures
            match r {
                Some(leaf) => *self == TrieNodeRef::Leaf(leaf),
                None => !(self.model().kind is Leaf),
            },
    {
        match self {
            TrieNodeRef::Leaf(leaf) => Some(*leaf),
            _ => None,
        }
    }

    /// An owned copy of the node, without transient state. The path must be at most 32 bytes.
    pub fn to_owned_node(&self) -> (r: TrieNodeType)
        requires
            self.model().path.len() <= 32,
        ensures
            r.model() == self.model(),
            r.meta() == no_meta(),
    {
        let path = NodePath::from_slice(self.path_bytes()).unwrap();
        match self {
            TrieNodeRef::Node4 { ptrs, .. } => TrieNodeType::Node4(
                TrieNode4 {
                    path,
                    ptrs: **ptrs,
                    cowptr: None,
                    patch_depth: 0,
                    last_patch_source: None,
                },
            ),
            TrieNodeRef::Node16 { ptrs, .. } => TrieNodeType::Node16(
                TrieNode16 {
                    path,
                    ptrs: **ptrs,
                    cowptr: None,
                    patch_depth: 0,
                    last_patch_source: None,
                },
            ),
            TrieNodeRef::Node48 { indexes, ptrs, .. } => TrieNodeType::Node48(
                Box::new(
                    TrieNode48 {
                        path,
                        indexes: **indexes,
                        ptrs: **ptrs,
                        cowptr: None,
                        patch_depth: 0,
                        last_patch_source: None,
                    },
                ),
            ),
            TrieNodeRef::Node256 { ptrs, .. } => TrieNodeType::Node256(
                Box::new(
                    TrieNode256 {
                        path,
                        ptrs: **ptrs,
                        cowptr: None,
                        patch_depth: 0,
                        last_patch_source: None,
                    },
                ),
            ),
            TrieNodeRef::Leaf(leaf) => TrieNodeType::Leaf(TrieLeaf { path, data: *leaf.data }),
        }
    }

    /// The view of an owned node.
    pub fn from_node(node: &'a TrieNodeType) -> (r: TrieNodeRef<'a>)
        ensures
            r.model() == node.model(),
            r.model().shaped(),
    {
        node.shape();
        match node {
            TrieNodeType::Node4(data) => TrieNodeRef::Node4 {
                path: data.path.as_slice(),
                ptrs: &data.ptrs,
            },
            TrieNodeType::Node16(data) => TrieNodeRef::Node16 {
                path: data.path.as_slice(),
                ptrs: &data.ptrs,
            },
            TrieNodeType::Node48(data) => TrieNodeRef::Node48 {
                path: data.path.as_slice(),
                indexes: &data.indexes,
                ptrs: &data.ptrs,
            },
            TrieNodeType::Node256(data) => TrieNodeRef::Node256 {
                path: data.path.as_slice(),
                ptrs: &data.ptrs,
            },
            TrieNodeType::Leaf(data) => TrieNodeRef::Leaf(
                TrieLeafRef { path: data.path.as_slice(), data: &data.data },
            ),
        }
    }
}

/// A borrowed node leads to the same children as the node itself, where a 48-way index leads
/// to occupied slots only.
pub proof fn law_ref_walk(node: TrieNodeRef<'_>, chr: u8)
    requires
        node.model().kind is Node48 ==> crate::model::indexes_valid(
            node.model().ptrs,
            node.model().indexes,
        ),
    ensures
        node.spec_walk(chr) == node.model().child(chr),
{
    if let TrieNodeRef::Node48 { path, indexes, ptrs } = node {
        assert(indexes@.len() == 256);
        let i = indexes@[chr as int];
    }
}

} // verus!
