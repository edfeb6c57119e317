//! The cursor that remembers a walk down one or more tries.

use crate::error::{CursorError, Error};
use crate::hash::TrieHash;
use crate::node::TrieNodeType;
use crate::node_id::{is_backptr, set_backptr};
use crate::node_ref::TrieNodeRef;
use crate::ptr::TriePtr;
use crate::read::{ReadNodeBacking, ReadTrieNode};
use crate::value::MarfTrieId;
use vstd::prelude::*;

verus! {

/// Result of a single step during a trie cursor walk.
#[derive(Debug, Clone, Copy, PartialEq, Eq, Structural)]
pub enum ReadTrieNodeCursorStep {
    /// Followed a child pointer: continue walking at the returned ptr.
    Next(TriePtr),
    /// Consumed all path bytes: the walk is complete.
    EndOfPath { is_leaf: bool },
    /// Path diverged from the node's compressed path segment: key not found.
    Diverged,
    /// No child exists for the next path byte: key not found.
    ChrNotFound,
    /// Child pointer is a backpointer: resolve it by opening the ancestor block and reading the
    /// node there.
    FollowBackptr(TriePtr),
}

/// Where a parked node is kept.
#[derive(Debug, Clone, Copy, PartialEq, Eq, Structural)]
pub struct ParkedNodeHandle(pub usize);

impl ParkedNodeHandle {
    pub fn new(slot: usize) -> (r: ParkedNodeHandle)
        ensures
            r == ParkedNodeHandle(slot),
    {
        ParkedNodeHandle(slot)
    }

    pub fn slot(self) -> (r: usize)
        ensures
            r == self.0,
    {
        self.0
    }
}

/// Where a visited node can be found again.
#[derive(Debug, PartialEq)]
pub enum CursorNodeHandle<T: MarfTrieId> {
    Persisted { ptr: TriePtr, block_hash: T },
    Parked(ParkedNodeHandle),
}

/// A visited node, materialized only when needed.
#[derive(Debug, PartialEq)]
pub enum TrieCursorNode<T: MarfTrieId> {
    Handle(CursorNodeHandle<T>),
    Materialized(TrieNodeType),
}

/// Cursor structure for walking down one or more Tries: which nodes were visited, which blocks
/// they came from, and which pointers were walked.
#[derive(Debug, PartialEq)]
pub struct TrieCursor<T: MarfTrieId> {
    /// The path to walk.
    pub path: TrieHash,
    /// Index into the path.
    pub index: usize,
    /// Index into the currently-visited node's compressed path.
    pub node_path_index: usize,
    /// List of visited nodes.
    pub nodes: Vec<TrieCursorNode<T>>,
    /// List of ptr branches this cursor has taken.
    pub node_ptrs: Vec<TriePtr>,
    /// List of Tries we've visited. `block_hashes[i]` corresponds to `node_ptrs[i + 1]`.
    pub block_hashes: Vec<T>,
    /// Last error encountered while walking (used to make sure the client calls the right
    /// "recovery" method).
    pub last_error: Option<CursorError>,
}

/// What a cursor remembers.
#[verifier::ext_equal]
pub struct CursorModel<T: MarfTrieId> {
    pub path: Seq<u8>,
    pub index: int,
    pub node_path_index: int,
    pub nodes: Seq<TrieCursorNode<T>>,
    pub node_ptrs: Seq<TriePtr>,
    pub block_hashes: Seq<T>,
    pub last_error: Option<CursorError>,
}

impl<T: MarfTrieId> View for TrieCursor<T> {
    type V = CursorModel<T>;

    open spec fn view(&self) -> CursorModel<T> {
        CursorModel {
            path: self.path@,
            index: self.index as int,
            node_path_index: self.node_path_index as int,
            nodes: self.nodes@,
            node_ptrs: self.node_ptrs@,
            block_hashes: self.block_hashes@,
            last_error: self.last_error,
        }
    }
}

/// How many leading bytes the two have in common.
pub open spec fn common_prefix(a: Seq<u8>, b: Seq<u8>) -> nat
    decreases a.len(),
{
    if a.len() == 0 || b.len() == 0 || a[0] != b[0] {
        0
    } else {
        1 + common_prefix(a.skip(1), b.skip(1))
    }
}

/// One step from `index` of `path` through a node: how far it gets in the path and in the
/// node's own path, and what comes of it.
pub struct StepModel {
    pub index: int,
    pub node_path_index: int,
    pub outcome: Result<Option<TriePtr>, CursorError>,
}

/// A step through a node with compressed path `node_path` and children `child`. The node's path
/// is followed first. Where the key ends, the walk is over; where the two differ, it has
/// diverged; else the next byte of the key picks the child, which may be a back-pointer or not
/// exist.
pub open spec fn step(
    path: Seq<u8>,
    index: int,
    node_path: Seq<u8>,
    child: spec_fn(u8) -> Option<TriePtr>,
) -> StepModel {
    if index >= path.len() {
        StepModel { index, node_path_index: 0, outcome: Ok(None) }
    } else {
        let k = common_prefix(node_path, path.skip(index)) as int;
        if index + k >= path.len() {
            StepModel { index: index + k, node_path_index: k, outcome: Ok(None) }
        } else if k < node_path.len() {
            StepModel {
                index: index + k,
                node_path_index: k,
                outcome: Err(CursorError::PathDiverged),
            }
        } else {
            let outcome = match child(path[index + k]) {
                None => Err(CursorError::ChrNotFound),
                Some(p) => if is_backptr(p.id) {
                    Err(CursorError::BackptrEncountered(p))
                } else {
                    Ok(Some(p))
                },
            };
            StepModel { index: index + k + 1, node_path_index: k, outcome }
        }
    }
}

impl<T: MarfTrieId> CursorModel<T> {
    /// The cursor after the step `s` through a node of block `block`, recorded as `entry`.
    pub open spec fn stepped(self, s: StepModel, entry: TrieCursorNode<T>, block: T) -> CursorModel<
        T,
    > {
        let taken = s.outcome matches Ok(Some(_));
        CursorModel {
            path: self.path,
            index: s.index,
            node_path_index: s.node_path_index,
            nodes: self.nodes.push(entry),
            node_ptrs: match s.outcome {
                Ok(Some(p)) => self.node_ptrs.push(p),
                _ => self.node_ptrs,
            },
            block_hashes: if taken {
                self.block_hashes.push(block)
            } else {
                self.block_hashes
            },
            last_error: match s.outcome {
                Err(e) => Some(e),
                Ok(_) => self.last_error,
            },
        }
    }

    /// Can the cursor take a step: it is within the key and holds no error.
    pub open spec fn ready(self) -> bool {
        self.last_error is None && self.index <= self.path.len()
    }

    /// The cursor after following a back-pointer to `ptr` in `block`.
    pub open spec fn landed(self, ptr: TriePtr, block: T) -> CursorModel<T> {
        CursorModel {
            node_ptrs: self.node_ptrs.push(ptr),
            block_hashes: self.block_hashes.push(block),
            last_error: None,
            ..self
        }
    }
}

/// The step as the walker is told of it.
pub open spec fn told(outcome: Result<Option<TriePtr>, CursorError>, is_leaf: bool) -> ReadTrieNodeCursorStep {
    match outcome {
        Ok(Some(p)) => ReadTrieNodeCursorStep::Next(p),
        Ok(None) => ReadTrieNodeCursorStep::EndOfPath { is_leaf },
        Err(CursorError::PathDiverged) => ReadTrieNodeCursorStep::Diverged,
        Err(CursorError::ChrNotFound) => ReadTrieNodeCursorStep::ChrNotFound,
        Err(CursorError::BackptrEncountered(p)) => ReadTrieNodeCursorStep::FollowBackptr(p),
    }
}

/// The common prefix is `k` bytes long where `k` bytes agree and the next one ends or differs.
pub proof fn lemma_common_prefix_is(a: Seq<u8>, b: Seq<u8>, k: int)
    requires
        0 <= k <= a.len(),
        k <= b.len(),
        forall|i: int| 0 <= i < k ==> a[i] == b[i],
        k == a.len() || k == b.len() || a[k] != b[k],
    ensures
        common_prefix(a, b) == k,
    decreases k,
{
    if k > 0 {
        assert(a[0] == b[0]);
        let (ta, tb) = (a.skip(1), b.skip(1));
        assert forall|i: int| 0 <= i < k - 1 implies ta[i] == tb[i] by {
            assert(a[i + 1] == b[i + 1]);
        }
        lemma_common_prefix_is(ta, tb, k - 1);
    }
}

/// The common prefix is common, and no longer than either.
pub proof fn lemma_common_prefix(a: Seq<u8>, b: Seq<u8>)
    ensures
        common_prefix(a, b) <= a.len(),
        common_prefix(a, b) <= b.len(),
        forall|i: int| 0 <= i < common_prefix(a, b) ==> a[i] == b[i],
    decreases a.len(),
{
    if a.len() > 0 && b.len() > 0 && a[0] == b[0] {
        lemma_common_prefix(a.skip(1), b.skip(1));
        assert forall|i: int| 0 <= i < common_prefix(a, b) implies a[i] == b[i] by {
            if i > 0 {
                assert(a.skip(1)[i - 1] == b.skip(1)[i - 1]);
            }
        }
    }
}

/// A step never goes back in the key nor past its end, and where it leads to a child it has
/// consumed at least one byte: a walk of more steps than the key has bytes is going in circles.
pub proof fn law_step_advances(
    path: Seq<u8>,
    index: int,
    node_path: Seq<u8>,
    child: spec_fn(u8) -> Option<TriePtr>,
)
    requires
        0 <= index <= path.len(),
    ensures
        index <= step(path, index, node_path, child).index <= path.len(),
        step(path, index, node_path, child).outcome matches Ok(Some(_)) ==> step(
            path,
            index,
            node_path,
            child,
        ).index > index,
        step(path, index, node_path, child).outcome matches Err(CursorError::BackptrEncountered(_))
            ==> step(path, index, node_path, child).index > index,
{
    lemma_common_prefix(node_path, path.skip(index));
}

/// A step that leads to a child followed the whole path of the node, byte by byte.
pub proof fn law_step_follows_path(
    path: Seq<u8>,
    index: int,
    node_path: Seq<u8>,
    child: spec_fn(u8) -> Option<TriePtr>,
)
    requires
        0 <= index <= path.len(),
        step(path, index, node_path, child).outcome matches Ok(Some(_)),
    ensures
        ({
            let s = step(path, index, node_path, child);
            &&& s.index == index + node_path.len() + 1
            &&& path.subrange(index, index + node_path.len()) == node_path
            &&& Ok::<Option<TriePtr>, CursorError>(child(path[s.index - 1])) == s.outcome
        }),
{
    lemma_common_prefix(node_path, path.skip(index));
    assert(path.subrange(index, index + node_path.len()) =~= node_path);
}

/// A step goes as far as the key and the node's path agree. Where they differ, it has diverged at
/// the first byte in which they do; where the key ends first, or both end, it is over; and where the
/// node's path ends first, the next byte of the key picks the child.
pub proof fn law_step_goes_as_far_as_paths_agree(
    path: Seq<u8>,
    index: int,
    node_path: Seq<u8>,
    child: spec_fn(u8) -> Option<TriePtr>,
    k: int,
)
    requires
        0 <= index <= path.len(),
        0 <= k <= node_path.len(),
        index + k <= path.len(),
        node_path.take(k) == path.subrange(index, index + k),
        k < node_path.len() && index + k < path.len() ==> node_path[k] != path[index + k],
    ensures
        ({
            let s = step(path, index, node_path, child);
            &&& s.node_path_index == k
            &&& if index + k == path.len() {
                s.index == path.len() && s.outcome == Ok::<Option<TriePtr>, CursorError>(None)
            } else if k < node_path.len() {
                s.index == index + k && s.outcome == Err::<Option<TriePtr>, CursorError>(
                    CursorError::PathDiverged,
                )
            } else {
                s.index == index + k + 1 && s.outcome == match child(path[index + k]) {
                    None => Err::<Option<TriePtr>, CursorError>(CursorError::ChrNotFound),
                    Some(p) => if is_backptr(p.id) {
                        Err(CursorError::BackptrEncountered(p))
                    } else {
                        Ok(Some(p))
                    },
                }
            }
        }),
{
    let rest = path.skip(index);
    assert forall|i: int| 0 <= i < k implies node_path[i] == rest[i] by {
        assert(node_path.take(k)[i] == path.subrange(index, index + k)[i]);
    }
    lemma_common_prefix_is(node_path, rest, k);
}

impl<T: MarfTrieId> TrieCursorNode<T> {
    fn as_node(&self) -> (r: Option<&TrieNodeType>)
        ensures
            match r {
                Some(n) => *self == TrieCursorNode::<T>::Materialized(*n),
                None => *self is Handle,
            },
    {
        match self {
            TrieCursorNode::Handle(_) => None,
            TrieCursorNode::Materialized(node) => Some(node),
        }
    }

    fn as_handle(&self) -> (r: Option<&CursorNodeHandle<T>>)
        ensures
            match r {
                Some(h) => *self == TrieCursorNode::<T>::Handle(*h),
                None => *self is Materialized,
            },
    {
        match self {
            TrieCursorNode::Handle(handle) => Some(handle),
            TrieCursorNode::Materialized(_) => None,
        }
    }
}

impl<T: MarfTrieId> TrieCursor<T> {
    fn step_from_walk_result(
        walk_result: Result<Option<TriePtr>, CursorError>,
        is_leaf: bool,
    ) -> (r: ReadTrieNodeCursorStep)
        ensures
            r == told(walk_result, is_leaf),
    {
        match walk_result {
            Ok(Some(next_ptr)) => ReadTrieNodeCursorStep::Next(next_ptr),
            Ok(None) => ReadTrieNodeCursorStep::EndOfPath { is_leaf },
            Err(CursorError::PathDiverged) => ReadTrieNodeCursorStep::Diverged,
            Err(CursorError::ChrNotFound) => ReadTrieNodeCursorStep::ChrNotFound,
            Err(CursorError::BackptrEncountered(ptr)) => ReadTrieNodeCursorStep::FollowBackptr(ptr),
        }
    }

    /// A cursor at the start of `path`, at the node that `root_ptr` leads to.
    pub open spec fn fresh(path: Seq<u8>, root_ptr: TriePtr) -> CursorModel<T> {
        CursorModel {
            path,
            index: 0,
            node_path_index: 0,
            nodes: Seq::empty(),
            node_ptrs: seq![root_ptr],
            block_hashes: Seq::empty(),
            last_error: None,
        }
    }

    pub fn new(path: &TrieHash, root_ptr: TriePtr) -> (r: TrieCursor<T>)
        ensures
            r@ == TrieCursor::<T>::fresh(path@, root_ptr),
            r@.ready(),
    {
        let mut node_ptrs: Vec<TriePtr> = Vec::new();
        node_ptrs.push(root_ptr);
        let r = TrieCursor {
            path: *path,
            index: 0,
            node_path_index: 0,
            nodes: Vec::new(),
            node_ptrs,
            block_hashes: Vec::new(),
            last_error: None,
        };
        assert(r@ =~= TrieCursor::<T>::fresh(path@, root_ptr));
        r
    }

    pub fn reset(&mut self, path: &TrieHash, root_ptr: TriePtr)
        ensures
            final(self)@ == TrieCursor::<T>::fresh(path@, root_ptr),
    {
        self.path = *path;
        self.index = 0;
        self.node_path_index = 0;
        self.nodes.clear();
        self.node_ptrs.clear();
        self.node_ptrs.push(root_ptr);
        self.block_hashes.clear();
        self.last_error = None;
        assert(self@ =~= TrieCursor::<T>::fresh(path@, root_ptr));
    }

    /// what point in the path are we at now?
    /// Will be None only if we haven't taken a step yet.
    pub fn chr(&self) -> (r: Option<u8>)
        requires
            self.index <= 32,
        ensures
            r == if self.index > 0 {
                Some(self.path@[self.index - 1])
            } else {
                None
            },
    {
        if self.index > 0 {
            Some(self.path.0[self.index - 1])
        } else {
            None
        }
    }

    /// what offset in the path are we at?
    pub fn tell(&self) -> (r: usize)
        ensures
            r == self.index,
    {
        self.index
    }

    /// what is the offset in the node's compressed path?
    pub fn ntell(&self) -> (r: usize)
        ensures
            r == self.node_path_index,
    {
        self.node_path_index
    }

    /// Are we a the [E]nd [O]f [P]ath?
    pub fn eop(&self) -> (r: bool)
        ensures
            r == (self@.index == self@.path.len()),
    {
        self.index == 32
    }

    /// last ptr visited
    pub fn ptr(&self) -> (r: TriePtr)
        requires
            self.node_ptrs@.len() > 0,
        ensures
            r == self.node_ptrs@.last(),
    {
        self.node_ptrs[self.node_ptrs.len() - 1]
    }

    /// last node visited.
    /// Returns None if we haven't taken a step yet, or if the last visited node is still
    /// deferred.
    pub fn node(&self) -> (r: Option<TrieNodeType>)
        ensures
            r == if self.nodes@.len() == 0 {
                None
            } else {
                match self.nodes@.last() {
                    TrieCursorNode::Materialized(n) => Some(n),
                    TrieCursorNode::Handle(_) => None,
                }
            },
    {
        if self.nodes.len() == 0 {
            return None;
        }
        match self.nodes[self.nodes.len() - 1].as_node() {
            Some(n) => Some(n.clone()),
            None => None,
        }
    }

    /// Where the last visited node can be found, if it is deferred.
    pub fn node_handle(&self) -> (r: Option<&CursorNodeHandle<T>>)
        ensures
            match r {
                Some(h) => self.nodes@.len() > 0 && self.nodes@.last() == TrieCursorNode::<
                    T,
                >::Handle(*h),
                None => self.nodes@.len() == 0 || self.nodes@.last() is Materialized,
            },
    {
        if self.nodes.len() == 0 {
            return None;
        }
        self.nodes[self.nodes.len() - 1].as_handle()
    }

    /// Are we at the [E]nd [O]f a [N]ode's [P]ath?
    pub fn eonp(&self, node: &TrieNodeType) -> (r: bool)
        ensures
            r == (self.node_path_index == node.model().path.len()),
    {
        self.node_path_index == node.path_bytes().len()
    }

    /// Follow the compressed path of a node as far as it and the key agree.
    fn follow(&mut self, node_path: &[u8]) -> (k: usize)
        requires
            old(self).index < 32,
        ensures
            k == common_prefix(node_path@, old(self)@.path.skip(old(self).index as int)),
            final(self)@ == (CursorModel {
                index: old(self)@.index + k,
                node_path_index: k as int,
                ..old(self)@
            }),
            final(self).index <= 32,
            k <= node_path@.len(),
    {
        let start = self.index;
        let ghost rest = self@.path.skip(start as int);
        let mut k: usize = 0;
        while k < node_path.len() && start + k < 32 && node_path[k] == self.path.0[start + k]
            invariant
                start < 32,
                k <= node_path@.len(),
                start + k <= 32,
                self.path == old(self).path,
                rest == self@.path.skip(start as int),
                rest.len() == 32 - start,
                forall|i: int| 0 <= i < k ==> node_path@[i] == rest[i],
            decreases 32 - k,
        {
            assert(rest[k as int] == self.path@[start + k]);
            k += 1;
        }
        proof {
            if k < node_path@.len() && start + k < 32 {
                assert(rest[k as int] == self.path@[start + k]);
            }
            lemma_common_prefix_is(node_path@, rest, k as int);
        }
        self.index = start + k;
        self.node_path_index = k;
        assert(self@ =~= (CursorModel {
            index: old(self)@.index + k,
            node_path_index: k as int,
            ..old(self)@
        }));
        k
    }

    /// Record what the child of the last node is, and go there if it is in the same block.
    fn take_child(&mut self, child: Option<TriePtr>, block_hash: &T) -> (r: Result<
        Option<TriePtr>,
        CursorError,
    >)
        requires
            old(self).last_error is None,
        ensures
            ({
                let outcome = match child {
                    None => Err(CursorError::ChrNotFound),
                    Some(p) => if is_backptr(p.id) {
                        Err(CursorError::BackptrEncountered(p))
                    } else {
                        Ok(Some(p))
                    },
                };
                &&& r == outcome
                &&& final(self)@ == (CursorModel {
                    node_ptrs: match outcome {
                        Ok(Some(p)) => old(self)@.node_ptrs.push(p),
                        _ => old(self)@.node_ptrs,
                    },
                    block_hashes: match outcome {
                        Ok(Some(_)) => old(self)@.block_hashes.push(*block_hash),
                        _ => old(self)@.block_hashes,
                    },
                    last_error: match outcome {
                        Err(e) => Some(e),
                        Ok(_) => None,
                    },
                    ..old(self)@
                })
            }),
    {
        match child {
            Some(ptr) => {
                if !is_backptr(ptr.id()) {
                    // not going to follow a back-pointer
                    self.node_ptrs.push(ptr);
                    self.block_hashes.push(*block_hash);
                    Ok(Some(ptr))
                } else {
                    // the caller will need to follow the backptr, and call
                    // repair_backptr_step_backptr() for each node visited, and then
                    // repair_backptr_finish() once the final ptr and block_hash are discovered.
                    self.last_error = Some(CursorError::BackptrEncountered(ptr));
                    Err(CursorError::BackptrEncountered(ptr))
                }
            },
            None => {
                self.last_error = Some(CursorError::ChrNotFound);
                Err(CursorError::ChrNotFound)
            },
        }
    }

    /// Walk to the next node, following its compressed path as far as we can and then walking
    /// to its child pointer. If we successfully follow the path, then return the pointer we
    /// reached. Otherwise, if we reach the end of the path, return None. If the path diverges or
    /// a node cannot be found, then return an Err.
    ///
    /// This method does not follow back-pointers, and will return Err if a back-pointer is
    /// reached: the caller resolves it and calls [`TrieCursor::repair_backptr_finish`].
    pub fn walk(&mut self, node: &TrieNodeType, block_hash: &T) -> (r: Result<
        Option<TriePtr>,
        CursorError,
    >)
        requires
            old(self)@.ready(),
        ensures
            ({
                let s = step(
                    old(self)@.path,
                    old(self)@.index,
                    node.model().path,
                    |c: u8| node.model().child(c),
                );
                &&& r == s.outcome
                &&& final(self)@ == old(self)@.stepped(
                    s,
                    TrieCursorNode::Materialized(*node),
                    *block_hash,
                )
            }),
    {
        // walk this node
        self.nodes.push(TrieCursorNode::Materialized(node.clone()));
        self.node_path_index = 0;
        let ghost s = step(
            old(self)@.path,
            old(self)@.index,
            node.model().path,
            |c: u8| node.model().child(c),
        );
        if self.index >= 32 {
            assert(self@ =~= old(self)@.stepped(s, TrieCursorNode::Materialized(*node), *block_hash));
            return Ok(None);
        }
        let node_path = node.path_bytes();
        let k = self.follow(node_path);
        if self.index >= 32 {
            assert(self@ =~= old(self)@.stepped(s, TrieCursorNode::Materialized(*node), *block_hash));
            return Ok(None);
        }
        if k < node_path.len() {
            self.last_error = Some(CursorError::PathDiverged);
            assert(self@ =~= old(self)@.stepped(s, TrieCursorNode::Materialized(*node), *block_hash));
            return Err(CursorError::PathDiverged);
        }
        // walked to end of the node's compressed path. Find the pointer to the next node.
        let chr = self.path.0[self.index];
        self.index = self.index + 1;
        let r = self.take_child(node.walk(chr), block_hash);
        assert(self@ =~= old(self)@.stepped(s, TrieCursorNode::Materialized(*node), *block_hash));
        r
    }

    fn walk_borrowed(
        &mut self,
        node: &TrieNodeRef<'_>,
        block_hash: &T,
        cursor_node: TrieCursorNode<T>,
    ) -> (r: Result<Option<TriePtr>, CursorError>)
        requires
            old(self)@.ready(),
            node.model().valid(),
        ensures
            ({
                let s = step(
                    old(self)@.path,
                    old(self)@.index,
                    node.model().path,
                    |c: u8| node.spec_walk(c),
                );
                &&& r == s.outcome
                &&& final(self)@ == old(self)@.stepped(s, cursor_node, *block_hash)
            }),
    {
        let ghost s = step(
            old(self)@.path,
            old(self)@.index,
            node.model().path,
            |c: u8| node.spec_walk(c),
        );
        self.nodes.push(cursor_node);
        self.node_path_index = 0;
        if self.index >= 32 {
            assert(self@ =~= old(self)@.stepped(s, cursor_node, *block_hash));
            return Ok(None);
        }
        let node_path = node.path_bytes();
        let k = self.follow(node_path);
        if self.index >= 32 {
            assert(self@ =~= old(self)@.stepped(s, cursor_node, *block_hash));
            return Ok(None);
        }
        if k < node_path.len() {
            self.last_error = Some(CursorError::PathDiverged);
            assert(self@ =~= old(self)@.stepped(s, cursor_node, *block_hash));
            return Err(CursorError::PathDiverged);
        }
        let chr = self.path.0[self.index];
        self.index = self.index + 1;
        let r = self.take_child(node.walk(chr), block_hash);
        assert(self@ =~= old(self)@.stepped(s, cursor_node, *block_hash));
        r
    }

    /// As [`TrieCursor::walk`], for a node that can be read again from its block.
    pub fn walk_ref(&mut self, node: &TrieNodeRef<'_>, block_hash: &T) -> (r: Result<
        Option<TriePtr>,
        CursorError,
    >)
        requires
            old(self)@.ready(),
            old(self)@.node_ptrs.len() > 0,
            node.model().valid(),
        ensures
            ({
                let s = step(
                    old(self)@.path,
                    old(self)@.index,
                    node.model().path,
                    |c: u8| node.spec_walk(c),
                );
                &&& r == s.outcome
                &&& final(self)@ == old(self)@.stepped(
                    s,
                    TrieCursorNode::Handle(
                        CursorNodeHandle::Persisted {
                            ptr: old(self)@.node_ptrs.last(),
                            block_hash: *block_hash,
                        },
                    ),
                    *block_hash,
                )
            }),
    {
        let ptr = self.ptr();
        self.walk_borrowed(
            node,
            block_hash,
            TrieCursorNode::Handle(CursorNodeHandle::Persisted { ptr, block_hash: *block_hash }),
        )
    }

    /// As [`TrieCursor::walk`], for a parked node.
    pub fn walk_parked(
        &mut self,
        node: &TrieNodeRef<'_>,
        parked_handle: ParkedNodeHandle,
        block_hash: &T,
    ) -> (r: Result<Option<TriePtr>, CursorError>)
        requires
            old(self)@.ready(),
            node.model().valid(),
        ensures
            ({
                let s = step(
                    old(self)@.path,
                    old(self)@.index,
                    node.model().path,
                    |c: u8| node.spec_walk(c),
                );
                &&& r == s.outcome
                &&& final(self)@ == old(self)@.stepped(
                    s,
                    TrieCursorNode::Handle(CursorNodeHandle::Parked(parked_handle)),
                    *block_hash,
                )
            }),
    {
        self.walk_borrowed(
            node,
            block_hash,
            TrieCursorNode::Handle(CursorNodeHandle::Parked(parked_handle)),
        )
    }

    /// As [`TrieCursor::walk`], for a node as it was read. Where its bytes do not decode and
    /// are needed, the child counts as not found, but the cursor holds no error.
    pub fn walk_read(&mut self, node: &ReadTrieNode<'_>, block_hash: &T) -> (r: Result<
        Option<TriePtr>,
        Error,
    >)
        requires
            old(self)@.ready(),
            node.backing is Owned || old(self)@.node_ptrs.len() > 0,
            node.valid(),
        ensures
            ({
                let entry = match node.backing {
                    ReadNodeBacking::Owned(n) => TrieCursorNode::Materialized(n),
                    _ => TrieCursorNode::Handle(
                        CursorNodeHandle::Persisted {
                            ptr: old(self)@.node_ptrs.last(),
                            block_hash: *block_hash,
                        },
                    ),
                };
                match node.decoded() {
                    Some(m) => {
                        let s = step(
                            old(self)@.path,
                            old(self)@.index,
                            m.path,
                            |c: u8| node.child(c),
                        );
                        &&& match s.outcome {
                            Ok(p) => r == Ok::<Option<TriePtr>, Error>(p),
                            Err(e) => r == Err::<Option<TriePtr>, Error>(Error::CursorError(e)),
                        }
                        &&& final(self)@ == old(self)@.stepped(s, entry, *block_hash)
                    },
                    None => {
                        &&& r == if old(self)@.index >= 32 {
                            Ok::<Option<TriePtr>, Error>(None)
                        } else {
                            Err::<Option<TriePtr>, Error>(
                                Error::CursorError(CursorError::ChrNotFound),
                            )
                        }
                        &&& final(self)@ == (CursorModel {
                            nodes: old(self)@.nodes.push(entry),
                            node_path_index: 0,
                            ..old(self)@
                        })
                    },
                }
            }),
    {
        match &node.backing {
            ReadNodeBacking::VolatileDecoded(node_ref)
            | ReadNodeBacking::PersistedDecoded(node_ref) => {
                match self.walk_ref(node_ref, block_hash) {
                    Ok(p) => Ok(p),
                    Err(e) => Err(Error::CursorError(e)),
                }
            },
            ReadNodeBacking::PersistedBytes(_) => {
                let ptr = self.ptr();
                let entry = TrieCursorNode::Handle(
                    CursorNodeHandle::Persisted { ptr, block_hash: *block_hash },
                );
                match self.walk_borrowed_read(node, block_hash, entry) {
                    Ok(p) => Ok(p),
                    Err(e) => Err(Error::CursorError(e)),
                }
            },
            ReadNodeBacking::Owned(node_type) => {
                match self.walk(node_type, block_hash) {
                    Ok(p) => Ok(p),
                    Err(e) => Err(Error::CursorError(e)),
                }
            },
        }
    }

    fn walk_borrowed_read(
        &mut self,
        node: &ReadTrieNode<'_>,
        block_hash: &T,
        cursor_node: TrieCursorNode<T>,
    ) -> (r: Result<Option<TriePtr>, CursorError>)
        requires
            old(self)@.ready(),
            node.backing is PersistedBytes,
        ensures
            match node.decoded() {
                Some(m) => {
                    let s = step(
                        old(self)@.path,
                        old(self)@.index,
                        m.path,
                        |c: u8| node.child(c),
                    );
                    &&& r == s.outcome
                    &&& final(self)@ == old(self)@.stepped(s, cursor_node, *block_hash)
                },
                None => {
                    &&& r == if old(self)@.index >= 32 {
                        Ok::<Option<TriePtr>, CursorError>(None)
                    } else {
                        Err::<Option<TriePtr>, CursorError>(CursorError::ChrNotFound)
                    }
                    &&& final(self)@ == (CursorModel {
                        nodes: old(self)@.nodes.push(cursor_node),
                        node_path_index: 0,
                        ..old(self)@
                    })
                },
            },
    {
        let ghost m = node.decoded();
        let ghost s = step(
            old(self)@.path,
            old(self)@.index,
            m.unwrap().path,
            |c: u8| node.child(c),
        );
        self.nodes.push(cursor_node);
        self.node_path_index = 0;
        if self.index >= 32 {
            assert(self@ =~= old(self)@.stepped(s, cursor_node, *block_hash));
            assert(self@ =~= (CursorModel {
                nodes: old(self)@.nodes.push(cursor_node),
                node_path_index: 0,
                ..old(self)@
            }));
            return Ok(None);
        }
        let decoded = match node.decode() {
            Ok(n) => n,
            Err(_) => {
                assert(self@ =~= (CursorModel {
                    nodes: old(self)@.nodes.push(cursor_node),
                    node_path_index: 0,
                    ..old(self)@
                }));
                return Err(CursorError::ChrNotFound);
            },
        };
        let node_path = decoded.path_bytes();
        let k = self.follow(node_path);
        if self.index >= 32 {
            assert(self@ =~= old(self)@.stepped(s, cursor_node, *block_hash));
            return Ok(None);
        }
        if k < node_path.len() {
            self.last_error = Some(CursorError::PathDiverged);
            assert(self@ =~= old(self)@.stepped(s, cursor_node, *block_hash));
            return Err(CursorError::PathDiverged);
        }
        let chr = self.path.0[self.index];
        self.index = self.index + 1;
        let r = self.take_child(decoded.walk(chr), block_hash);
        assert(self@ =~= old(self)@.stepped(s, cursor_node, *block_hash));
        r
    }

    /// As [`TrieCursor::walk`], telling what to do next.
    pub fn walk_step(&mut self, node: &TrieNodeType, block_hash: &T) -> (r: ReadTrieNodeCursorStep)
        requires
            old(self)@.ready(),
        ensures
            ({
                let s = step(
                    old(self)@.path,
                    old(self)@.index,
                    node.model().path,
                    |c: u8| node.model().child(c),
                );
                &&& r == told(s.outcome, node.model().kind is Leaf)
                &&& final(self)@ == old(self)@.stepped(
                    s,
                    TrieCursorNode::Materialized(*node),
                    *block_hash,
                )
            }),
    {
        let r = self.walk(node, block_hash);
        TrieCursor::<T>::step_from_walk_result(r, node.is_leaf())
    }

    /// As [`TrieCursor::walk_ref`], telling what to do next.
    pub fn walk_ref_step(&mut self, node: &TrieNodeRef<'_>, block_hash: &T) -> (r:
        ReadTrieNodeCursorStep)
        requires
            old(self)@.ready(),
            old(self)@.node_ptrs.len() > 0,
            node.model().valid(),
        ensures
            ({
                let s = step(
                    old(self)@.path,
                    old(self)@.index,
                    node.model().path,
                    |c: u8| node.spec_walk(c),
                );
                &&& r == told(s.outcome, node.model().kind is Leaf)
                &&& final(self)@ == old(self)@.stepped(
                    s,
                    TrieCursorNode::Handle(
                        CursorNodeHandle::Persisted {
                            ptr: old(self)@.node_ptrs.last(),
                            block_hash: *block_hash,
                        },
                    ),
                    *block_hash,
                )
            }),
    {
        let r = self.walk_ref(node, block_hash);
        TrieCursor::<T>::step_from_walk_result(r, node.is_leaf())
    }

    /// As [`TrieCursor::walk_parked`], telling what to do next.
    pub fn walk_parked_step(
        &mut self,
        node: &TrieNodeRef<'_>,
        parked_handle: ParkedNodeHandle,
        block_hash: &T,
    ) -> (r: ReadTrieNodeCursorStep)
        requires
            old(self)@.ready(),
            node.model().valid(),
        ensures
            ({
                let s = step(
                    old(self)@.path,
                    old(self)@.index,
                    node.model().path,
                    |c: u8| node.spec_walk(c),
                );
                &&& r == told(s.outcome, node.model().kind is Leaf)
                &&& final(self)@ == old(self)@.stepped(
                    s,
                    TrieCursorNode::Handle(CursorNodeHandle::Parked(parked_handle)),
                    *block_hash,
                )
            }),
    {
        let r = self.walk_parked(node, parked_handle, block_hash);
        TrieCursor::<T>::step_from_walk_result(r, node.is_leaf())
    }

    /// Record that the last visited node was parked.
    pub fn promote_last_node_to_parked(&mut self, parked_handle: ParkedNodeHandle)
        requires
            old(self).nodes@.len() > 0,
        ensures
            final(self)@ == (CursorModel {
                nodes: old(self)@.nodes.drop_last().push(
                    TrieCursorNode::Handle(CursorNodeHandle::Parked(parked_handle)),
                ),
                ..old(self)@
            }),
    {
        let _ = self.nodes.pop();
        self.nodes.push(TrieCursorNode::Handle(CursorNodeHandle::Parked(parked_handle)));
        assert(self@ =~= (CursorModel {
            nodes: old(self)@.nodes.drop_last().push(
                TrieCursorNode::Handle(CursorNodeHandle::Parked(parked_handle)),
            ),
            ..old(self)@
        }));
    }

    /// Replace the last-visited node and ptr within this trie. Used when doing a copy-on-write
    /// or promoting a node. Only for a cursor that failed to walk to a node, and not for one
    /// that walked to a back-pointer.
    pub fn repair_retarget(&mut self, node: &TrieNodeType, ptr: &TriePtr, hash: &T)
        requires
            old(self).last_error == Some(CursorError::ChrNotFound) || old(self).last_error == Some(
                CursorError::PathDiverged,
            ),
        ensures
            final(self)@ == (CursorModel {
                nodes: without_last(old(self)@.nodes).push(TrieCursorNode::Materialized(*node)),
                node_ptrs: without_last(old(self)@.node_ptrs).push(*ptr),
                block_hashes: without_last(old(self)@.block_hashes).push(*hash),
                last_error: None,
                ..old(self)@
            }),
    {
        let _ = self.nodes.pop();
        let _ = self.node_ptrs.pop();
        let _ = self.block_hashes.pop();
        assert(self.nodes@ =~= without_last(old(self)@.nodes));
        assert(self.node_ptrs@ =~= without_last(old(self)@.node_ptrs));
        assert(self.block_hashes@ =~= without_last(old(self)@.block_hashes));
        self.nodes.push(TrieCursorNode::Materialized(node.clone()));
        self.node_ptrs.push(*ptr);
        self.block_hashes.push(*hash);
        self.last_error = None;
    }

    /// Did the cursor not fail to walk to a node? Then it may follow a back-pointer.
    pub open spec fn may_follow(c: CursorModel<T>) -> bool {
        c.last_error != Some(CursorError::ChrNotFound) && c.last_error != Some(
            CursorError::PathDiverged,
        )
    }

    /// Record that a node was walked to by way of a back-pointer.
    /// next_node should be the node walked to.
    /// ptr is the ptr we'll be walking from, off of next_node.
    /// block_hash is the block where next_node came from.
    pub fn repair_backptr_step_backptr(
        &mut self,
        next_node: &TrieNodeType,
        ptr: &TriePtr,
        block_hash: T,
    )
        requires
            TrieCursor::<T>::may_follow(old(self)@),
        ensures
            final(self)@ == (CursorModel {
                node_ptrs: old(self)@.node_ptrs.push(
                    TriePtr { id: set_backptr(ptr.id), chr: ptr.chr, ptr: ptr.ptr, back_block: 0 },
                ),
                block_hashes: old(self)@.block_hashes.push(block_hash),
                nodes: old(self)@.nodes.push(TrieCursorNode::Materialized(*next_node)),
                ..old(self)@
            }),
    {
        // the back-pointer bit informs the root hash update to skip this node
        let backptr = TriePtr::new(set_backptr(ptr.id()), ptr.chr(), ptr.ptr());
        self.node_ptrs.push(backptr);
        self.block_hashes.push(block_hash);
        self.nodes.push(TrieCursorNode::Materialized(next_node.clone()));
    }

    /// As [`TrieCursor::repair_backptr_step_backptr`], for a node that is not at hand.
    pub fn repair_backptr_step_backptr_deferred(&mut self, ptr: &TriePtr, block_hash: T)
        requires
            TrieCursor::<T>::may_follow(old(self)@),
        ensures
            final(self)@ == (CursorModel {
                node_ptrs: old(self)@.node_ptrs.push(
                    TriePtr { id: set_backptr(ptr.id), chr: ptr.chr, ptr: ptr.ptr, back_block: 0 },
                ),
                block_hashes: old(self)@.block_hashes.push(block_hash),
                nodes: old(self)@.nodes.push(
                    TrieCursorNode::Handle(CursorNodeHandle::Persisted { ptr: *ptr, block_hash }),
                ),
                ..old(self)@
            }),
    {
        let backptr = TriePtr::new(set_backptr(ptr.id()), ptr.chr(), ptr.ptr());
        self.node_ptrs.push(backptr);
        self.block_hashes.push(block_hash);
        self.nodes.push(
            TrieCursorNode::Handle(CursorNodeHandle::Persisted { ptr: *ptr, block_hash }),
        );
    }

    /// Record that we landed on a non-backptr from a backptr.
    /// ptr is a non-backptr that refers to the node we landed on.
    pub fn repair_backptr_finish(&mut self, ptr: &TriePtr, block_hash: T)
        requires
            TrieCursor::<T>::may_follow(old(self)@),
            !is_backptr(ptr.id),
        ensures
            final(self)@ == old(self)@.landed(*ptr, block_hash),
    {
        self.node_ptrs.push(*ptr);
        self.block_hashes.push(block_hash);
        self.last_error = None;
    }
}

/// All but the last one, if there is one.
pub open spec fn without_last<A>(s: Seq<A>) -> Seq<A> {
    if s.len() == 0 {
        s
    } else {
        s.drop_last()
    }
}

} // verus!
