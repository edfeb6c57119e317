use marf_index::consensus::{get_leaf_hash, get_node_hash, BlockHashes};
use marf_index::error::{CursorError, Error};
use marf_index::hash::TrieHash;
use marf_index::history_blob::ChunkRef;
use marf_index::marf::{
    batch_inserts, get_path_with_fork_extend_intent, test_override_marf_compression,
    with_read_retry, with_restored_block_context, BatchInsert, CommitStep, MARFOpenOpts, SquashLevelCanonical,
    SquashLevelRange, SquashMode, TrieHashCalculationMode, MARF,
};
use marf_index::marf_cow::{
    extend_trie, extend_trie_opened, flatten_squashed, fresh_root, node_child_copy,
    node_copy_update, root_copy, saved_root_node, walk_cow, ExtendStep,
};
use marf_index::marf_heights::{
    block_hash_to_height_key, block_height_to_hash_key, check_ancestor_block_hash,
    extension_height, get_block_at_height, get_block_height, get_block_height_miner_tip,
    in_squash_height, make_unconfirmed_chain_tip, set_block_heights,
};
use marf_index::marf_leaves::{for_each_leaf, read_node_for_ptr};
use marf_index::marf_walk::{
    get_by_key, get_by_path, value_if_found, walk, OpenedBlock, StoredNode, TrieLeafSquashed,
};
use marf_index::node::{TrieNode, TrieNode256, TrieNode4, TrieNodeType};
use marf_index::node_id::TrieNodeID;
use marf_index::path::NodePath;
use marf_index::ptr::TriePtr;
use marf_index::value::{ClarityMarfTrieId, MARFValue, StacksBlockId, TrieLeaf};
use std::cell::{Cell, RefCell};
use std::collections::HashMap;

fn block(n: u8) -> StacksBlockId {
    StacksBlockId([n; 32])
}

fn value(n: u8) -> MARFValue {
    MARFValue([n; 40])
}

fn key_path(first: u8, rest: u8) -> TrieHash {
    let mut p = [rest; 32];
    p[0] = first;
    TrieHash(p)
}

fn leaf_node(rest: u8, v: u8) -> TrieNodeType {
    TrieNodeType::Leaf(TrieLeaf::from_value(&[rest; 31], value(v)))
}

fn leaf_ptr(chr: u8, at: u32) -> TriePtr {
    TriePtr::new(TrieNodeID::Leaf.to_u8(), chr, at)
}

fn root_ptr() -> TriePtr {
    TriePtr::new(TrieNodeID::Node256.to_u8(), 0, 36)
}

/// Tries by block number and place.
struct Forest {
    nodes: HashMap<(u8, u32), StoredNode>,
    histories: HashMap<u32, MARFValue>,
    snapshot: Option<u32>,
}

impl Forest {
    fn put(&mut self, b: u8, at: u32, node: TrieNodeType) {
        self.nodes.insert((b, at), StoredNode::Node(node));
    }

    fn node(&self, b: &StacksBlockId, p: &TriePtr) -> Result<StoredNode, Error> {
        match self.nodes.get(&(b.0[0], p.ptr())) {
            Some(StoredNode::Node(n)) => Ok(StoredNode::Node(n.clone())),
            Some(StoredNode::Squashed(l)) => Ok(StoredNode::Squashed(*l)),
            None => Err(Error::BadSeekValue),
        }
    }

    fn walk(&self, user: &OpenedBlock<StacksBlockId>, path: &TrieHash) -> Result<TrieLeaf, Error> {
        walk(
            user,
            &root_ptr(),
            path,
            &|b: &StacksBlockId, p: &TriePtr| self.node(b, p),
            &|id: u32| Ok(block(id as u8)),
            &|_: &StacksBlockId, _: u32| self.snapshot,
            &|_: &StacksBlockId, _: &ChunkRef, h: u32| Ok(self.histories.get(&h).copied()),
        )
    }

    fn leaves(&self, b: u8) -> Result<Vec<(TrieHash, MARFValue)>, Error> {
        let mut out = Vec::new();
        let n = for_each_leaf(
            &block(b),
            &root_ptr(),
            &|b: &StacksBlockId, p: &TriePtr| self.node(b, p),
            &|id: u32| Ok(block(id as u8)),
            &|_: TrieHash, _: MARFValue| Ok(()),
            &mut out,
        )?;
        assert_eq!(n, out.len());
        Ok(out)
    }
}

fn user(b: u8) -> OpenedBlock<StacksBlockId> {
    OpenedBlock {
        block_hash: block(b),
        block_id: Some(b as u32),
        squash_height: None,
    }
}

/// Block 1 has keys under 10 and 20; block 2 is a copy with another value under 20, and a node
/// with two keys under 30.
fn forest() -> Forest {
    let mut f = Forest {
        nodes: HashMap::new(),
        histories: HashMap::new(),
        snapshot: None,
    };
    let mut root = TrieNode256::new(&[]);
    assert!(root.insert(&leaf_ptr(10, 100)));
    assert!(root.insert(&leaf_ptr(20, 200)));
    f.put(1, 36, TrieNodeType::Node256(Box::new(root)));
    f.put(1, 100, leaf_node(1, 11));
    f.put(1, 200, leaf_node(2, 22));

    let mut root = TrieNode256::new(&[]);
    assert!(root.insert(&TriePtr::new_backptr(TrieNodeID::Leaf.to_u8(), 10, 100, 1)));
    assert!(root.insert(&leaf_ptr(20, 300)));
    assert!(root.insert(&TriePtr::new(TrieNodeID::Node4.to_u8(), 30, 400)));
    f.put(2, 36, TrieNodeType::Node256(Box::new(root)));
    f.put(2, 300, leaf_node(2, 33));
    let mut inner = TrieNode4::new(&[3; 30]);
    assert!(inner.insert(&leaf_ptr(3, 500)));
    assert!(inner.insert(&leaf_ptr(4, 600)));
    f.put(2, 400, TrieNodeType::Node4(inner));
    f.put(2, 500, TrieNodeType::Leaf(TrieLeaf::from_value(&[], value(44))));
    f.put(2, 600, TrieNodeType::Leaf(TrieLeaf::from_value(&[], value(55))));
    f
}

fn data(r: Result<TrieLeaf, Error>) -> u8 {
    r.unwrap().data.0[0]
}

#[test]
fn walk_finds_keys_through_back_pointers() {
    let f = forest();
    assert_eq!(data(f.walk(&user(1), &key_path(10, 1))), 11);
    assert_eq!(data(f.walk(&user(1), &key_path(20, 2))), 22);
    assert_eq!(data(f.walk(&user(2), &key_path(10, 1))), 11);
    assert_eq!(data(f.walk(&user(2), &key_path(20, 2))), 33);
    assert_eq!(data(f.walk(&user(2), &key_path(30, 3))), 44);
    let mut p = key_path(30, 3);
    p.0[31] = 4;
    assert_eq!(data(f.walk(&user(2), &p)), 55);
}

#[test]
fn walk_tells_what_is_not_there() {
    let f = forest();
    for missing in [key_path(40, 1), key_path(10, 9), key_path(30, 9)] {
        assert!(matches!(
            f.walk(&user(2), &missing),
            Err(Error::NotFoundError)
        ));
    }
    assert!(matches!(
        f.walk(&user(3), &key_path(10, 1)),
        Err(Error::BadSeekValue)
    ));
    assert!(value_if_found(f.walk(&user(2), &key_path(40, 1)))
        .unwrap()
        .is_none());
}

#[test]
fn walk_rejects_what_is_no_trie() {
    let mut f = forest();
    // a leaf where the pointer promises a node
    let mut root = TrieNode256::new(&[]);
    assert!(root.insert(&TriePtr::new(TrieNodeID::Node4.to_u8(), 10, 100)));
    f.put(1, 36, TrieNodeType::Node256(Box::new(root)));
    assert!(matches!(
        f.walk(&user(1), &key_path(10, 1)),
        Err(Error::CorruptionError(_))
    ));
    // a node that never ends the path, over and over again
    let mut root = TrieNode256::new(&[]);
    for c in 0..=255u8 {
        assert!(root.insert(&TriePtr::new(TrieNodeID::Node256.to_u8(), c, 36)));
    }
    f.put(1, 36, TrieNodeType::Node256(Box::new(root)));
    assert!(matches!(
        f.walk(&user(1), &key_path(10, 1)),
        Err(Error::CorruptionError(_))
    ));
}

#[test]
fn lookups_by_path_and_key() {
    let mut f = forest();
    let path = TrieHash::from_key("hello");
    let mut root = TrieNode256::new(&[]);
    assert!(root.insert(&leaf_ptr(path.0[0], 700)));
    f.put(5, 36, TrieNodeType::Node256(Box::new(root)));
    f.put(5, 700, TrieNodeType::Leaf(TrieLeaf::from_value(&path.0[1..], value(66))));
    let read = |b: &StacksBlockId, p: &TriePtr| f.node(b, p);
    let of = |id: u32| Ok(block(id as u8));
    let snap = |_: &StacksBlockId, _: u32| None;
    let hist = |_: &StacksBlockId, _: &ChunkRef, _: u32| Ok(None);
    assert_eq!(
        get_by_key(&user(5), &root_ptr(), "hello", &read, &of, &snap, &hist).unwrap(),
        Some(value(66))
    );
    assert_eq!(
        get_by_key(&user(5), &root_ptr(), "other", &read, &of, &snap, &hist).unwrap(),
        None
    );
    assert_eq!(
        get_by_path(&user(5), &root_ptr(), &path, &read, &of, &snap, &hist).unwrap(),
        Some(value(66))
    );
}

fn squashed_leaf(has_history: bool) -> TrieLeafSquashed {
    TrieLeafSquashed {
        path: NodePath::from_slice(&[1; 31]).unwrap(),
        has_history,
        chunk: ChunkRef {
            history_offset: 10,
            history_byte_len: 50,
            history_entry_count: 1,
            tip_value: value(99),
        },
    }
}

#[test]
fn squashed_leaves_are_read_at_a_height() {
    let mut f = forest();
    f.nodes
        .insert((1, 100), StoredNode::Squashed(squashed_leaf(true)));
    f.histories.insert(5, value(5));
    f.histories.insert(6, value(6));
    let path = key_path(10, 1);
    // outside of the range, the end of the range counts
    assert_eq!(data(f.walk(&user(2), &path)), 99);
    // a fork off the range
    f.snapshot = Some(6);
    assert_eq!(data(f.walk(&user(2), &path)), 6);
    // a block in the range
    let mut inside = user(2);
    inside.squash_height = Some(5);
    assert_eq!(data(f.walk(&inside, &path)), 5);
    // before the key was there
    inside.squash_height = Some(4);
    assert!(matches!(f.walk(&inside, &path), Err(Error::NotFoundError)));
    // nothing is known of an uncommitted block
    let mut fresh = user(2);
    fresh.block_id = None;
    assert_eq!(data(f.walk(&fresh, &path)), 99);
    f.nodes
        .insert((1, 100), StoredNode::Squashed(squashed_leaf(false)));
    assert!(matches!(
        f.walk(&inside, &path),
        Err(Error::CorruptionError(_))
    ));
}

// ---- all leaves ----

#[test]
fn leaves_and_lookups_agree() {
    let f = forest();
    for b in [1u8, 2] {
        let leaves = f.leaves(b).unwrap();
        assert_eq!(leaves.len(), if b == 1 { 2 } else { 4 });
        for (path, v) in leaves {
            assert_eq!(f.walk(&user(b), &path).unwrap().data, v);
        }
    }
    // later slots come first
    let order: Vec<u8> = f.leaves(2).unwrap().iter().map(|l| l.1 .0[0]).collect();
    assert_eq!(order, vec![55, 44, 33, 11]);
}

#[test]
fn leaves_of_wrong_length_are_corruption() {
    let mut f = forest();
    f.put(1, 100, TrieNodeType::Leaf(TrieLeaf::from_value(&[1; 30], value(11))));
    assert!(matches!(f.leaves(1), Err(Error::CorruptionError(_))));
    let mut deep = TrieNode4::new(&[1; 31]);
    assert!(deep.insert(&leaf_ptr(1, 200)));
    f.put(1, 100, TrieNodeType::Node4(deep));
    assert!(matches!(f.leaves(1), Err(Error::CorruptionError(_))));
    assert!(matches!(f.leaves(9), Err(Error::BadSeekValue)));
}

#[test]
fn branches_too_deep_for_leaves_count_for_nothing() {
    let mut f = forest();
    let before = f.leaves(1).unwrap();
    let mut deep = TrieNode4::new(&[1; 31]);
    assert!(deep.insert(&TriePtr::new(TrieNodeID::Node4.to_u8(), 1, 210)));
    f.put(1, 100, TrieNodeType::Node4(deep));
    f.put(1, 210, TrieNodeType::Node4(TrieNode4::new(&[])));
    let after = f.leaves(1).unwrap();
    assert_eq!(after.len() + 1, before.len());
    // a leaf down there is corruption
    let mut deeper = TrieNode4::new(&[]);
    assert!(deeper.insert(&leaf_ptr(5, 310)));
    f.put(1, 210, TrieNodeType::Node4(deeper));
    f.put(1, 310, leaf_node(1, 1));
    assert!(matches!(f.leaves(1), Err(Error::CorruptionError(_))));
    // and what cannot be read is an error
    f.nodes.remove(&(1, 310));
    assert!(matches!(f.leaves(1), Err(Error::BadSeekValue)));
}

#[test]
fn a_leaf_can_be_refused() {
    let f = forest();
    let all = f.leaves(2).unwrap();
    assert!(all.len() > 2);
    let mut out = Vec::new();
    let second = all[1];
    let r = for_each_leaf(
        &block(2),
        &root_ptr(),
        &|b: &StacksBlockId, p: &TriePtr| f.node(b, p),
        &|id: u32| Ok(block(id as u8)),
        &|path: TrieHash, value: MARFValue| {
            if (path, value) == second {
                Err(Error::PartialWriteError)
            } else {
                Ok(())
            }
        },
        &mut out,
    );
    assert!(matches!(r, Err(Error::PartialWriteError)));
    assert_eq!(out, all[..1].to_vec());
}

#[test]
fn only_what_is_on_the_way_is_looked_up() {
    let f = forest();
    let known = |id: u32| match id {
        1 => Ok(block(1)),
        _ => Err(Error::BadSeekValue),
    };
    let read = |b: &StacksBlockId, p: &TriePtr| f.node(b, p);
    let snap = |_: &StacksBlockId, _: u32| None;
    let hist = |_: &StacksBlockId, _: &ChunkRef, _: u32| Err(Error::BadSeekValue);
    let path = key_path(10, 1);
    let want = f.walk(&user(2), &path).unwrap().data;
    assert_eq!(
        get_by_path(&user(2), &root_ptr(), &path, &read, &known, &snap, &hist).unwrap(),
        Some(want)
    );
}

#[test]
fn squashed_leaves_count_with_the_end_of_their_range() {
    let mut f = forest();
    f.nodes
        .insert((1, 100), StoredNode::Squashed(squashed_leaf(true)));
    let leaves = f.leaves(1).unwrap();
    assert_eq!(leaves[1], (key_path(10, 1), value(99)));
}

#[test]
fn nodes_behind_pointers() {
    let f = forest();
    let read = |b: &StacksBlockId, p: &TriePtr| f.node(b, p);
    let of = |id: u32| Ok(block(id as u8));
    let back = TriePtr::new_backptr(TrieNodeID::Leaf.to_u8(), 10, 100, 1);
    let (b, node) = read_node_for_ptr(&block(2), &back, &read, &of).unwrap();
    assert_eq!(b, block(1));
    assert!(matches!(node, StoredNode::Node(n) if n.is_leaf()));
    let (b, _) = read_node_for_ptr(&block(2), &leaf_ptr(20, 300), &read, &of).unwrap();
    assert_eq!(b, block(2));
}

// ---- copying ----

#[test]
fn copies_point_back() {
    let mut inner = TrieNode4::new(&[7]);
    assert!(inner.insert(&leaf_ptr(3, 500)));
    let mut node = TrieNodeType::Node4(inner);
    assert_eq!(node_copy_update(&mut node, 8), TrieHash::empty());
    assert_eq!(
        node.walk(3),
        Some(TriePtr::new_backptr(TrieNodeID::Leaf.to_u8(), 3, 500, 8))
    );
    let leaf = TrieLeaf::from_value(&[1], value(2));
    let mut node = TrieNodeType::Leaf(leaf);
    assert_eq!(node_copy_update(&mut node, 8), get_leaf_hash(&leaf));
}

#[test]
fn roots_of_new_blocks() {
    let (root, hash) = fresh_root();
    assert!(root.is_node256() && root.ptrs().iter().all(|p| p.is_empty()));
    assert_eq!(hash, get_node_hash(&root, &[], &BlockHashes::new()));

    let f = forest();
    let old = match f.node(&block(1), &root_ptr()).unwrap() {
        StoredNode::Node(n) => n,
        StoredNode::Squashed(_) => unreachable!(),
    };
    let (copy, hash) = root_copy(old.clone(), &block(1), 1, 36, false);
    assert_eq!(hash, TrieHash::empty());
    assert_eq!(
        copy.walk(10),
        Some(TriePtr::new_backptr(TrieNodeID::Leaf.to_u8(), 10, 100, 1))
    );
    let cow = copy.get_cow_ptr().unwrap();
    assert_eq!(cow.block_id::<StacksBlockId>(), block(1));
    assert_eq!(
        *cow.ptr(),
        TriePtr::new_backptr(TrieNodeID::Node256.to_u8(), 0, 36, 1)
    );
    assert!(root_copy(old.clone(), &block(1), 1, 36, true)
        .0
        .get_cow_ptr()
        .is_none());
    assert!(root_copy(old.clone(), &block(255), 1, 36, false)
        .0
        .get_cow_ptr()
        .is_none());

    // a new block starts with the state of its parent
    let mut g = forest();
    g.put(3, 36, copy);
    let mut a = g.leaves(1).unwrap();
    let mut b = g.leaves(3).unwrap();
    a.sort_by_key(|l| l.0 .0);
    b.sort_by_key(|l| l.0 .0);
    assert_eq!(a, b);
}

#[test]
fn saved_roots() {
    let mut bytes = Vec::new();
    TrieNodeType::Node256(Box::new(TrieNode256::new(&[4]))).write_bytes(&mut bytes);
    assert_eq!(saved_root_node(&bytes).unwrap().path_bytes(), &[4]);
    assert!(matches!(saved_root_node(&[]), Err(Error::CorruptionError(_))));
    assert!(matches!(
        saved_root_node(&bytes[..9]),
        Err(Error::CorruptionError(_))
    ));
}

#[test]
fn extending() {
    assert_eq!(extend_trie(0, &block(1)), ExtendStep::Fresh);
    assert_eq!(extend_trie(3, &block(255)), ExtendStep::Fresh);
    assert_eq!(extend_trie(3, &block(1)), ExtendStep::TryOpen);
    assert_eq!(extend_trie_opened(Ok(())).unwrap(), ExtendStep::Opened);
    assert_eq!(
        extend_trie_opened(Err(Error::NotFoundError)).unwrap(),
        ExtendStep::CopyRoot
    );
    assert!(matches!(
        extend_trie_opened(Err(Error::BadSeekValue)),
        Err(Error::BadSeekValue)
    ));
}

#[test]
fn copying_walk() {
    let mut f = forest();
    // block 1 gets an inner node, and block 3 starts as a copy of its root
    let mut inner = TrieNode4::new(&[3; 30]);
    assert!(inner.insert(&leaf_ptr(3, 500)));
    f.put(1, 400, TrieNodeType::Node4(inner));
    f.put(1, 500, TrieNodeType::Leaf(TrieLeaf::from_value(&[], value(44))));
    let mut root = TrieNode256::new(&[]);
    assert!(root.insert(&TriePtr::new_backptr(TrieNodeID::Node4.to_u8(), 30, 400, 1)));
    f.put(3, 36, TrieNodeType::Node256(Box::new(root)));

    let cow = |f: &Forest, path: &TrieHash| {
        walk_cow(
            &block(3),
            &root_ptr(),
            path,
            &|b: &StacksBlockId, p: &TriePtr| f.node(b, p),
            &|id: u32| Ok(block(id as u8)),
            &|b: &StacksBlockId| Ok(b.0[0] as u32),
            &|_: &StacksBlockId| None,
            &|_: &StacksBlockId, _: &ChunkRef, _: u32| Ok(None),
            &|k: usize| Ok(1000 + k as u32),
        )
    };
    let (cursor, writes) = cow(&f, &key_path(30, 3)).unwrap();
    assert_eq!(writes.len(), 2);
    assert_eq!((writes[0].at, writes[1].at), (1000, 1001));
    assert!(writes[0].node.is_node4() && writes[1].node.is_leaf());
    assert_eq!(
        writes[0].node.walk(3),
        Some(TriePtr::new_backptr(TrieNodeID::Leaf.to_u8(), 3, 500, 1))
    );
    assert_eq!(writes[0].from, block(1));
    assert_eq!(writes[0].hash, TrieHash::empty());
    assert_eq!(cursor.ptr(), leaf_ptr(3, 1001));
    assert_eq!(cursor.block_hashes.len() + 1, cursor.node_ptrs.len());
    assert!(cursor.last_error.is_none() && cursor.eop());

    let mut p = key_path(30, 3);
    p.0[31] = 9;
    let (cursor, writes) = cow(&f, &p).unwrap();
    assert_eq!(writes.len(), 1);
    assert_eq!(cursor.last_error, Some(CursorError::ChrNotFound));
    let (cursor, writes) = cow(&f, &key_path(30, 8)).unwrap();
    assert_eq!(writes.len(), 1);
    assert_eq!(cursor.last_error, Some(CursorError::PathDiverged));

    f.put(1, 400, TrieNodeType::Node4(TrieNode4::new(&[3; 31])));
    assert!(
        matches!(cow(&f, &key_path(30, 3)), Err(Error::CorruptionError(_))),
        "the path must end at a leaf"
    );
}

#[test]
fn squashed_leaves_become_plain_ones() {
    let mut f = forest();
    f.nodes
        .insert((1, 100), StoredNode::Squashed(squashed_leaf(true)));
    f.histories.insert(5, value(5));
    let back = TriePtr::new_backptr(TrieNodeID::Leaf.to_u8(), 10, 100, 1);
    let copy = |height: Option<u32>| {
        node_child_copy(
            &back,
            0,
            &|b: &StacksBlockId, p: &TriePtr| f.node(b, p),
            &|id: u32| Ok(block(id as u8)),
            &|b: &StacksBlockId| Ok(b.0[0] as u32),
            &|_: &StacksBlockId| height,
            &|_: &StacksBlockId, _: &ChunkRef, h: u32| Ok(f.histories.get(&h).copied()),
            &|_: usize| Ok(77),
        )
    };
    for (height, want) in [(None, 99), (Some(5), 5)] {
        let (write, _, ptr) = copy(height).unwrap();
        match write.node {
            TrieNodeType::Leaf(l) => assert_eq!(l.data, value(want)),
            _ => panic!("expected a plain leaf"),
        }
        assert_eq!(ptr, leaf_ptr(10, 77));
    }
    assert!(matches!(copy(Some(4)), Err(Error::CorruptionError(_))));
    let none = |_: &StacksBlockId, _: &ChunkRef, _: u32| Ok(Some(value(1)));
    assert!(matches!(
        flatten_squashed(&squashed_leaf(false), &block(1), Some(3), &none),
        Err(Error::CorruptionError(_))
    ));
}

// ---- heights ----

/// The keys of heights in the tries of blocks.
struct Heights(HashMap<(StacksBlockId, String), MARFValue>);

impl Heights {
    /// Blocks 1, 2 and 3 at heights 0, 1 and 2.
    fn chain() -> Heights {
        let mut all = HashMap::new();
        let mut inherited: Vec<(String, MARFValue)> = Vec::new();
        for n in 1..=3u8 {
            let (keys, values) = set_block_heights(&block(n - 1), &block(n), n as u32 - 1);
            inherited.extend(keys.into_iter().zip(values));
            for (k, v) in &inherited {
                all.insert((block(n), k.clone()), *v);
            }
        }
        Heights(all)
    }

    fn get(&self, b: &StacksBlockId, key: &str) -> Result<Option<MARFValue>, Error> {
        Ok(self.0.get(&(*b, key.to_string())).copied())
    }
}

#[test]
fn height_keys() {
    assert_eq!(block_height_to_hash_key(12), "__MARF_BLOCK_HEIGHT_TO_HASH::12");
    assert_eq!(
        block_hash_to_height_key(&block(0xab)),
        format!("__MARF_BLOCK_HASH_TO_HEIGHT::{}", "ab".repeat(32))
    );
    let (keys, values) = set_block_heights(&block(1), &block(2), 7);
    assert_eq!(keys.len(), 5);
    assert_eq!(keys[0], "__MARF_BLOCK_HEIGHT_SELF");
    assert_eq!(values[0].to_u32(), 7);
    assert_eq!(keys[3], "__MARF_BLOCK_HEIGHT_TO_HASH::6");
    assert_eq!(values[4].to_u32(), 6);
    assert_eq!(set_block_heights(&block(1), &block(2), 0).0.len(), 3);
}

#[test]
fn heights_are_read_back() {
    let h = Heights::chain();
    let get = |b: &StacksBlockId, k: &str| h.get(b, k);
    let plain = |_: &StacksBlockId| Ok(None);
    assert_eq!(get_block_height(&block(3), &block(3), &plain, &get).unwrap(), Some(2));
    assert_eq!(get_block_height(&block(1), &block(3), &plain, &get).unwrap(), Some(0));
    assert_eq!(get_block_height(&block(9), &block(3), &plain, &get).unwrap(), None);
    for n in 1..=3u8 {
        assert_eq!(
            get_block_at_height(n as u32 - 1, &block(3), &plain, &get).unwrap(),
            Some(block(n))
        );
    }
    assert_eq!(get_block_at_height(8, &block(3), &plain, &get).unwrap(), None);
    assert_eq!(get_block_at_height(0, &block(9), &plain, &get).unwrap(), None);
    // in a squashed range the block's own height comes from elsewhere
    let squashed = |_: &StacksBlockId| Ok(Some(41));
    assert_eq!(
        get_block_height_miner_tip(&block(3), &block(3), &squashed, &get).unwrap(),
        Some(41)
    );
    assert_eq!(
        get_block_height_miner_tip(&block(1), &block(3), &squashed, &get).unwrap(),
        Some(0)
    );
    let unknown = |_: &StacksBlockId| Err(Error::NotFoundError);
    assert_eq!(
        get_block_height_miner_tip(&block(3), &block(3), &unknown, &get).unwrap(),
        Some(2)
    );
    let broken = |_: &StacksBlockId| Err(Error::BadSeekValue);
    assert!(get_block_height_miner_tip(&block(3), &block(3), &broken, &get).is_err());
    assert_eq!(in_squash_height(Some(1), Some(5)), Some(5));
    assert_eq!(in_squash_height(None, Some(5)), None);
}

#[test]
fn ancestors() {
    let h = Heights::chain();
    let get = |b: &StacksBlockId, k: &str| h.get(b, k);
    let plain = |_: &StacksBlockId| Ok(None);
    let open = |_: &StacksBlockId| Ok(());
    assert!(check_ancestor_block_hash(&block(1), &block(3), &plain, &get, &open).is_ok());
    assert!(check_ancestor_block_hash(&block(3), &block(3), &plain, &get, &open).is_ok());
    match check_ancestor_block_hash(&block(9), &block(3), &plain, &get, &open) {
        Err(Error::NonMatchingForks(a, b)) => assert_eq!((a, b), ([9; 32], [3; 32])),
        _ => panic!("expected another fork"),
    }
    let gone = |_: &StacksBlockId| Err(Error::NotFoundError);
    assert!(matches!(
        check_ancestor_block_hash(&block(1), &block(3), &plain, &get, &gone),
        Err(Error::RestoreMarfBlockError(_))
    ));
    let only_current = |b: &StacksBlockId| {
        if *b == block(3) {
            Ok(())
        } else {
            Err(Error::NotFoundError)
        }
    };
    assert!(matches!(
        check_ancestor_block_hash(&block(1), &block(3), &plain, &get, &only_current),
        Err(Error::NotFoundError)
    ));
    // two blocks that claim the same height
    let mut two = Heights::chain();
    two.0.insert(
        (block(3), block_hash_to_height_key(&block(9))),
        MARFValue::from_u32(1),
    );
    let get = |b: &StacksBlockId, k: &str| two.get(b, k);
    assert!(matches!(
        check_ancestor_block_hash(&block(9), &block(3), &plain, &get, &open),
        Err(Error::NonMatchingForks(_, _))
    ));
    // a height without a block
    two.0.insert(
        (block(3), block_hash_to_height_key(&block(8))),
        MARFValue::from_u32(77),
    );
    let get = |b: &StacksBlockId, k: &str| two.get(b, k);
    assert!(matches!(
        check_ancestor_block_hash(&block(8), &block(3), &plain, &get, &open),
        Err(Error::CorruptionError(_))
    ));
}

#[test]
fn extension_heights_and_unconfirmed_tips() {
    assert_eq!(extension_height(&block(255), None).unwrap(), 0);
    assert_eq!(extension_height(&block(1), Some(5)).unwrap(), 6);
    assert!(matches!(
        extension_height(&block(1), None),
        Err(Error::CorruptionError(_))
    ));
    let tip = make_unconfirmed_chain_tip(&block(1));
    assert_eq!(tip.0, TrieHash::from_data(&[1; 64]).0);
}

// ---- the forest as a whole ----

#[test]
fn open_options() {
    let o = MARFOpenOpts::default(3);
    assert_eq!(o.hash_calculation_mode, TrieHashCalculationMode::Deferred);
    assert_eq!(o.cache_strategy, "noop");
    assert!(!o.external_blobs && !o.force_db_migrate && !o.compress && !o.mmap);
    assert!(!o.auto_recovery);
    assert_eq!(o.squash_mode, SquashMode::TipOnly);
    assert_eq!(o.squash_root_snapshot_retention_levels, 3);
    let mut o = MARFOpenOpts::new(TrieHashCalculationMode::Immediate, "everything", true, 3)
        .with_auto_recovery(true)
        .with_squash_horizon_burn_blocks(Some(9))
        .with_compression(true)
        .with_mmap(true)
        .with_squash_mode(SquashMode::FullHistory)
        .with_squash_root_snapshot_retention_levels(5)
        .with_squash_root_snapshot_retention_blocks(6);
    assert_eq!(o.cache_strategy, "everything");
    assert!(o.external_blobs && o.auto_recovery && o.compress && o.mmap);
    assert_eq!(o.squash_horizon_burn_blocks, Some(9));
    assert_eq!(o.squash_mode, SquashMode::FullHistory);
    assert_eq!(o.squash_root_snapshot_retention_levels, 5);
    assert_eq!(o.squash_root_snapshot_retention_blocks, Some(6));
    test_override_marf_compression(&mut o, None, None);
    assert!(o.compress);
    test_override_marf_compression(&mut o, None, Some(false));
    assert!(!o.compress);
    test_override_marf_compression(&mut o, Some(true), Some(false));
    assert!(o.compress);
}

#[test]
fn reads_are_retried() {
    let resets = Cell::new(0);
    let reset = || {
        resets.set(resets.get() + 1);
        Ok(())
    };
    let r = with_read_retry(
        |n| {
            if n < 5 {
                Err(Error::RetryAfterSquash)
            } else {
                Ok(n)
            }
        },
        reset,
    );
    assert_eq!(r.unwrap(), 5);
    assert_eq!(resets.get(), 5);
    let r: Result<u8, Error> = with_read_retry(|_| Err(Error::RetryAfterSquash), || Ok(()));
    match r {
        Err(Error::CorruptionError(m)) => {
            assert_eq!(m, "squash-retry-exhausted after 16 attempts")
        }
        _ => panic!("expected the retries to run out"),
    }
    let r: Result<u8, Error> = with_read_retry(|_| Err(Error::NotFoundError), || Ok(()));
    assert!(matches!(r, Err(Error::NotFoundError)));
    let r: Result<u8, Error> =
        with_read_retry(|_| Err(Error::RetryAfterSquash), || Err(Error::BadSeekValue));
    assert!(matches!(r, Err(Error::BadSeekValue)));
    // a reset that fails the second time ends the attempts there
    let attempts = Cell::new(0);
    let resets = Cell::new(0);
    let r: Result<u8, Error> = with_read_retry(
        |n| {
            attempts.set(n + 1);
            Err(Error::RetryAfterSquash)
        },
        || {
            resets.set(resets.get() + 1);
            if resets.get() < 2 {
                Ok(())
            } else {
                Err(Error::BadSeekValue)
            }
        },
    );
    assert!(matches!(r, Err(Error::BadSeekValue)));
    assert_eq!((attempts.get(), resets.get()), (2, 2));
}

#[test]
fn restoring_the_open_block() {
    assert_eq!(with_restored_block_context(Ok(1), Ok(())).unwrap(), 1);
    assert!(matches!(
        with_restored_block_context(Ok(1), Err(Error::BadSeekValue)),
        Err(Error::BadSeekValue)
    ));
    let leaf = TrieLeaf::from_value(&[], value(3));
    assert_eq!(
        get_path_with_fork_extend_intent(Ok(leaf), Ok(())).unwrap(),
        Some(value(3))
    );
    assert_eq!(
        get_path_with_fork_extend_intent(Err(Error::NotFoundError), Ok(())).unwrap(),
        None
    );
    assert!(matches!(
        get_path_with_fork_extend_intent(Ok(leaf), Err(Error::BadSeekValue)),
        Err(Error::RestoreMarfBlockError(_))
    ));
}

fn marf(readonly: bool, unconfirmed: bool) -> MARF<StacksBlockId> {
    MARF::from_storage("db", readonly, unconfirmed)
}

/// Begin a block at height 7 on top of one at height 6, where everything goes well.
fn begin_at_7(m: &mut MARF<StacksBlockId>, next: StacksBlockId) {
    m.begin(
        &block(1),
        &next,
        |_: &StacksBlockId| Ok(false),
        |_: &StacksBlockId| Ok(Some(6)),
        |_: &StacksBlockId| Ok(()),
        |_: &StacksBlockId, _: &Vec<BatchInsert>| Ok(()),
    )
    .unwrap();
}

#[test]
fn beginning_to_write() {
    type Id = StacksBlockId;
    let none = |_: &Id, _: &Vec<BatchInsert>| Ok(());
    let height = |_: &Id| Ok(Some(6));
    let extend = |_: &Id| Ok(());
    let mut m = marf(false, false);
    assert_eq!(m.get_db_path(), "db");
    let (tip, next) = (block(1), block(2));
    assert!(matches!(
        m.begin(&tip, &next, |_: &Id| Ok(true), height, extend, none),
        Err(Error::ExistsError)
    ));
    let fails = |_: &Id| Err(Error::BadSeekValue);
    assert!(matches!(
        m.begin(&tip, &next, fails, height, extend, none),
        Err(Error::BadSeekValue)
    ));
    let unknown = |_: &Id| Ok(None);
    assert!(matches!(
        m.begin(&tip, &next, |_: &Id| Ok(false), unknown, extend, none),
        Err(Error::CorruptionError(_))
    ));
    let overflows = |_: &Id| Err(Error::OverflowError);
    assert!(matches!(
        m.begin(&tip, &next, |_: &Id| Ok(false), height, overflows, none),
        Err(Error::OverflowError)
    ));
    let refuses = |_: &Id, _: &Vec<BatchInsert>| Err(Error::PartialWriteError);
    assert!(matches!(
        m.begin(&tip, &next, |_: &Id| Ok(false), height, extend, refuses),
        Err(Error::PartialWriteError)
    ));
    assert!(m.get_open_chain_tip().is_none(), "nothing was begun");
    assert!(matches!(
        m.begin_unconfirmed(&tip, |_: &Id| Ok(true), height, |_: &Id| Ok(true), none),
        Err(Error::UnconfirmedError)
    ));

    // what the block records of heights is inserted under the new block
    let inserted = RefCell::new(Vec::new());
    let record = |b: &Id, batch: &Vec<BatchInsert>| {
        assert_eq!(*b, block(2));
        for i in batch {
            inserted.borrow_mut().push((i.path, i.leaf.data, i.update_skiplist));
        }
        Ok(())
    };
    m.begin(&tip, &next, |_: &Id| Ok(false), height, extend, record)
        .unwrap();
    let inserted = inserted.into_inner();
    assert_eq!(inserted.len(), 6);
    assert_eq!(
        inserted[0],
        (TrieHash::from_key("__MARF_BLOCK_HEIGHT_SELF"), MARFValue::from_u32(7), false)
    );
    assert_eq!(
        inserted[3],
        (TrieHash::from_key(&block_height_to_hash_key(6)), MARFValue::from_trie_id(tip), false)
    );
    assert_eq!(
        inserted[5],
        (TrieHash::from_key(&block_hash_to_height_key(&tip)), MARFValue::from_u32(6), true)
    );
    assert_eq!(m.get_open_chain_tip(), Some(&block(2)));
    assert_eq!(m.get_open_chain_tip_height(), Some(7));
    let panics = |_: &Id| panic!("not asked");
    assert!(matches!(
        m.begin(&tip, &block(3), panics, height, extend, none),
        Err(Error::InProgressError)
    ));
    assert_eq!(
        m.get_block_height_of(&block(2), |_: &StacksBlockId| panic!("known"))
            .unwrap(),
        Some(7)
    );
    assert_eq!(
        m.get_block_height_of(&block(1), |_: &StacksBlockId| Ok(Some(6)))
            .unwrap(),
        Some(6)
    );
    assert!(matches!(m.reopen_readonly(), Err(Error::InProgressError)));
    assert!(matches!(m.reopen_connection(), Err(Error::InProgressError)));
    assert!(matches!(m.squash(), Err(Error::NotSupportedError(_))));
    assert!(matches!(m.trim_sidecars(), Err(Error::NotSupportedError(_))));
    assert!(m.drop_current());
    assert!(m.reopen_readonly().is_ok() && m.squash().is_ok() && m.trim_sidecars().is_ok());

    // the first block of all
    m.begin(&Id::sentinel(), &next, |_: &Id| Ok(false), unknown, extend, none)
        .unwrap();
    assert_eq!(m.get_open_chain_tip_height(), Some(0));

    let mut ro = marf(true, false);
    assert!(matches!(
        ro.begin(&tip, &next, |_: &Id| Ok(false), height, extend, none),
        Err(Error::ReadOnlyError)
    ));
    assert!(matches!(ro.seal(), Err(Error::ReadOnlyError)));
    assert!(m.seal().is_ok());
    let mut u = marf(false, true);
    assert!(matches!(
        u.begin_unconfirmed(&tip, |_: &Id| Ok(false), height, |_: &Id| Ok(true), none),
        Err(Error::NotFoundError)
    ));
    let kept = u
        .begin_unconfirmed(&tip, |_: &Id| Ok(true), height, |_: &Id| Ok(false), refuses)
        .unwrap();
    assert_eq!(kept, make_unconfirmed_chain_tip(&tip));
    assert_eq!(u.get_open_chain_tip(), Some(&kept));
    assert_eq!(u.get_open_chain_tip_height(), Some(7));
}

#[test]
fn inserting() {
    let mut m = marf(false, false);
    let keys = vec!["a".to_string(), "b".to_string()];
    let values = vec![value(1), value(2)];
    assert!(matches!(
        m.insert_batch(&keys, &values),
        Err(Error::WriteNotBegunError)
    ));
    assert!(matches!(m.insert_raw(), Err(Error::WriteNotBegunError)));
    begin_at_7(&mut m, block(2));
    assert!(m.insert_batch(&[], &[]).unwrap().is_none());
    let (at, batch) = m.insert_batch(&keys, &values).unwrap().unwrap();
    assert_eq!(at, block(2));
    assert_eq!(batch.len(), 3);
    assert_eq!(batch[0].path, TrieHash::from_key("a"));
    assert_eq!(batch[1].leaf.data, value(2));
    assert!(!batch[0].update_skiplist && !batch[1].update_skiplist);
    assert!(batch[2].update_skiplist);
    assert_eq!(batch[2].path, TrieHash::from_key("b"));
    assert!(batch_inserts(&[], &[]).is_empty());
    let (at, one) = m.insert("c", value(3)).unwrap();
    assert_eq!((at, one.path, one.leaf.data), (block(2), TrieHash::from_key("c"), value(3)));
    assert!(one.update_skiplist && one.leaf.path.is_empty());
    assert_eq!(m.insert_raw().unwrap(), block(2));
    let ro = marf(true, false);
    assert!(matches!(ro.insert("c", value(3)), Err(Error::ReadOnlyError)));
    assert!(matches!(
        ro.insert_batch(&keys, &values),
        Err(Error::ReadOnlyError)
    ));
}

#[test]
fn committing_and_dropping() {
    let mut m = marf(false, false);
    assert_eq!(m.commit().unwrap(), CommitStep::Nothing);
    begin_at_7(&mut m, block(2));
    assert_eq!(m.commit().unwrap(), CommitStep::Flush);
    assert!(m.get_open_chain_tip().is_none());
    begin_at_7(&mut m, block(2));
    assert_eq!(m.commit_to().unwrap(), CommitStep::Flush);
    begin_at_7(&mut m, block(2));
    assert_eq!(m.commit_mined().unwrap(), CommitStep::Flush);
    begin_at_7(&mut m, block(2));
    assert_eq!(m.drop_unconfirmed(), None);
    assert!(m.get_open_chain_tip().is_some());
    assert!(m.drop_current());
    assert!(m.get_open_chain_tip().is_none());

    let mut u = marf(false, true);
    begin_at_7(&mut u, block(2));
    assert!(matches!(u.commit_to(), Err(Error::UnconfirmedError)));
    assert!(matches!(u.commit_mined(), Err(Error::UnconfirmedError)));
    assert!(u.get_open_chain_tip().is_some());
    assert_eq!(u.drop_unconfirmed(), Some(block(2)));
    assert_eq!(u.drop_unconfirmed(), None);

    let mut ro = marf(true, false);
    assert!(matches!(ro.commit(), Err(Error::ReadOnlyError)));
    assert!(matches!(ro.commit_to(), Err(Error::ReadOnlyError)));
    assert!(!ro.drop_current());
}

#[test]
fn squashed_ranges() {
    let mut m = marf(false, false);
    assert!(m.latest_squash_level_range().is_none());
    assert!(m.detect_divergence(|_| panic!("no range")).unwrap().is_none());
    m.squash_levels.push(SquashLevelCanonical {
        level_id: 4,
        min_height: 10,
        max_height: 12,
        block_hashes: vec![block(10), block(11), block(12)],
    });
    m.squash_blocks = vec![block(10), block(11), block(12)];
    m.external_bytes_since_last_squash = 77;
    assert_eq!(m.stats().external_bytes_since_last_squash, 77);
    assert!(m.is_in_squash_range(&block(11)) && !m.is_in_squash_range(&block(13)));
    assert!(m.check_provable(&block(13)).is_ok());
    assert_eq!(
        m.latest_squash_level_range(),
        Some(SquashLevelRange {
            level_id: 4,
            min_height: 10,
            max_height: 12
        })
    );
    assert_eq!(m.latest_squash_level_canonical_chain().unwrap().level_id, 4);
    assert!(m
        .detect_divergence(|h| Ok(Some(block(h as u8))))
        .unwrap()
        .is_none());
    assert!(m.detect_divergence(|_| Ok(None)).unwrap().is_none());
    let d = m
        .detect_divergence(|h| Ok(Some(if h < 11 { block(10) } else { block(99) })))
        .unwrap()
        .unwrap();
    assert_eq!((d.level_id, d.diverging_height), (4, 11));
    assert_eq!((d.recorded_canonical, d.new_canonical), (block(11), block(99)));
    assert!(matches!(
        m.detect_divergence(|_| Err(Error::BadSeekValue)),
        Err(Error::BadSeekValue)
    ));
    m.squash_levels[0].block_hashes.pop();
    assert!(matches!(
        m.detect_divergence(|h| Ok(Some(block(h as u8)))),
        Err(Error::CorruptionError(_))
    ));
    m.squash_levels[0].block_hashes.clear();
    assert!(m.latest_squash_level_canonical_chain().is_none());
    assert!(m.latest_squash_level_range().is_some());
}

#[test]
fn proofs() {
    let mut m = marf(false, false);
    m.squash_blocks = vec![block(10)];
    let prove = |_: &StacksBlockId, v: &MARFValue| Ok(v.0[0] + 1);
    assert!(matches!(
        m.get_with_proof(&block(10), |_: &StacksBlockId| panic!("not asked"), prove),
        Err(Error::NotSupportedError(_))
    ));
    assert_eq!(
        m.get_with_proof(&block(1), |_: &StacksBlockId| Ok(Some(value(3))), prove)
            .unwrap(),
        Some((value(3), 4))
    );
    assert!(m
        .get_with_proof(&block(1), |_: &StacksBlockId| Ok(None), prove)
        .unwrap()
        .is_none());
    let fail = |_: &StacksBlockId, _: &MARFValue| -> Result<u8, Error> { Err(Error::BadSeekValue) };
    assert!(matches!(
        m.get_with_proof(&block(1), |_: &StacksBlockId| Ok(Some(value(3))), fail),
        Err(Error::BadSeekValue)
    ));
}

#[test]
fn a_forest_that_is_opened_to_a_block_writes_it() {
    let m = MARF::from_storage_opened("/x/index.sqlite", false, &block(4));
    assert_eq!(m.get_open_chain_tip(), Some(&block(4)));
    assert_eq!(m.get_open_chain_tip_height(), Some(0));
    assert_eq!(m.insert_raw().unwrap(), block(4));
}

#[test]
fn blocks_are_found_by_height() {
    let h = Heights::chain();
    let get = |b: &StacksBlockId, k: &str| h.get(b, k);
    let plain = |_: &StacksBlockId| Ok(None);
    let m: MARF<StacksBlockId> = MARF::from_storage(":memory:", true, false);
    assert_eq!(m.get_bhh_at_height(&block(3), 1, &plain, &get).unwrap(), Some(block(2)));
    assert_eq!(m.get_bhh_at_height(&block(3), 7, &plain, &get).unwrap(), None);
}

#[test]
fn the_root_hash_is_read_between_opening_and_restoring() {
    let m: MARF<StacksBlockId> = MARF::from_storage(":memory:", true, false);
    let hash = TrieHash([9; 32]);
    let fine = || Ok(());
    let opened = |_: &StacksBlockId| Ok(());
    assert_eq!(m.get_root_hash_at(&block(1), opened, || Ok(hash), fine).unwrap(), hash);
    assert!(matches!(
        m.get_root_hash_at(&block(1), |_| Err(Error::NotFoundError), || Ok(hash), fine),
        Err(Error::NotFoundError)
    ));
    assert!(matches!(
        m.get_root_hash_at(&block(1), opened, || Err(Error::BadSeekValue), fine),
        Err(Error::BadSeekValue)
    ));
    assert!(matches!(
        m.get_root_hash_at(&block(1), opened, || Err(Error::BadSeekValue), || {
            Err(Error::InProgressError)
        }),
        Err(Error::InProgressError)
    ));
}

#[test]
fn a_height_without_a_block_is_corruption() {
    // the trie of block 3 has a height for block 2, and no block at that height
    let get = |_: &StacksBlockId, k: &str| {
        Ok(if k == block_hash_to_height_key(&block(2)) {
            Some(MARFValue::from_u32(6))
        } else if k == "__MARF_BLOCK_HEIGHT_SELF" {
            Some(MARFValue::from_u32(9))
        } else {
            None
        })
    };
    let plain = |_: &StacksBlockId| Ok(None);
    let open = |_: &StacksBlockId| Ok(());
    match check_ancestor_block_hash(&block(2), &block(3), &plain, &get, &open) {
        Err(Error::CorruptionError(m)) => assert_eq!(
            m,
            "ERROR: Could not find block for height 6, but it was returned by \
             MARF::get_block_height()"
        ),
        other => panic!("expected corruption, got {:?}", other),
    }
    assert!(matches!(
        check_ancestor_block_hash(&block(5), &block(3), &plain, &get, &open),
        Err(Error::NonMatchingForks(a, b)) if a == [5; 32] && b == [3; 32]
    ));
}
