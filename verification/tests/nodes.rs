use marf_index::bits::{
    get_compressed_ptrs_size, get_path_byte_len, get_ptrs_byte_len, get_ptrs_byte_len_compressed,
    get_sparse_ptrs_bitmap_size, path_from_bytes_slice_into, ptrs_from_slice_into,
    write_path_to_bytes, write_ptrs_to_bytes, write_ptrs_to_bytes_compressed,
};
use marf_index::byte_scanner::{
    scan_block_trie, scan_serialized_trie_ptr_fields, ScanEvent, ScannedPtr,
};
use marf_index::consensus::{
    get_leaf_hash, get_node_hash, to_consensus_bytes, write_consensus_bytes_ref, BlockHashes,
};
use marf_index::cursor::{ParkedNodeHandle, ReadTrieNodeCursorStep, TrieCursor};
use marf_index::error::{CodecError, CursorError, Error};
use marf_index::hash::TrieHash;
use marf_index::history_blob::ChunkRef;
use marf_index::marf_walk::TrieLeafSquashed;
use marf_index::node::{
    node_copy_update_ptrs, node_normalize_ptrs, TrieCowPtr, TrieNode, TrieNode16, TrieNode256,
    TrieNode4, TrieNode48, TrieNodeTransientMeta, TrieNodeType,
};
use marf_index::node_id::{
    clear_backptr, clear_compressed, clear_ctrl_bits, is_backptr, is_compressed, is_leaf_type,
    set_backptr, set_compressed, TrieNodeID,
};
use marf_index::node_ref::TrieNodeRef;
use marf_index::patch::TrieNodePatch;
use marf_index::path::NodePath;
use marf_index::ptr::{ptrs_fmt, TriePtr};
use marf_index::read::{
    decode_nodetype_from_slice_at_head, decode_stable_node_bytes, BorrowedNodeBytes,
    BytesBacking, OwnedNodeBytes, ReadTrieItem, ReadTrieNode,
};
use marf_index::squashed::SquashedCodec;
use marf_index::text::{parse_number, push_number};
use marf_index::value::{
    same_id, trie_id_from_value, BurnchainHeaderHash, ClarityMarfTrieId, MARFValue, SortitionId,
    StacksBlockId, TrieLeaf, SENTINEL_ARRAY,
};

type Squashed = SquashedCodec<fn(&[u8]) -> Option<(TrieLeafSquashed, usize)>>;

fn no_squashed() -> Squashed {
    SquashedCodec {
        max_len: 1,
        decode: |_| None,
    }
}

/// Two bytes: the kind, and what the value at the end of the range is made of.
fn short_squashed() -> Squashed {
    SquashedCodec {
        max_len: 2,
        decode: |bytes| {
            let leaf = TrieLeafSquashed {
                path: NodePath::from_slice(&[8, 9]).unwrap(),
                has_history: true,
                chunk: ChunkRef {
                    history_offset: 0,
                    history_byte_len: 0,
                    history_entry_count: 0,
                    tip_value: MARFValue([*bytes.get(1)?; 40]),
                },
            };
            Some((leaf, 2))
        },
    }
}

fn ptr(id: TrieNodeID, chr: u8, at: u32) -> TriePtr {
    TriePtr::new(id.to_u8(), chr, at)
}

fn back(id: TrieNodeID, chr: u8, at: u32, block: u32) -> TriePtr {
    TriePtr::new_backptr(id.to_u8(), chr, at, block)
}

fn hex(bytes: &[u8]) -> String {
    bytes.iter().map(|b| format!("{:02x}", b)).collect()
}

fn is_corruption<A>(r: Result<A, Error>) -> bool {
    matches!(r, Err(Error::CorruptionError(_)))
}

// ---- numbers as text ----

#[test]
fn numbers_as_text() {
    let mut s = String::new();
    push_number(&mut s, 255, 16, 4);
    push_number(&mut s, 1234, 10, 2);
    assert_eq!(s, "00ff1234");
    let chars: Vec<char> = "+00fF".chars().collect();
    assert_eq!(parse_number(&chars, 16, 255), Some(255));
    assert_eq!(parse_number(&chars, 16, 254), None);
    assert_eq!(parse_number(&['+'], 10, 9), None);
    assert_eq!(parse_number(&[], 10, 9), None);
    assert_eq!(parse_number(&['-', '1'], 10, 9), None);
}

// ---- hashes and values ----

#[test]
fn digest_of_known_inputs() {
    assert_eq!(
        hex(TrieHash::from_data(b"abc").as_bytes()),
        "53048e2681941ef99b2e29b76b4c7dabe4c2d0c634fc6d46e0e2f13107e7af23"
    );
    assert_eq!(
        hex(TrieHash::from_key("").as_bytes()),
        "c672b8d1ef56ed28ab87c3622c5114069bdd3ad7b8f9737498d0c01ecef0967a"
    );
    assert_eq!(TrieHash::empty().0, [0u8; 32]);
    assert!(TrieHash::from_bytes(&[1; 31]).is_none());
    assert_eq!(TrieHash::from_bytes(&[1; 32]).unwrap().0, [1u8; 32]);
}

#[test]
fn values() {
    let v = MARFValue::from_u32(0x0102_0304);
    assert_eq!(v.as_bytes()[..5], [4, 3, 2, 1, 0]);
    assert!(v.is_u32() && v.is_trie_id());
    assert_eq!(v.to_u32(), 0x0102_0304);
    let id = StacksBlockId([7; 32]);
    let w = MARFValue::from_trie_id(id);
    assert!(!w.is_u32() && w.is_trie_id());
    assert_eq!(trie_id_from_value::<StacksBlockId>(&w), id);
    assert_eq!(w.to_value_hash().0, [7; 32]);
    assert_eq!(w.to_vec().len(), 40);
    let hashed = MARFValue::from_value("abc");
    assert_eq!(hashed.to_value_hash(), TrieHash::from_data(b"abc"));
    assert_eq!(hashed.as_bytes()[32..], [0u8; 8]);
    assert_eq!(MARFValue::from_value_hash(&TrieHash([9; 32])).as_bytes()[31], 9);
    assert_eq!(MARFValue::from_value_hash_bytes(&[9; 32]).as_bytes()[32], 0);
}

#[test]
fn identifiers() {
    assert_eq!(StacksBlockId::sentinel().0, SENTINEL_ARRAY);
    assert_eq!(SortitionId::from_bytes([3; 32]).to_bytes(), [3; 32]);
    assert_eq!(BurnchainHeaderHash([4; 32]).as_bytes(), &[4u8; 32][..]);
    assert!(same_id(&SortitionId([3; 32]), &SortitionId([3; 32])));
    assert!(!same_id(&SortitionId([3; 32]), &SortitionId([4; 32])));
}

#[test]
fn node_paths() {
    assert!(NodePath::from_slice(&[1; 33]).is_none());
    let mut p = NodePath::from_slice(&[1, 2, 3]).unwrap();
    assert_eq!((p.as_slice(), p.len(), p.is_empty()), (&[1u8, 2, 3][..], 3, false));
    assert!(p.set_from_slice(&[9; 33]).is_none());
    assert!(p.set_from_slice(&[]).is_some());
    assert!(p.is_empty());
    assert!(p.read_from(2, &[5, 6, 7]));
    assert_eq!(p.as_slice(), &[5, 6]);
    assert!(!p.read_from(3, &[5]));
    assert_eq!(p.len(), 3);
    let q = NodePath::from_slice(&[1, 2, 3]).unwrap();
    assert!(q == NodePath::from_slice(&[1, 2, 3]).unwrap());
    assert!(q != NodePath::from_slice(&[1, 2]).unwrap());
    // bytes behind the end do not count
    let mut r = NodePath::from_slice(&[1, 2, 3, 4]).unwrap();
    assert!(r.read_from(3, &[1, 2, 3]));
    assert!(q == r);
}

// ---- identifiers of nodes and pointers ----

#[test]
fn node_ids() {
    for v in 0..=255u8 {
        match TrieNodeID::from_u8(v) {
            Some(id) => assert_eq!(id.to_u8(), v),
            None => assert!(v > 7),
        }
    }
    let id = TrieNodeID::Node16.to_u8();
    assert!(is_backptr(set_backptr(id)) && !is_backptr(id));
    assert!(is_compressed(set_compressed(id)) && !is_compressed(id));
    assert_eq!(clear_backptr(set_backptr(id)), id);
    assert_eq!(clear_compressed(set_compressed(id)), id);
    assert_eq!(clear_ctrl_bits(set_compressed(set_backptr(id))), id);
    assert!(is_leaf_type(set_backptr(TrieNodeID::Leaf.to_u8())));
    assert!(is_leaf_type(TrieNodeID::LeafSquashed.to_u8()));
    assert!(!is_leaf_type(id));
}

#[test]
fn pointer_bytes() {
    let p = ptr(TrieNodeID::Leaf, 0x41, 0x0102_0304);
    let mut w = Vec::new();
    p.write_bytes(&mut w);
    assert_eq!(w, vec![1, 0x41, 1, 2, 3, 4, 0, 0, 0, 0]);
    assert_eq!(TriePtr::from_bytes(&w), p);

    let mut c = Vec::new();
    p.write_bytes_compressed(&mut c);
    assert_eq!(c.len(), 6);
    assert_eq!(p.compressed_size(), 6);
    assert_eq!(TriePtr::from_slice_compressed(&c).unwrap(), (p, 6));

    let b = back(TrieNodeID::Node4, 0x42, 7, 9);
    let mut c = Vec::new();
    b.write_bytes_compressed(&mut c);
    assert_eq!(c.len(), 10);
    assert_eq!(TriePtr::compressed_size_for_id(b.id()), 10);
    let mut at = 0;
    assert_eq!(TriePtr::read_bytes_compressed(&c, &mut at).unwrap(), b);
    assert_eq!(at, 10);
    assert!(is_corruption(TriePtr::from_slice_compressed(&c[..9])));
    assert!(is_corruption(TriePtr::from_slice_compressed(&[])));
    assert_eq!(b.from_backptr(), ptr(TrieNodeID::Node4, 0x42, 7));
}

#[test]
fn pointer_text() {
    let list = [
        TriePtr::default(),
        ptr(TrieNodeID::Leaf, 0x0a, 3),
        back(TrieNodeID::Node4, 0xff, 7, 9),
    ];
    assert_eq!(
        ptrs_fmt(&list),
        "id(1)chr(0a)ptr(3)bblk(0),id(130)chr(ff)ptr(7)bblk(9)"
    );
    assert_eq!(ptrs_fmt(&[]), "");
    let patch = TrieNodePatch {
        ptr: back(TrieNodeID::Node4, 0xff, 7, 9),
        ptr_diff: vec![ptr(TrieNodeID::Leaf, 0x0a, 3)],
    };
    assert_eq!(
        Error::Patch(None, patch).message(),
        "Read patch node instead of expected node: TrieNodePatch(ptr=id(130)chr(ff)ptr(7)bblk(9) \
         ptr_diff=id(1)chr(0a)ptr(3)bblk(0))"
    );
}

#[test]
fn error_messages() {
    assert_eq!(Error::NotFoundError.message(), "Object not found");
    assert_eq!(
        Error::BlockHashMapCorruptionError(Some(Box::new(Error::OverflowError))).message(),
        "Corrupted MARF BlockHashMap: Overflow"
    );
    assert_eq!(
        Error::CursorError(CursorError::ChrNotFound).message(),
        "Node child not found"
    );
    assert_eq!(
        Error::NotSupportedError("x".to_string()).message(),
        "Operation not supported: x"
    );
    assert!(Error::RetryAfterSquash.is_retry_after_squash());
    assert!(!Error::OverflowError.is_retry_after_squash());
}

// ---- pointer lists and paths ----

#[test]
fn list_sizes() {
    assert_eq!(get_sparse_ptrs_bitmap_size(TrieNodeID::Node4.to_u8()), Some(1));
    assert_eq!(get_sparse_ptrs_bitmap_size(TrieNodeID::Node16.to_u8()), Some(2));
    assert_eq!(get_sparse_ptrs_bitmap_size(TrieNodeID::Node48.to_u8()), Some(6));
    assert_eq!(get_sparse_ptrs_bitmap_size(TrieNodeID::Node256.to_u8()), Some(32));
    assert_eq!(get_sparse_ptrs_bitmap_size(TrieNodeID::Leaf.to_u8()), None);
    let empty = [TriePtr::default(); 4];
    assert_eq!(get_ptrs_byte_len(&empty), 41);
    assert_eq!(get_path_byte_len(&NodePath::from_slice(&[1, 2]).unwrap()), 3);
}

#[test]
fn list_round_trips() {
    let mut list = [TriePtr::default(); 16];
    list[3] = ptr(TrieNodeID::Leaf, 3, 100);
    list[9] = back(TrieNodeID::Node48, 9, 200, 5);
    let id = TrieNodeID::Node16.to_u8();

    let mut full = vec![id];
    write_ptrs_to_bytes(&list, &mut full);
    assert_eq!(full.len(), get_ptrs_byte_len(&list));
    let mut got = [TriePtr::default(); 16];
    assert_eq!(ptrs_from_slice_into(id, &full, &mut got).unwrap(), (id, 161));
    assert_eq!(got, list);

    let mut sparse = vec![set_compressed(id)];
    write_ptrs_to_bytes_compressed(id, &list, &mut sparse).unwrap();
    assert_eq!(
        get_compressed_ptrs_size(id, &list),
        Some((sparse.len() - 1, true))
    );
    assert_eq!(sparse.len(), get_ptrs_byte_len_compressed(id, &list));
    assert_eq!(sparse.len(), 1 + 1 + 2 + 6 + 10);
    let mut got = [TriePtr::default(); 16];
    ptrs_from_slice_into(id, &sparse, &mut got).unwrap();
    assert_eq!(got, list);
    assert!(is_corruption(ptrs_from_slice_into(id, &sparse[..10], &mut got)));

    // all slots taken: a bitmap would not pay
    let mut crowded = [TriePtr::default(); 4];
    for (i, slot) in crowded.iter_mut().enumerate() {
        *slot = ptr(TrieNodeID::Leaf, i as u8, i as u32);
    }
    let id = TrieNodeID::Node4.to_u8();
    let mut dense = vec![set_compressed(id)];
    write_ptrs_to_bytes_compressed(id, &crowded, &mut dense).unwrap();
    assert_eq!(dense.len(), 25);
    let mut got = [TriePtr::default(); 4];
    ptrs_from_slice_into(id, &dense, &mut got).unwrap();
    assert_eq!(got, crowded);
    // a leaf has no list, a patch has none of its own, and what is no node has none at all
    write_ptrs_to_bytes_compressed(TrieNodeID::Leaf.to_u8(), &crowded, &mut dense).unwrap();
    assert_eq!(dense.len(), 25);
    for bad in [TrieNodeID::Patch.to_u8(), 99] {
        assert!(is_corruption(write_ptrs_to_bytes_compressed(
            bad, &crowded, &mut dense
        )));
    }
}

#[test]
fn path_round_trips() {
    let mut w = Vec::new();
    write_path_to_bytes(&[5, 6, 7], &mut w);
    assert_eq!(w, vec![3, 5, 6, 7]);
    let mut p = NodePath::default();
    assert_eq!(path_from_bytes_slice_into(&w, &mut p).unwrap(), 4);
    assert_eq!(p.as_slice(), &[5, 6, 7]);
    assert!(is_corruption(path_from_bytes_slice_into(&[33; 40], &mut p)));
    assert!(is_corruption(path_from_bytes_slice_into(&[3, 1], &mut p)));
    assert!(is_corruption(path_from_bytes_slice_into(&[], &mut p)));
}

// ---- nodes ----

#[test]
fn insert_leaves_a_filled_slot_as_it_is() {
    let first = TriePtr::new(1, 0x61, 10);
    let second = TriePtr::new(1, 0x61, 20);
    for mut n in [
        TrieNodeType::Node4(TrieNode4::new(&[])),
        TrieNodeType::Node16(TrieNode16::new(&[])),
        TrieNodeType::Node48(Box::new(TrieNode48::new(&[]))),
        TrieNodeType::Node256(Box::new(TrieNode256::new(&[]))),
    ] {
        assert!(n.insert(&first));
        assert!(!n.insert(&second));
        assert_eq!(n.walk(0x61), Some(first));
        assert!(n.replace(&second));
        assert_eq!(n.walk(0x61), Some(second));
    }
}

#[test]
fn node_children() {
    let mut n = TrieNode4::new(&[1, 2]);
    for c in 0..4u8 {
        assert!(n.insert(&ptr(TrieNodeID::Leaf, c, c as u32 + 1)));
    }
    assert!(!n.insert(&ptr(TrieNodeID::Leaf, 9, 9)), "no room");
    assert!(!n.insert(&ptr(TrieNodeID::Leaf, 2, 77)), "the slot is filled");
    assert_eq!(n.walk(2), Some(ptr(TrieNodeID::Leaf, 2, 3)));
    assert!(n.replace(&ptr(TrieNodeID::Leaf, 2, 77)));
    assert_eq!(n.walk(2), Some(ptr(TrieNodeID::Leaf, 2, 77)));
    assert_eq!(n.walk(8), None);
    assert!(!n.replace(&ptr(TrieNodeID::Leaf, 8, 1)));
    assert!(n.replace(&ptr(TrieNodeID::Leaf, 3, 5)));

    let mut n16 = TrieNode16::from_node4(&n);
    for c in 50..62u8 {
        assert!(n16.insert(&ptr(TrieNodeID::Leaf, c, c as u32)));
    }
    let mut n48 = TrieNode48::from_node16(&n16);
    for c in 100..132u8 {
        assert!(n48.insert(&ptr(TrieNodeID::Leaf, c, c as u32)));
    }
    assert!(!n48.insert(&ptr(TrieNodeID::Leaf, 200, 1)));
    let n256 = TrieNode256::from_node48(&n48);
    for c in 0..=255u8 {
        assert_eq!(n256.walk(c), n48.walk(c));
    }
    assert_eq!(n256.walk(2), Some(ptr(TrieNodeID::Leaf, 2, 77)));
    assert_eq!(n256.path().as_slice(), &[1, 2]);
    assert_eq!(
        TrieNode256::from_node4(&n).walk(3),
        Some(ptr(TrieNodeID::Leaf, 3, 5))
    );
}

fn sample_nodes() -> Vec<TrieNodeType> {
    let mut n4 = TrieNode4::new(&[1]);
    let mut n16 = TrieNode16::new(&[1, 2]);
    let mut n48 = TrieNode48::new(&[]);
    let mut n256 = TrieNode256::new(&[1, 2, 3, 4]);
    for c in [7u8, 200, 13] {
        let p = back(TrieNodeID::Node4, c, c as u32 * 3, 2);
        assert!(n4.insert(&p) && n16.insert(&p) && n48.insert(&p) && n256.insert(&p));
    }
    vec![
        TrieNodeType::Node4(n4),
        TrieNodeType::Node16(n16),
        TrieNodeType::Node48(Box::new(n48)),
        TrieNodeType::Node256(Box::new(n256)),
        TrieNodeType::Leaf(TrieLeaf::new(&[9, 9], &[5; 40])),
    ]
}

fn same_node(a: &TrieNodeType, b: &TrieNodeType) -> bool {
    let (mut x, mut y) = (Vec::new(), Vec::new());
    a.write_bytes(&mut x);
    b.write_bytes(&mut y);
    x == y
}

#[test]
fn node_round_trips() {
    for node in sample_nodes() {
        let mut full = Vec::new();
        node.write_bytes(&mut full);
        assert_eq!(full.len(), node.byte_len());
        let mut short = Vec::new();
        node.write_bytes_compressed(&mut short);
        assert_eq!(short.len(), node.byte_len_compressed());
        assert!(short.len() <= full.len());
        for bytes in [&full, &short] {
            let (got, n) = decode_nodetype_from_slice_at_head(bytes, node.id()).unwrap();
            assert_eq!(n, bytes.len());
            assert!(same_node(&got, &node));
            assert!(is_corruption(decode_nodetype_from_slice_at_head(
                &bytes[..bytes.len() - 1],
                node.id()
            )));
            let kind = TrieNodeID::from_u8(node.id()).unwrap();
            assert!(same_node(&decode_stable_node_bytes(bytes, kind).unwrap(), &node));
            let mut more = bytes.clone();
            more.push(0);
            assert!(is_corruption(decode_stable_node_bytes(&more, kind)));
        }
    }
    assert!(is_corruption(decode_nodetype_from_slice_at_head(&[6, 0], 6)));
}

#[test]
fn node_kinds_and_refs() {
    let nodes = sample_nodes();
    assert!(nodes[0].is_node4() && nodes[1].is_node16());
    assert!(nodes[2].is_node48() && nodes[3].is_node256() && nodes[4].is_leaf());
    assert_eq!(
        nodes.iter().map(|n| n.max_ptrs()).collect::<Vec<_>>(),
        vec![4, 16, 48, 256, 0]
    );
    for node in &nodes {
        let r = TrieNodeRef::from_node(node);
        assert_eq!(r.id(), node.id());
        assert_eq!(r.ptrs(), node.ptrs());
        assert_eq!(r.path_bytes(), node.path_bytes());
        assert_eq!(r.is_leaf(), node.is_leaf());
        assert_eq!(r.walk(200), node.walk(200));
        assert!(same_node(&r.to_owned_node(), node));
    }
    assert_eq!(
        TrieNodeRef::from_node(&nodes[4]).as_leaf().unwrap().path,
        &[9, 9]
    );
}

#[test]
fn copied_and_normalized_pointers() {
    let mut list = [
        TriePtr::default(),
        ptr(TrieNodeID::Leaf, 1, 10),
        back(TrieNodeID::Leaf, 2, 20, 7),
    ];
    let before = list;
    node_copy_update_ptrs(&mut list, 3);
    assert_eq!(list[0], before[0]);
    assert_eq!(list[1], back(TrieNodeID::Leaf, 1, 10, 3));
    assert_eq!(list[2], before[2]);
    node_normalize_ptrs(&mut list, 3);
    assert_eq!(list, before);
}

#[test]
fn transient_state() {
    let mut n = TrieNodeType::Node4(TrieNode4::new(&[]));
    let p = back(TrieNodeID::Node4, 2, 20, 7);
    n.set_cow_ptr(TrieCowPtr::new(StacksBlockId([8; 32]), p));
    n.set_patch_depth(3);
    n.set_last_patch_source(Some((4, p)));
    let cow = n.get_cow_ptr().unwrap();
    assert_eq!(cow.block_id::<StacksBlockId>(), StacksBlockId([8; 32]));
    assert_eq!(*cow.ptr(), p);
    let meta = TrieNodeTransientMeta::from_node(&n);
    let mut m = TrieNodeType::Node4(TrieNode4::new(&[]));
    meta.apply_to(&mut m);
    assert_eq!((m.patch_depth(), m.last_patch_source()), (3, Some((4, p))));
    let mut leaf = TrieNodeType::Leaf(TrieLeaf::empty());
    leaf.set_cow_ptr(TrieCowPtr::new(StacksBlockId([8; 32]), p));
    assert!(leaf.get_cow_ptr().is_none());
    n.set_path(NodePath::from_slice(&[4, 5]).unwrap());
    assert_eq!(n.path_bytes(), &[4, 5]);
    n.ptrs_mut()[1] = p;
    assert_eq!(n.walk(2), Some(p));
}

#[test]
fn leaf_messages() {
    let leaf = TrieLeaf::new(&[1, 2], &[6; 40]);
    let mut w = Vec::new();
    leaf.consensus_serialize(&mut w);
    assert_eq!(w[..6], [0, 0, 0, 2, 1, 2]);
    assert_eq!(w.len(), 46);
    let (got, n) = TrieLeaf::consensus_deserialize(&w).unwrap();
    assert_eq!(got, leaf);
    assert_eq!(n, 46);
    assert!(matches!(
        TrieLeaf::consensus_deserialize(&w[..3]),
        Err(CodecError::ReadError)
    ));
    assert!(matches!(
        TrieLeaf::consensus_deserialize(&w[..5]),
        Err(CodecError::DeserializeError(_))
    ));
    assert!(matches!(
        TrieLeaf::consensus_deserialize(&w[..45]),
        Err(CodecError::ReadError)
    ));
    assert!(matches!(
        TrieLeaf::consensus_deserialize(&[0, 0, 0, 33]),
        Err(CodecError::DeserializeError(_))
    ));
}

// ---- patches ----

#[test]
fn patch_round_trip() {
    let patch = TrieNodePatch {
        ptr: back(TrieNodeID::Node4, 0, 20, 7),
        ptr_diff: vec![ptr(TrieNodeID::Leaf, 1, 10), back(TrieNodeID::Leaf, 2, 20, 6)],
    };
    let mut w = Vec::new();
    patch.consensus_serialize(&mut w).unwrap();
    assert_eq!(w.len(), 1 + 10 + 1 + 6 + 10);
    assert_eq!(patch.size(), w.len());
    let (got, n) = TrieNodePatch::consensus_deserialize(&w).unwrap();
    assert_eq!(n, w.len());
    assert_eq!((got.ptr, &got.ptr_diff), (patch.ptr, &patch.ptr_diff));
    let loaded = TrieNodePatch::from_bytes(&w).unwrap();
    assert_eq!(loaded.ptr_diff, patch.ptr_diff);
    assert!(is_corruption(TrieNodePatch::from_slice(&w[..w.len() - 1])));
    assert!(is_corruption(TrieNodePatch::from_slice(&[2, 0, 0])));
    let none = TrieNodePatch {
        ptr: patch.ptr,
        ptr_diff: Vec::new(),
    };
    assert!(matches!(
        none.consensus_serialize(&mut w),
        Err(CodecError::SerializeError(_))
    ));
}

#[test]
fn patch_rebuilds_node() {
    let mut old = TrieNode4::new(&[1]);
    assert!(old.insert(&ptr(TrieNodeID::Leaf, 1, 10)));
    let base = back(TrieNodeID::Node4, 0, 36, 3);
    // the new node is a copy of the old one, with another child
    let mut new = old.clone();
    node_copy_update_ptrs(&mut new.ptrs, 3);
    assert!(new.insert(&ptr(TrieNodeID::Leaf, 2, 99)));
    let patch = TrieNodePatch::from_node4(base, &old, &new);
    assert_eq!(patch.ptr_diff, vec![ptr(TrieNodeID::Leaf, 2, 99)]);
    assert_eq!(
        TrieNodePatch::make_ptr_diff_for_test(&base, &old.ptrs, &new.ptrs),
        patch.ptr_diff
    );
    let same = TrieNodePatch::try_from_nodetype(
        base,
        &TrieNodeType::Node4(old.clone()),
        &TrieNodeType::Node4(new.clone()),
    )
    .unwrap();
    assert_eq!(same.ptr_diff, patch.ptr_diff);
    let mut copied = old.clone();
    node_copy_update_ptrs(&mut copied.ptrs, 3);
    assert!(
        TrieNodePatch::try_from_nodetype(
            base,
            &TrieNodeType::Node4(old.clone()),
            &TrieNodeType::Node4(copied)
        )
        .is_none(),
        "a mere copy needs no patch"
    );

    let mut rebuilt = old.clone();
    assert!(patch.apply_node4_in_place(&mut rebuilt, 4, 4));
    assert_eq!(rebuilt.ptrs, new.ptrs);
}

// ---- reading ----

#[test]
fn read_nodes() {
    let nodes = sample_nodes();
    let mut bytes = Vec::new();
    nodes[1].write_bytes(&mut bytes);
    let hash = TrieHash([3; 32]);
    let stable = ReadTrieNode::from_stable_bytes(
        BorrowedNodeBytes::new(TrieNodeID::Node16, &bytes),
        Some(hash),
    );
    let owned_bytes = ReadTrieNode::from_owned_bytes(
        OwnedNodeBytes::new(TrieNodeID::Node16, bytes.clone()),
        Some(hash),
    );
    let owned = ReadTrieNode::from_owned(nodes[1].clone(), Some(hash));
    let borrowed = ReadTrieNode::from_borrowed(TrieNodeRef::from_node(&nodes[1]), Some(hash));
    for read in [stable, owned_bytes, owned, borrowed] {
        assert_eq!(read.node_type(), Some(TrieNodeID::Node16));
        assert_eq!(read.node_type_u8(), TrieNodeID::Node16.to_u8());
        assert!(!read.is_leaf() && !read.is_node256());
        assert_eq!(read.path_bytes().unwrap(), vec![1, 2]);
        assert_eq!(read.walk(200).unwrap(), nodes[1].walk(200));
        assert_eq!(read.ptrs().unwrap(), nodes[1].ptrs().to_vec());
        assert!(read.as_leaf(&no_squashed()).unwrap().is_none());
        let (node, h) = read.with_patch_depth(1).into_owned_node().unwrap();
        assert!(same_node(&node, &nodes[1]));
        assert_eq!(h, Some(hash));
    }
    let broken =
        ReadTrieNode::from_stable_bytes(BorrowedNodeBytes::new(TrieNodeID::Node16, &[]), None);
    assert!(is_corruption(broken.decode()));
    let backing = BytesBacking::Borrowed(BorrowedNodeBytes::new(TrieNodeID::Node16, &bytes));
    assert_eq!(backing.bytes(), &bytes[..]);
    assert!(same_node(&backing.decode().unwrap(), &nodes[1]));
}

#[test]
fn read_items() {
    let patch = TrieNodePatch {
        ptr: back(TrieNodeID::Node4, 0, 20, 7),
        ptr_diff: vec![ptr(TrieNodeID::Leaf, 1, 10)],
    };
    let item = ReadTrieItem::from_patch(&patch, Some(TrieHash([3; 32])));
    assert!(item.is_patch());
    assert_eq!(item.as_patch().unwrap().ptr, patch.ptr);
    match item.into_node() {
        Err(Error::Patch(Some(h), p)) => {
            assert_eq!(h, TrieHash([3; 32]));
            assert_eq!(p.ptr_diff, patch.ptr_diff);
        }
        _ => panic!("a patch is no node"),
    }
    let leaf = ReadTrieNode::from_owned(sample_nodes().pop().unwrap(), None);
    let item = ReadTrieItem::from_node(leaf);
    assert!(!item.is_patch());
    assert!(item.into_node().unwrap().is_leaf());
}

// ---- the cursor ----

#[test]
fn cursor_steps() {
    let mut path = [0u8; 32];
    path[0] = 5;
    path[1] = 6;
    path[2] = 7;
    let path = TrieHash(path);
    let block = StacksBlockId([1; 32]);
    let root = ptr(TrieNodeID::Node256, 0, 36);

    let mut n = TrieNode4::new(&[5, 6]);
    assert!(n.insert(&ptr(TrieNodeID::Leaf, 7, 50)));
    let node = TrieNodeType::Node4(n);
    let mut c: TrieCursor<StacksBlockId> = TrieCursor::new(&path, root);
    assert_eq!(c.chr(), None);
    assert_eq!(
        c.walk_step(&node, &block),
        ReadTrieNodeCursorStep::Next(ptr(TrieNodeID::Leaf, 7, 50))
    );
    assert_eq!((c.tell(), c.ntell(), c.chr()), (3, 2, Some(7)));
    assert_eq!(c.ptr(), ptr(TrieNodeID::Leaf, 7, 50));
    assert!(!c.eop());
    let leaf = TrieNodeType::Leaf(TrieLeaf::new(&[0; 29], &[1; 40]));
    assert_eq!(
        c.walk_step(&leaf, &block),
        ReadTrieNodeCursorStep::EndOfPath { is_leaf: true }
    );
    assert!(c.eop());

    let mut c: TrieCursor<StacksBlockId> = TrieCursor::new(&path, root);
    let astray = TrieNodeType::Node4(TrieNode4::new(&[5, 9]));
    assert_eq!(c.walk_step(&astray, &block), ReadTrieNodeCursorStep::Diverged);
    c.repair_retarget(&astray, &root, &block);
    assert!(c.last_error.is_none());

    let mut c: TrieCursor<StacksBlockId> = TrieCursor::new(&path, root);
    let childless = TrieNodeType::Node4(TrieNode4::new(&[5]));
    assert_eq!(
        c.walk(&childless, &block).unwrap_err(),
        CursorError::ChrNotFound
    );

    let mut c: TrieCursor<StacksBlockId> = TrieCursor::new(&path, root);
    let b = back(TrieNodeID::Leaf, 5, 70, 3);
    let mut n = TrieNode4::new(&[]);
    assert!(n.insert(&b));
    let node = TrieNodeType::Node4(n);
    assert_eq!(
        c.walk_ref_step(&TrieNodeRef::from_node(&node), &block),
        ReadTrieNodeCursorStep::FollowBackptr(b)
    );
    c.promote_last_node_to_parked(ParkedNodeHandle::new(4));
    c.repair_backptr_step_backptr(&node, &b.from_backptr(), block);
    c.repair_backptr_finish(&b.from_backptr(), block);
    assert_eq!(c.ptr(), b.from_backptr());
    assert_eq!(c.block_hashes.len() + 1, c.node_ptrs.len());
    c.reset(&path, root);
    assert_eq!((c.tell(), c.ptr()), (0, root));
}

// ---- consensus ----

#[test]
fn consensus_encoding() {
    let mut n = TrieNode4::new(&[8]);
    assert!(n.insert(&ptr(TrieNodeID::Leaf, 7, 50)));
    assert!(n.insert(&back(TrieNodeID::Leaf, 9, 60, 2)));
    let node = TrieNodeType::Node4(n);
    let mut map = BlockHashes::new();
    map.insert(2, [0xaa; 32]);
    let bytes = to_consensus_bytes(&node, &map);
    assert_eq!(bytes.len(), 1 + 4 * 34 + 2);
    assert_eq!(bytes[0], TrieNodeID::Node4.to_u8());
    assert_eq!(bytes[1..3], [TrieNodeID::Leaf.to_u8(), 7]);
    assert_eq!(bytes[3..35], [0u8; 32], "no storage details of a child");
    assert_eq!(bytes[35..37], [set_backptr(TrieNodeID::Leaf.to_u8()), 9]);
    assert_eq!(bytes[37..69], [0xaau8; 32], "the block that a back-pointer names");
    assert_eq!(bytes[bytes.len() - 2..], [1, 8]);
    let mut again = Vec::new();
    write_consensus_bytes_ref(&TrieNodeRef::from_node(&node), &map, &mut again);
    assert_eq!(again, bytes);

    let hashes = [TrieHash([1; 32]), TrieHash([2; 32])];
    let mut all = bytes.clone();
    all.extend_from_slice(&[1; 32]);
    all.extend_from_slice(&[2; 32]);
    assert_eq!(get_node_hash(&node, &hashes, &map), TrieHash::from_data(&all));

    let leaf = TrieLeaf::new(&[1], &[2; 40]);
    let mut stored = Vec::new();
    leaf.write_bytes(&mut stored);
    assert_eq!(get_leaf_hash(&leaf), TrieHash::from_data(&stored));
}

// ---- the scanner ----

/// A block with a root at 36 that has a leaf and a back-pointer.
fn block_with_root(compressed: bool) -> (Vec<u8>, Vec<TriePtr>) {
    let mut block = vec![0u8; 36];
    let mut n = TrieNode256::new(&[]);
    // the leaf follows the root
    let far = back(TrieNodeID::Node4, 0x20, 777, 5);
    assert!(n.insert(&far));
    let mut near = ptr(TrieNodeID::Leaf, 0x10, 0);
    assert!(n.insert(&near));
    let len = if compressed {
        n.byte_len_compressed()
    } else {
        n.byte_len()
    };
    near.ptr = (36 + 32 + len) as u32;
    assert!(n.replace(&near));
    block.extend_from_slice(&[0xee; 32]);
    if compressed {
        TrieNodeType::Node256(Box::new(n)).write_bytes_compressed(&mut block);
    } else {
        TrieNodeType::Node256(Box::new(n)).write_bytes(&mut block);
    }
    assert_eq!(block.len(), near.ptr as usize);
    block.extend_from_slice(&[0xdd; 32]);
    TrieLeaf::new(&[1, 2], &[3; 40]).write_bytes(&mut block);
    (block, vec![near, far])
}

#[test]
fn scan_finds_all_pointers() {
    for compressed in [false, true] {
        let (block, ptrs) = block_with_root(compressed);
        let mut out: Vec<ScannedPtr> = Vec::new();
        scan_serialized_trie_ptr_fields(&block, 1000, &mut out).unwrap();
        assert_eq!(out.iter().map(|s| s.ptr).collect::<Vec<_>>(), ptrs);
        for s in &out {
            let at = (s.ptr_field_file_offset - 1000) as usize;
            assert_eq!(block[at..at + 4], s.ptr.ptr.to_be_bytes());
        }
        let mut events = Vec::new();
        scan_block_trie(&block, 1000, &mut events).unwrap();
        let visits: Vec<(u32, TrieNodeID)> = events
            .iter()
            .filter_map(|e| match e {
                ScanEvent::Node(v) => Some((v.block_offset, v.node_kind)),
                ScanEvent::Ptr(_) => None,
            })
            .collect();
        assert_eq!(
            visits,
            vec![(36, TrieNodeID::Node256), (ptrs[0].ptr, TrieNodeID::Leaf)]
        );
    }
}

#[test]
fn scan_rejects_broken_blocks() {
    let mut events = Vec::new();
    assert!(is_corruption(scan_block_trie(&[0; 35], 0, &mut events)));
    assert!(is_corruption(scan_block_trie(&[0; 36], 0, &mut events)));
    let (block, _) = block_with_root(false);
    assert!(is_corruption(scan_block_trie(&block[..200], 0, &mut events)));
    assert!(matches!(
        scan_block_trie(&block, u64::MAX - 10, &mut events),
        Err(Error::OverflowError)
    ));
    // a root that leads to itself
    let mut cyclic = vec![0u8; 36 + 32];
    let mut n = TrieNode4::new(&[]);
    assert!(n.insert(&ptr(TrieNodeID::Node4, 1, 36)));
    TrieNodeType::Node4(n).write_bytes(&mut cyclic);
    assert!(is_corruption(scan_block_trie(&cyclic, 0, &mut events)));
}

#[test]
fn scan_errors_tell_the_place() {
    let mut events = Vec::new();
    let message = |r: Result<(), Error>| r.unwrap_err().message();
    assert_eq!(
        message(scan_block_trie(&[0; 35], 0, &mut events)),
        "byte_scanner: block_bytes too short for blob header (35 < 36)"
    );
    assert_eq!(
        message(scan_block_trie(&[0; 36], 0, &mut events)),
        "byte_scanner: node body at 68 runs past EOF (len=36)"
    );
    assert_eq!(
        message(scan_block_trie(&[0x0e; 80], 0, &mut events)),
        "byte_scanner: invalid node ID 0x0e at offset 68"
    );
}

#[test]
fn a_scan_moves_with_the_file_base() {
    let mut n = TrieNode4::new(&[]);
    assert!(n.insert(&back(TrieNodeID::Leaf, 9, 60, 2)));
    let mut block = vec![0u8; 68];
    n.write_bytes(&mut block);
    let (mut here, mut there) = (Vec::new(), Vec::new());
    scan_block_trie(&block, 0, &mut here).unwrap();
    scan_block_trie(&block, 5000, &mut there).unwrap();
    assert_eq!(here.len(), there.len());
    for (a, b) in here.iter().zip(there.iter()) {
        match (a, b) {
            (ScanEvent::Ptr(a), ScanEvent::Ptr(b)) => {
                assert_eq!(a.ptr, b.ptr);
                assert_eq!(a.ptr_field_file_offset + 5000, b.ptr_field_file_offset);
            }
            _ => assert_eq!(a, b),
        }
    }
}

#[test]
fn a_pure_copy_needs_no_patch() {
    let mut old = TrieNode4::new(&[3]);
    assert!(old.insert(&ptr(TrieNodeID::Leaf, 1, 10)));
    assert!(old.insert(&back(TrieNodeID::Leaf, 2, 20, 4)));
    let mut new = old.clone();
    node_copy_update_ptrs(&mut new.ptrs, 8);
    let from = TriePtr::new_backptr(TrieNodeID::Node4.to_u8(), 0, 36, 8);
    assert!(TrieNodePatch::try_from_nodetype(
        from,
        &TrieNodeType::Node4(old),
        &TrieNodeType::Node4(new)
    )
    .is_none());
}

#[test]
fn a_patch_that_is_cut_short_is_refused() {
    let patch = TrieNodePatch {
        ptr: back(TrieNodeID::Node4, 0, 36, 8),
        ptr_diff: vec![ptr(TrieNodeID::Leaf, 1, 10), back(TrieNodeID::Leaf, 2, 20, 4)],
    };
    let mut w = Vec::new();
    patch.consensus_serialize(&mut w).unwrap();
    for k in 0..w.len() {
        assert!(TrieNodePatch::from_slice(&w[..k]).is_err());
    }
    assert!(TrieNodePatch::from_slice(&w).is_ok());
}

#[test]
fn equality_leaves_out_transient_state() {
    let cow = |mut n: TrieNodeType| {
        n.set_cow_ptr(TrieCowPtr::new(StacksBlockId([7; 32]), ptr(TrieNodeID::Node48, 0, 9)));
        n
    };
    let n48 = || TrieNodeType::Node48(Box::new(TrieNode48::new(&[1, 2])));
    let n256 = || TrieNodeType::Node256(Box::new(TrieNode256::new(&[1, 2])));
    assert_eq!(n48(), cow(n48()));
    assert_eq!(n256(), cow(n256()));
    assert_ne!(n48(), n256());
    assert_ne!(
        n48(),
        TrieNodeType::Node48(Box::new(TrieNode48::new(&[1, 3])))
    );
    let mut one = n256();
    assert!(one.insert(&ptr(TrieNodeID::Leaf, 5, 6)));
    assert_ne!(one, n256());
    let leaf = |d: u8| TrieLeaf::from_value(&[1], MARFValue([d; 40]));
    assert_eq!(leaf(1), leaf(1));
    assert_ne!(leaf(1), leaf(2));
}

#[test]
fn codec_messages_name_what_is_wrong() {
    let none = TrieNodePatch {
        ptr: ptr(TrieNodeID::Node4, 0, 20),
        ptr_diff: Vec::new(),
    };
    match none.consensus_serialize(&mut Vec::new()) {
        Err(CodecError::SerializeError(m)) => assert_eq!(
            m,
            "Cannot serialize TrieNodePatch with invalid ptrs len 0 (expected 1..=256)"
        ),
        _ => panic!("expected the patch to have no encoding"),
    }
    match TrieLeaf::consensus_deserialize(&[0, 0, 1, 0]) {
        Err(CodecError::DeserializeError(m)) => {
            assert_eq!(m, "TrieLeaf path length 256 exceeds maximum of 32")
        }
        _ => panic!("expected the path to be too long"),
    }
    for bytes in [&[][..], &[TrieNodeID::Patch.to_u8()][..], &[1, 2, 3][..]] {
        assert!(matches!(
            TrieNodePatch::consensus_deserialize(bytes),
            Err(CodecError::DeserializeError(_))
        ));
        match TrieNodePatch::from_bytes(bytes) {
            Err(Error::CorruptionError(m)) => {
                assert!(m.starts_with("Codec error: DeserializeError(\""))
            }
            _ => panic!("expected corruption"),
        }
    }
    match TrieLeaf::from_value(&[], MARFValue([0; 40])).load_from_slice(&[4; 80]) {
        Err(Error::CorruptionError(m)) => assert_eq!(m, "Leaf: bad ID 0x04"),
        _ => panic!("expected corruption"),
    }
}

#[test]
fn squashed_leaves_as_leaves() {
    let kind = TrieNodeID::LeafSquashed;
    let tip = TrieLeaf::from_value(&[8, 9], MARFValue([5; 40]));
    let codec = short_squashed();
    let long = [kind.to_u8(), 5, 6, 7];
    let borrowed = ReadTrieNode::from_stable_bytes(BorrowedNodeBytes::new(kind, &long), None);
    assert!(borrowed.is_leaf());
    assert_eq!(borrowed.as_leaf(&codec).unwrap(), Some(tip));
    let sq = borrowed.as_leaf_squashed_ref(&codec).unwrap().unwrap();
    assert_eq!(sq.chunk.tip_value, MARFValue([5; 40]));
    assert!(is_corruption(borrowed.as_leaf(&no_squashed())));
    assert!(is_corruption(borrowed.as_leaf_squashed_ref(&no_squashed())));
    // owned bytes hold the leaf and nothing else
    let exact = OwnedNodeBytes::new(kind, long[..2].to_vec());
    let exact = ReadTrieNode::from_owned_bytes(exact, None);
    assert_eq!(exact.as_leaf(&codec).unwrap(), Some(tip));
    let more = ReadTrieNode::from_owned_bytes(OwnedNodeBytes::new(kind, long.to_vec()), None);
    assert!(is_corruption(more.as_leaf(&codec)));
    assert!(is_corruption(more.as_leaf_squashed_ref(&codec)));
    // other nodes are no squashed leaves
    let plain = ReadTrieNode::from_owned(TrieNodeType::Leaf(tip), None);
    assert_eq!(plain.as_leaf(&codec).unwrap(), Some(tip));
    assert!(plain.as_leaf_squashed_ref(&codec).unwrap().is_none());
    let mut bytes = Vec::new();
    tip.write_bytes(&mut bytes);
    let stored = ReadTrieNode::from_stable_bytes(
        BorrowedNodeBytes::new(TrieNodeID::Leaf, &bytes),
        None,
    );
    assert!(stored.as_leaf_squashed_ref(&codec).unwrap().is_none());
    let broken = BorrowedNodeBytes::new(TrieNodeID::Leaf, &bytes[..9]);
    let broken = ReadTrieNode::from_stable_bytes(broken, None);
    assert!(is_corruption(broken.as_leaf_squashed_ref(&codec)));
}
