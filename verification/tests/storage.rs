use marf_index::consensus::get_leaf_hash;
use marf_index::error::Error;
use marf_index::hash::TrieHash;
use marf_index::history_blob::ChunkRef;
use marf_index::marf_walk::TrieLeafSquashed;
use marf_index::node::{TrieNode, TrieNode256, TrieNodeType};
use marf_index::node_id::TrieNodeID;
use marf_index::patch::TrieNodePatch;
use marf_index::path::NodePath;
use marf_index::ptr::TriePtr;
use marf_index::squashed::SquashedCodec;
use marf_index::trie_file::{
    get_node_hash, mmap_slice_at, parse_hash_from_bytes, read_hash_at, read_item_at_offset,
    read_node_type_at, read_node_type_id, read_trie_item, read_trie_item_borrowed,
    read_trie_item_from_slice, recompute_leaf_hash_at, stored_node_id_from_bytes, TrieIdOffsets,
    TrieItem, TRIE_OFFSETS_CACHE_MAX,
};
use marf_index::trie_ram::{
    blobs_path, export_step, is_memory_path, ExportStep, ExportedBlob, TrieFileRAM,
};
use marf_index::value::{MARFValue, TrieLeaf};
use marf_index::window::{get_node_body_max_byte_len, get_node_max_byte_len};

fn is_corruption<A>(r: Result<A, Error>) -> bool {
    matches!(r, Err(Error::CorruptionError(_)))
}

fn read(data: &[u8], n: usize, offset: u64) -> Result<Vec<u8>, Error> {
    let start = (offset as usize).min(data.len());
    let end = (start + n).min(data.len());
    Ok(data[start..end].to_vec())
}

fn leaf() -> TrieLeaf {
    TrieLeaf::new(&[1, 2, 3], &[7; 40])
}

/// A squashed leaf here is 300 bytes: the kind, then one byte over and over, which also makes up
/// the value at the end of the range.
fn codec() -> SquashedCodec<fn(&[u8]) -> Option<(TrieLeafSquashed, usize)>> {
    SquashedCodec {
        max_len: 300,
        decode: |bytes| {
            let body = bytes.get(1..300)?;
            if body.iter().any(|b| *b != body[0]) {
                return None;
            }
            let leaf = TrieLeafSquashed {
                path: NodePath::from_slice(&[1, 2, 3]).unwrap(),
                has_history: false,
                chunk: ChunkRef {
                    history_offset: 0,
                    history_byte_len: 0,
                    history_entry_count: 0,
                    tip_value: MARFValue([body[0]; 40]),
                },
            };
            Some((leaf, 300))
        },
    }
}

fn stored_squashed() -> Vec<u8> {
    let mut data = vec![7; 300];
    data[0] = TrieNodeID::LeafSquashed.to_u8();
    data
}

/// A wide node behind its hash, with something after it.
fn stored_node256() -> Vec<u8> {
    let mut n = TrieNode256::new(&[9]);
    for c in 0..200u8 {
        assert!(n.insert(&TriePtr::new(TrieNodeID::Leaf.to_u8(), c, c as u32 + 1)));
    }
    let mut data = vec![0xab; 32];
    TrieNodeType::Node256(Box::new(n)).write_bytes(&mut data);
    data.extend_from_slice(&[0; 100]);
    data
}

#[test]
fn offsets_cache_is_bounded() {
    let mut cache = TrieIdOffsets::new();
    for i in 0..TRIE_OFFSETS_CACHE_MAX as u32 {
        cache.insert(i, i as u64 * 2);
    }
    assert_eq!(cache.get(&0), Some(0));
    assert_eq!(cache.get(&65_535), Some(131_070));
    cache.insert(100_000, 5);
    assert_eq!(cache.get(&100_000), Some(5));
    assert_eq!(cache.get(&0), None, "a full cache is cleared as a whole");
    cache.clear();
    assert_eq!(cache.get(&100_000), None);
}

#[test]
fn offsets_are_looked_up_once() {
    let mut cache = TrieIdOffsets::default();
    assert!(matches!(
        cache.get_trie_offset(7, |_| Err(Error::NotFoundError)),
        Err(Error::NotFoundError)
    ));
    assert_eq!(cache.get_trie_offset(7, |_| Ok((70, 1))).unwrap(), 70);
    assert_eq!(
        cache
            .get_trie_offset(7, |_| panic!("it is cached"))
            .unwrap(),
        70
    );
}

#[test]
fn sizes_of_nodes() {
    assert_eq!(get_node_body_max_byte_len(TrieNodeID::Leaf.to_u8()).unwrap(), 74);
    assert_eq!(get_node_max_byte_len(TrieNodeID::Leaf.to_u8()).unwrap(), 106);
    assert_eq!(get_node_body_max_byte_len(TrieNodeID::Node256.to_u8()).unwrap(), 2627);
    assert!(is_corruption(get_node_body_max_byte_len(TrieNodeID::Empty.to_u8())));
    assert!(is_corruption(get_node_max_byte_len(63)));
    let full = TrieNodeType::Node256(Box::new(TrieNode256::new(&[1; 32])));
    assert!(full.byte_len() <= get_node_body_max_byte_len(full.id()).unwrap());
}

#[test]
fn items_from_bytes() {
    assert!(is_corruption(stored_node_id_from_bytes(&[])));
    assert!(is_corruption(stored_node_id_from_bytes(&[60])));
    assert_eq!(stored_node_id_from_bytes(&[0x41]).unwrap(), TrieNodeID::Leaf);
    assert!(is_corruption(parse_hash_from_bytes(&[1; 31])));
    assert_eq!(parse_hash_from_bytes(&[1; 40]).unwrap(), TrieHash([1; 32]));

    let mut bytes = vec![0xcd; 32];
    leaf().write_bytes(&mut bytes);
    match read_trie_item_from_slice(&bytes, false, &codec()).unwrap() {
        TrieItem::Node(TrieNodeType::Leaf(l), Some(h)) => {
            assert_eq!(l, leaf());
            assert_eq!(h, TrieHash([0xcd; 32]));
        }
        _ => panic!("expected a leaf"),
    }
    match read_trie_item_from_slice(&bytes[32..], true, &codec()).unwrap() {
        TrieItem::Node(TrieNodeType::Leaf(l), None) => assert_eq!(l, leaf()),
        _ => panic!("expected a leaf without its hash"),
    }
    let patch = TrieNodePatch {
        ptr: TriePtr::new_backptr(TrieNodeID::Node4.to_u8(), 0, 20, 7),
        ptr_diff: vec![TriePtr::new(TrieNodeID::Leaf.to_u8(), 1, 10)],
    };
    let mut bytes = vec![0xcd; 32];
    patch.consensus_serialize(&mut bytes).unwrap();
    match read_trie_item_from_slice(&bytes, false, &codec()).unwrap() {
        TrieItem::Patch(p, Some(_)) => assert_eq!(p.ptr_diff, patch.ptr_diff),
        _ => panic!("expected a patch"),
    }
    assert!(is_corruption(read_trie_item_from_slice(&bytes[..32], false, &codec())));
    assert!(
        is_corruption(read_trie_item_from_slice(&bytes[32..], true, &codec())),
        "a patch is no leaf"
    );
}

#[test]
fn stale_hints_read_more() {
    let data = stored_node256();
    let root = TriePtr::new(TrieNodeID::Node256.to_u8(), 0, 0);
    let stale = TriePtr::new(TrieNodeID::Node4.to_u8(), 0, 0);
    for hint in [root, stale] {
        let file = |n: usize, o: u64| read(&data, n, o);
        let unmapped = read_item_at_offset(None, &file, 0, &hint, false, &codec());
        let nothing = |n: usize, o: u64| read(&[], n, o);
        let mapped = read_item_at_offset(Some(&data), &nothing, 0, &hint, false, &codec());
        for item in [unmapped.unwrap(), mapped.unwrap()] {
            match item {
                TrieItem::Node(node, Some(h)) => {
                    assert!(node.is_node256());
                    assert_eq!(node.walk(199).unwrap().ptr(), 200);
                    assert_eq!(h, TrieHash([0xab; 32]));
                }
                _ => panic!("expected a node"),
            }
        }
    }
    assert!(is_corruption(read_item_at_offset(
        None,
        &|n, o| read(&data, n, o),
        data.len() as u64,
        &root,
        false,
        &codec()
    )));
    assert!(matches!(
        read_item_at_offset(None, &|_, _| Err(Error::NotFoundError), 0, &root, false, &codec()),
        Err(Error::NotFoundError)
    ));
    let unknown = TriePtr::new(60, 0, 0);
    assert!(is_corruption(read_item_at_offset(
        None,
        &|n, o| read(&data, n, o),
        0,
        &unknown,
        false,
        &codec()
    )));
}

#[test]
fn hashes_and_kinds() {
    let data = stored_node256();
    let file = |n: usize, o: u64| read(&data, n, o);
    assert_eq!(read_hash_at(None, &file, 0).unwrap(), TrieHash([0xab; 32]));
    assert_eq!(read_hash_at(Some(&data), &file, 0).unwrap(), TrieHash([0xab; 32]));
    let near_end = data.len() as u64 - 5;
    assert!(is_corruption(read_hash_at(None, &file, near_end)));
    assert_eq!(
        read_node_type_at(None, &file, 0).unwrap(),
        (TrieNodeID::Node256, TrieHash([0xab; 32]))
    );
    assert!(is_corruption(read_node_type_at(None, &file, near_end)));
    let root = TriePtr::new(TrieNodeID::Node256.to_u8(), 0, 0);
    assert_eq!(
        get_node_hash(None, &file, 0, &root, true, &codec()).unwrap(),
        TrieHash([0xab; 32])
    );
    assert_eq!(
        read_node_type_id(Some(&data), &file, 0, &root, true, &codec()).unwrap(),
        (TrieNodeID::Node256, TrieHash([0xab; 32]))
    );
    assert_eq!(mmap_slice_at(Some(&[1, 2, 3]), 1), Some(&[2u8, 3][..]));
    assert_eq!(mmap_slice_at(Some(&[1, 2, 3]), 4), None);
    assert_eq!(mmap_slice_at(None, 0), None);
}

#[test]
fn leaves_without_hashes_are_hashed_anew() {
    let mut data = vec![0u8; 10];
    leaf().write_bytes(&mut data);
    data.extend_from_slice(&[0; 50]);
    let file = |n: usize, o: u64| read(&data, n, o);
    let hash = get_leaf_hash(&leaf());
    let id = TrieNodeID::Leaf.to_u8();
    assert_eq!(recompute_leaf_hash_at(None, &file, 10, id, &codec()).unwrap(), hash);
    assert_eq!(
        recompute_leaf_hash_at(Some(&data[10..]), &file, 10, id, &codec()).unwrap(),
        hash
    );
    let p = TriePtr::new(id, 0, 4);
    assert_eq!(get_node_hash(None, &file, 6, &p, true, &codec()).unwrap(), hash);
    assert_eq!(
        read_node_type_id(None, &file, 6, &p, true, &codec()).unwrap(),
        (TrieNodeID::Leaf, hash)
    );
    match read_trie_item(None, &file, 6, &p, true, &codec()).unwrap() {
        TrieItem::Node(node, None) => assert!(node.is_leaf()),
        _ => panic!("expected a leaf without its hash"),
    }
    let mut other = Vec::new();
    TrieNodeType::Node256(Box::new(TrieNode256::new(&[]))).write_bytes(&mut other);
    assert!(is_corruption(recompute_leaf_hash_at(Some(&other), &file, 0, id, &codec())));
    assert!(is_corruption(recompute_leaf_hash_at(None, &|_, _| Ok(Vec::new()), 0, id, &codec())));
}

#[test]
fn squashed_leaves_are_read_and_hashed() {
    // it stands where a plain leaf is expected, which takes fewer bytes
    let mut data = vec![0xcd; 32];
    data.extend_from_slice(&stored_squashed());
    data.extend_from_slice(&[0; 20]);
    let file = |n: usize, o: u64| read(&data, n, o);
    let hash = get_leaf_hash(&leaf());
    for id in [TrieNodeID::Leaf, TrieNodeID::LeafSquashed] {
        let bare = TriePtr::new(id.to_u8(), 0, 32);
        for map in [None, Some(&data[..])] {
            assert_eq!(get_node_hash(map, &file, 0, &bare, true, &codec()).unwrap(), hash);
            assert_eq!(
                read_node_type_id(map, &file, 0, &bare, true, &codec()).unwrap(),
                (TrieNodeID::LeafSquashed, hash)
            );
            match read_trie_item(map, &file, 0, &bare, true, &codec()).unwrap() {
                TrieItem::Squashed(l, None) => assert_eq!(l.chunk.tip_value, leaf().data),
                _ => panic!("expected a squashed leaf without its hash"),
            }
            let hashed = TriePtr::new(id.to_u8(), 0, 0);
            match read_trie_item(map, &file, 0, &hashed, false, &codec()).unwrap() {
                TrieItem::Squashed(l, Some(h)) => {
                    assert_eq!(l.chunk.tip_value, leaf().data);
                    assert_eq!(h, TrieHash([0xcd; 32]));
                }
                _ => panic!("expected a squashed leaf"),
            }
        }
    }
    let short = stored_squashed();
    let id = TrieNodeID::LeafSquashed.to_u8();
    assert!(is_corruption(recompute_leaf_hash_at(
        Some(&short[..299]),
        &file,
        0,
        id,
        &codec()
    )));
    assert!(is_corruption(get_node_body_max_byte_len(id)));
    assert_eq!(codec().body_max_byte_len(id).unwrap(), 300);
    assert_eq!(codec().body_max_byte_len(TrieNodeID::Leaf.to_u8()).unwrap(), 74);
    assert!(is_corruption(codec().body_max_byte_len(TrieNodeID::Empty.to_u8())));
}

#[test]
fn borrowed_nodes() {
    let data = stored_node256();
    let root = TriePtr::new(TrieNodeID::Node256.to_u8(), 0, 0);
    assert!(read_trie_item_borrowed(None, 0, &root, false)
        .unwrap()
        .is_none());
    let node = read_trie_item_borrowed(Some(&data), 0, &root, false)
        .unwrap()
        .unwrap();
    assert_eq!(node.hash, Some(TrieHash([0xab; 32])));
    assert_eq!(node.walk(10).unwrap().unwrap().ptr(), 11);
    assert!(is_corruption(read_trie_item_borrowed(
        Some(&data[..20]),
        0,
        &root,
        false
    )));
    let mut patch = vec![0u8; 32];
    patch.push(TrieNodeID::Patch.to_u8());
    assert!(read_trie_item_borrowed(Some(&patch), 0, &root, false)
        .unwrap()
        .is_none());
    let mut free = Vec::new();
    leaf().write_bytes(&mut free);
    let p = TriePtr::new(TrieNodeID::Leaf.to_u8(), 0, 0);
    let node = read_trie_item_borrowed(Some(&free), 0, &p, true)
        .unwrap()
        .unwrap();
    assert!(node.hash.is_none() && node.is_leaf());
}

#[test]
fn paths_of_storage() {
    assert!(is_memory_path(":memory:"));
    assert!(!is_memory_path(":memory"));
    assert!(!is_memory_path(":memorY:"));
    assert_eq!(blobs_path("a/b.sqlite"), "a/b.sqlite.blobs");
    assert_eq!(TrieFileRAM::new().get_path(), ":memory:");
}

#[test]
fn memory_storage() {
    let mut f = TrieFileRAM::new();
    assert_eq!(f.append_trie_blob(0, &[1, 2, 3]), 0);
    assert_eq!(f.append_trie_blob(5, &[4]), 5);
    assert_eq!(f.data, vec![1, 2, 3, 0, 0, 4]);
    let mut buf = [9u8; 3];
    assert_eq!(f.read_bytes_at(&mut buf, 4).unwrap(), 2);
    assert_eq!(buf, [0, 4, 9]);
    assert_eq!(f.read_bytes_at(&mut buf, 6).unwrap(), 0);
    assert!(matches!(f.read_bytes_at(&mut buf, 7), Err(Error::NotFoundError)));
    assert_eq!(f.read_blob_range(1, 2).unwrap(), vec![2, 3]);
    assert_eq!(f.read_blob_range(4, 100).unwrap(), vec![0, 4]);
    assert!(matches!(f.read_blob_range(7, 1), Err(Error::NotFoundError)));

    f.trie_offsets.insert(1, 2);
    f.pwrite_blob_chunk(&[7, 7], 1);
    assert_eq!(f.data, vec![1, 7, 7, 0, 0, 4]);
    assert_eq!(f.trie_offsets.get(&1), Some(2));
    f.finish_blob_write(None);
    assert_eq!((f.data.len(), f.trie_offsets.get(&1)), (6, None));
    f.finish_blob_write(Some(4));
    assert_eq!(f.data, vec![1, 7, 7, 0]);
    f.trie_offsets.insert(1, 2);
    f.write_blob_at_and_truncate(&[8], 1);
    assert_eq!(f.data, vec![1, 8]);
    assert_eq!(f.trie_offsets.get(&1), None);
    f.trie_offsets.insert(1, 2);
    f.remap_and_invalidate();
    assert_eq!(f.trie_offsets.get(&1), None);
}

#[test]
fn export_copies_confirmed_blocks() {
    let mut f = TrieFileRAM::new();
    f.append_trie_blob(0, &[0xff]);
    let status = |id: u32| match id {
        0 => Err(Error::NotFoundError),
        2 => Ok(true),
        _ => Ok(false),
    };
    let blob = |id: u32| Ok(vec![id as u8; id as usize]);
    let mut rows = Vec::new();
    f.export_trie_blobs(3, &status, &blob, &mut rows).unwrap();
    assert_eq!(f.data, vec![0xff, 1, 3, 3, 3]);
    assert_eq!(
        rows,
        vec![
            ExportedBlob {
                block_id: 1,
                offset: 1,
                length: 1
            },
            ExportedBlob {
                block_id: 3,
                offset: 2,
                length: 3
            },
        ]
    );
    for row in &rows {
        assert_eq!(
            f.read_blob_range(row.offset, row.length).unwrap(),
            blob(row.block_id).unwrap()
        );
    }
}

#[test]
fn export_passes_errors_on() {
    let mut f = TrieFileRAM::new();
    let mut rows = Vec::new();
    assert!(is_corruption(f.export_trie_blobs(
        3,
        &|_| Err(Error::CorruptionError("x".to_string())),
        &|_| Ok(Vec::new()),
        &mut rows
    )));
    assert!(matches!(
        f.export_trie_blobs(3, &|_| Ok(false), &|_| Err(Error::BadSeekValue), &mut rows),
        Err(Error::BadSeekValue)
    ));
    assert!(rows.is_empty());
    assert_eq!(export_step(Ok(true)).unwrap(), ExportStep::Skip);
    assert_eq!(export_step(Ok(false)).unwrap(), ExportStep::Copy);
    assert_eq!(export_step(Err(Error::NotFoundError)).unwrap(), ExportStep::Skip);
    assert!(matches!(
        export_step(Err(Error::BadSeekValue)),
        Err(Error::BadSeekValue)
    ));
}
