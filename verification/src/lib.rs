//! Merklized adaptive-radix forest index: node and pointer encodings, cursor walks, block
//! scans, squash history blobs, and the reclaiming of hot trie files.

pub mod bits;
pub mod block_scan_law;
pub mod byte_scanner;
pub mod bytes;
pub mod consensus;
pub mod cow_law;
pub mod cursor;
pub mod error;
pub mod hash;
pub mod height_law;
pub mod history_blob;
pub mod history_names;
pub mod history_reconcile;
pub mod hot_file;
pub mod hot_reclaim;
pub mod hot_sweep;
pub mod layout_law;
pub mod leaf_codec;
pub mod leaves_law;
pub mod list_law;
pub mod lookup_law;
pub mod marf;
pub mod marf_below;
pub mod marf_cow;
pub mod marf_heights;
pub mod marf_law;
pub mod marf_leaves;
pub mod marf_walk;
pub mod model;
pub mod node;
pub mod node_id;
pub mod node_ref;
pub mod orphan_closure;
pub mod patch;
pub mod patch_law;
pub mod path;
pub mod ptr;
pub mod read;
pub mod reader_fence;
pub mod result_law;
pub mod scan_law;
pub mod squashed;
pub mod sweep_law;
pub mod text;
pub mod text_law;
pub mod trie_file;
pub mod trie_ram;
pub mod value;
pub mod walk_law;
pub mod window;
pub mod write_law;
