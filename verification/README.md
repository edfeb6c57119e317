# marf_index

A verified index for a Merklized adaptive-radix forest (MARF): one trie per block, sharing nodes
with the tries of its ancestors by back-pointers.

`src/` is the library. Every public function in it carries a contract that Verus proves.

- Encodings: `bytes`, `text`, `node_id`, `ptr`, `path`, `value`, `bits`, `model`, `node`,
  `node_ref`, `patch`, `leaf_codec`, `consensus`, `read`, `window`
- Walking and writing: `cursor`, `marf_walk`, `marf_below`, `marf_leaves`, `marf_cow`,
  `marf_heights`, `marf`
- Trie files: `trie_file`, `trie_ram`, `byte_scanner`, `squashed`
- Squash history: `history_blob`, `history_names`, `history_reconcile`
- Hot zone: `hot_file`, `reader_fence`, `hot_reclaim`, `orphan_closure`, `hot_sweep`
- Laws that span modules: `marf_law`, `patch_law`, `scan_law`; others stand beside what they are
  about, under names that begin with `law_`

One function is trusted: SHA-512/256, from the `sha2` crate, in `hash`.

`app/` puts files, memory maps, SQLite and threads around the library. `tests/` runs it.
