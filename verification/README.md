# shadowd

The block layer of the Shadowd file system, verified with Verus.

A disk is a sequence of 283-byte blocks. A leaf block keeps a four-byte
big-endian count and then up to 279 data bytes, each XOR-ed with a byte of a
key derived from the block's level, disk and number. A cursor names a position
in the tree of blocks: sixteen slots of 0 to 30, one per node it passes. On
disk it takes 47 bytes: the sixteen slots, one byte each, then 31 reserved
bytes written as zero and skipped on reading.

Only the leaf level of blocks is here: the branch blocks, which would hold the
31 children of a node, are left out.

- `src/` is the verified library: big-endian conversions
  (`helpers::convertions`), cursors (`algoritm::cursors`), the allocator's
  addressing and keys (`block::allocator_block`), the leaf block and its
  transfers (`block::base_sheet_shadowd_block`, `block::insert_helpers`) and
  the dispatcher's decision (`block::shadowd_dispatcher`).
- `app/` opens the fragment files, moves bytes between blocks and disk, and
  runs transfers on a Tokio runtime.
- `tests/` runs the library on concrete values.
