# mynotes

The text-editing core of a notes editor, written in Verus: the library's operations in
`src/` carry contracts that Verus proves (a few small helpers and constructors carry none).

## Layout

- `src/` — the verified library.
  - `measure.rs` — measure models (pairs of naturals), their sums and orders.
  - `btree.rs` — an arena-allocated B-Tree that routes by a cumulative measure; insertion
    and range deletion with splitting, borrowing and merging of nodes.
  - `leaf_delete.rs` — deleting a range from one leaf.
  - `atoms.rs` — the atoms (contents) of a sequence of items, and where an insertion into
    a leaf lands among them.
  - `in_order.rs` — the in-order view of a tree (its items from left to right), the
    traversal that lists them, and the lookups by position.
  - `piece_table.rs` — pieces of two buffers kept in the tree, by document offset.
  - `line_tracker.rs` — chunks of bytes with their newline positions kept in the tree,
    converting between byte offsets and line numbers.
  - `line_ending.rs` — counting and choosing line endings (`memchr` finds the bytes).
  - `byte_window.rs` — exact and clamped windows into a byte buffer.
  - `object_pool.rs`, `pool_node.rs` — an object pool and the pooled tree nodes.
  - `cursor.rs`, `history.rs` — cursors with selections, and undo/redo stacks.
  - `text_buffer.rs` — the byte records of the change journal.
- `tests/` — tests of the library.
- `app/` — a command-line front end: memory-mapped files, swap files, background saving,
  the application directories, and a Graphviz rendering of a tree.
