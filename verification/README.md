# photondb

The index of a key-value store: a tree of pages that grow by deltas, split, and are consolidated,
while readers and writers go on.

The library in `src/` holds the decisions and the algorithms, and states and proves what they do.
It does no input or output of its own. Every operation takes turns with a page store: it asks for
an action, and the next step is handed the event that came of it.

- `page`, `bytes`: pages, their headers, keys, values and the order of keys.
- `lookup`, `merge`: searching and merging the contents of pages.
- `search`, `get`, `write`, `init`, `iter`: the operations on a tree.
- `split`, `reconcile`, `consolidate`, `restructure`: how a tree keeps its shape.
- `tree`, `note`, `perf`: the shared state of a tree, its counters and its timings.
- `laws`: what holds of the library as a whole. `laws/history.rs` states that a reader gets what
  the last write of a key has stored, whatever else has happened to the pages. `laws/reading.rs`,
  `writing.rs`, `iterating.rs`, `splitting.rs`, `reconciling.rs` and `consolidating.rs` state it of
  whole operations, from their start to their end, while the tree changes under them.

The laws on reads hold under two conditions on how the tree is used. The sequence numbers of the
writes of one key do not fall: no version of the key that is there has a greater number than the
write (`is_newest`). And consolidations respect the readers: the safe sequence number that a
consolidation goes by is no greater than that of a reader who is still there (`is_safe`).

`app/` runs the operations over an asynchronous page store; `tests/` runs them over one in memory.
