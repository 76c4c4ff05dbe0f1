# textio

A piece table for text editing, verified with Verus.

The document is the in-order concatenation of pieces, each a byte range of the
original text or of an append-only buffer of inserted text. Pieces live in an
arena of nodes that forms a red-black tree ordered by document position; every
node caches the length of its subtree so that an offset is found in logarithmic
time.

## Layout

- `src/piece_tree.rs`: the public `PieceTree` (new, insert, delete, get_text,
  the metadata queries) and the laws stated over its view.
- `src/lengths.rs`: arithmetic on the sequence of piece lengths: prefix sums,
  where pieces start, and what is left of each piece when a byte range goes.
- `src/node.rs`: arena nodes and the public `NodeInfo` snapshot.
- `src/shape.rs`: the ghost model of the tree (in-order sequence of slots,
  subtree intervals, black heights) and the structural, length and colour rules.
- `src/text.rs`: the document as a function of the pieces, and UTF-8 facts.
- `src/rbtree.rs`, `src/rotate.rs`, `src/nav.rs`: cached lengths, rotations,
  searches.
- `src/insert.rs`, `src/fix_insert.rs`, `src/insert_tree.rs`: insertion of a
  piece and the red-black repair after it.
- `src/delete.rs`, `src/fix_delete.rs`, `src/range_delete.rs`: removal of a
  node, the red-black repair after it, and deletion of a byte range.
- `src/inspect.rs`, `src/validate.rs`, `src/report.rs`: node counts, heights,
  metadata walks, the validation of every invariant and the textual dump.

Every public operation requires and preserves the tree invariant `wf`; `insert`
and `delete` state the resulting document and the resulting piece lengths
exactly, bound how the black height moves, leave the tree untouched when they
change nothing, and keep every piece valid UTF-8 when they cut the text at
character boundaries.
