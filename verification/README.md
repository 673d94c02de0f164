# forgefs

A content-addressed store for agents that work on one tree at the same time:
immutable objects named by the BLAKE3 digest of their bytes, a catalog of refs and
sessions over them, copy-on-write edits, and three-way merges that keep every side
of a conflict.

`src/` is the library. Every function states in its contract what it returns and
when it fails, and Verus proves it.

- Objects: `bytes`, `text`, `types`, `cbor`, `scan`, `fields`, `items`, `object`,
  `tree`, `commit`, `contribution`, `conflict`, `snapshot`, `provenance`. A value is
  written as one byte string, and a decoder accepts nothing else; only a conflict may
  leave out what it does not hold. What a decoder says of bytes that it refuses is the
  first fault that reading them in order meets: `scan` and `fields` state which.
- Storage: `hash`, `objectstore`, `memory`, `cache`, `store`, `barrier`, `publish`.
  What a plane holds is a map from ids to bytes; a finished publication has proved
  every object it owed.
- Trees: `overlay`, `paths`, `textmap`, `order`, `renames`, `merge`, `intro`, `ns`.
- History: `graph`, `ancestry`, `idmap`.
- Catalog: `tables`, `rows`, `names`, `refs`, `catalog`, `history`, `schema`, `audit`,
  `ledger`. `ledger` holds the laws that relate the operations to each other.
- Wire and counters: `protocol`, `metrics`.

Laws that relate several functions are public proof functions beside them.

`app/` is ordinary Rust around the library: the object directory, the SQLite catalog
and the serde forms of the wire types. It performs the effects and lets the library
decide.

What is trusted rather than proved stands in `hash` (BLAKE3), `cache` (the LRU
cache), `names` (ULIDs) and `text` (UTF-8 and quoting), each item with a comment
that says what is claimed of the call it makes.
