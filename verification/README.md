# taggu

A media library whose items (directories and media files) take their metadata
from YAML files: a file inside a directory speaks of the directory itself, a
file beside items speaks of those items, either as a sequence of blocks in item
order or as a mapping from item names to blocks.  A field of an item can be
looked up in the item's own metadata, inherited from its nearest ancestor, or
gathered from its descendants.

Layout:

- `src/` — the library, verified with Verus.  It works on a snapshot of a
  directory tree (`fs`), with paths held as strings (`path`); `library` finds
  the metadata files of an item and the items of a metadata file, `lookup`
  answers field lookups, `cacher` keeps what metadata files say, `yaml`,
  `plexer` and `metadata` read and match up the metadata.
- `tests/` — tests of the library on sample trees built in memory.
- `app/` — a small program that reads a directory tree from disk into a
  snapshot and prints the metadata files of an item.
