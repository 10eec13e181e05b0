# terax_index

The symbol index of a TypeScript project, verified with Verus.

- `src/symbols.rs`, `src/syntax.rs`: the declarations a source file holds, read from
  tree-sitter's syntax tree in pre-order.
- `src/store.rs`, `src/listing.rs`: the in-memory index, files kept in path order, with
  queries, status and snapshots.
- `src/search.rs`: ranking symbol names against a query with nucleo-matcher's score.
- `src/persist.rs`: the snapshot types and the checked frame of a cache file.
- `src/project.rs`: which files are indexed, which directories are skipped, when a cached
  entry stands in for a fresh parse, how a re-read file updates the index, how often
  progress is reported, and the name of a project's cache file.
- `src/watch.rs`: the watcher's debounce: when a batch of changes closes and which of
  its paths are applied.
- `src/text.rs`: character-sequence order, text equality, white space.
- `app/`: file system, cache file, watcher and command layer around the library.
