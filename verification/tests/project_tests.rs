use terax_index::persist::{PersistedFile, PersistedIndex};
use terax_index::project::{
    apply_change, cache_file_name, query_within_bounds, reconcile_file, record_source,
    index_status, is_indexable, is_pruned_dir_name, plan_reconcile, progress_due, query_symbols,
    CachedFiles,
};
use terax_index::store::IndexStore;
use terax_index::symbols::{Symbol, SymbolKind};

fn sym(name: &str) -> Symbol {
    Symbol { name: name.to_string(), kind: SymbolKind::Function, start_line: 1, end_line: 1 }
}

#[test]
fn is_indexable_matches_only_typescript_non_jsx() {
    assert!(is_indexable("a.ts"));
    assert!(is_indexable("a.mts"));
    assert!(is_indexable("a.cts"));
    assert!(!is_indexable("a.tsx"));
    assert!(!is_indexable("a.js"));
    assert!(!is_indexable("a.json"));
    assert!(!is_indexable("README"));
}

#[test]
fn is_indexable_looks_at_the_last_component_only() {
    assert!(is_indexable("/proj/src/deep/file.ts"));
    assert!(!is_indexable("/proj/dir.ts/file"));
    assert!(!is_indexable(".ts"));
    assert!(!is_indexable("a.TS"));
}

#[test]
fn pruned_directories() {
    for name in ["node_modules", ".git", "target", "dist", "build", ".next", ".turbo", ".cache", ".venv", "__pycache__"] {
        assert!(is_pruned_dir_name(name), "{name}");
    }
    assert!(!is_pruned_dir_name("src"));
    assert!(!is_pruned_dir_name("node_module"));
    assert!(!is_pruned_dir_name("Target"));
}

#[test]
fn progress_is_due_at_the_end_and_every_fifty() {
    assert!(progress_due(10, 10, 9));
    assert!(!progress_due(49, 100, 0));
    assert!(progress_due(50, 100, 0));
    assert!(!progress_due(99, 100, 50));
    assert!(progress_due(100, 100, 50));
}

#[test]
fn query_symbols_defaults_to_fifty_and_caps_at_five_hundred() {
    let mut store = IndexStore::default();
    let many: Vec<Symbol> = (0..600).map(|i| sym(&format!("name{i}"))).collect();
    store.replace_file("a.ts".to_string(), 0, many);
    assert_eq!(query_symbols("", None, &store).len(), 50);
    assert_eq!(query_symbols("", Some(7), &store).len(), 7);
    assert_eq!(query_symbols("", Some(10_000), &store).len(), 500);
    assert_eq!(index_status(&store).symbol_count, 600);
}

#[test]
fn reconcile_cache_hands_out_fresh_entries_once() {
    let loaded = PersistedIndex {
        version: 1,
        root: "/root".to_string(),
        files: vec![
            PersistedFile { path: "/root/keep.ts".to_string(), mtime_ms: 500, symbols: vec![sym("SENTINEL_FROM_CACHE")] },
            PersistedFile { path: "/root/change.ts".to_string(), mtime_ms: 0, symbols: vec![sym("before")] },
            PersistedFile { path: "/root/gone.ts".to_string(), mtime_ms: 0, symbols: vec![sym("deleted")] },
        ],
    };
    let mut cache = plan_reconcile(Some(loaded), "/root").expect("same root");
    let kept = cache.take_if_fresh("/root/keep.ts", Some(500)).expect("unchanged file is kept");
    assert_eq!(kept.symbols[0].name, "SENTINEL_FROM_CACHE");
    assert_eq!(kept.mtime_ms, 500);
    assert!(cache.take_if_fresh("/root/change.ts", Some(10)).is_none());
    assert!(cache.take_if_fresh("/root/new.ts", Some(10)).is_none());
    // An entry is handed out once only.
    assert!(cache.take_if_fresh("/root/keep.ts", Some(0)).is_none());
}

#[test]
fn plan_reconcile_needs_a_snapshot_of_the_same_root() {
    let snap = PersistedIndex { version: 1, root: "/a".to_string(), files: vec![] };
    assert!(plan_reconcile(Some(snap.clone()), "/b").is_none());
    assert!(plan_reconcile(None, "/a").is_none());
    assert!(plan_reconcile(Some(snap), "/a").is_some());
}

#[test]
fn cached_files_keep_the_last_entry_of_a_path() {
    let mut cache = CachedFiles::new(vec![
        PersistedFile { path: "x.ts".to_string(), mtime_ms: 1, symbols: vec![] },
        PersistedFile { path: "x.ts".to_string(), mtime_ms: 9, symbols: vec![sym("late")] },
    ]);
    let got = cache.take_if_fresh("x.ts", Some(5)).expect("the later entry is fresh");
    assert_eq!(got.mtime_ms, 9);
    assert_eq!(got.symbols[0].name, "late");
}

#[test]
fn apply_change_upserts_and_removes() {
    let mut store = IndexStore::default();
    apply_change(&mut store, "/p/a.ts", "a.ts".to_string(), Some((Some(5), "function one() {}\n".to_string())));
    assert_eq!(store.query("one", 10).len(), 1);
    apply_change(&mut store, "/p/a.ts", "a.ts".to_string(), Some((Some(6), "function two() {}\n".to_string())));
    assert!(store.query("one", 10).is_empty());
    assert_eq!(store.query("two", 10).len(), 1);
    assert_eq!(store.snapshot().files[0].mtime_ms, 6);
    apply_change(&mut store, "/p/a.ts", "a.ts".to_string(), None);
    assert_eq!(store.status().file_count, 0);
}

#[test]
fn apply_change_ignores_files_the_index_does_not_parse() {
    let mut store = IndexStore::default();
    store.replace_file("note.txt".to_string(), 1, vec![sym("kept")]);
    apply_change(&mut store, "/p/note.txt", "note.txt".to_string(), None);
    apply_change(&mut store, "/p/x.js", "x.js".to_string(), Some((Some(1), "function f() {}".to_string())));
    assert_eq!(store.status().file_count, 1);
}

#[test]
fn unknown_mtime_is_recorded_as_zero() {
    let mut store = IndexStore::default();
    record_source(&mut store, "a.ts".to_string(), None, "class A {}\n");
    let snap = store.snapshot();
    assert_eq!(snap.files[0].mtime_ms, 0);
    assert_eq!(snap.files[0].symbols[0].name, "A");
    record_source(&mut store, "a.ts".to_string(), Some(77), "");
    assert_eq!(store.snapshot().files[0].mtime_ms, 77);
    assert_eq!(store.status().symbol_count, 0);
}

#[test]
fn reconcile_file_reuses_fresh_entries_and_reparses_the_rest() {
    let mut cache = CachedFiles::new(vec![
        PersistedFile { path: "keep.ts".to_string(), mtime_ms: 500, symbols: vec![sym("SENTINEL")] },
        PersistedFile { path: "old.ts".to_string(), mtime_ms: 100, symbols: vec![sym("stale")] },
        PersistedFile { path: "unknown.ts".to_string(), mtime_ms: 900, symbols: vec![sym("maybe")] },
    ]);
    let mut store = IndexStore::default();
    assert!(reconcile_file(&mut cache, &mut store, "keep.ts".to_string(), Some(500)));
    assert!(!reconcile_file(&mut cache, &mut store, "old.ts".to_string(), Some(200)));
    // A file whose time cannot be read counts as newer.
    assert!(!reconcile_file(&mut cache, &mut store, "unknown.ts".to_string(), None));
    assert!(!reconcile_file(&mut cache, &mut store, "new.ts".to_string(), Some(1)));
    assert_eq!(store.status().file_count, 1);
    assert_eq!(store.query("SENTINEL", 10).len(), 1);
}

#[test]
fn cache_file_name_is_root_name_crc_hex_and_extension() {
    let name = cache_file_name("/home/me/proj");
    let expected = format!("proj-{:08x}.kenidx", crc32fast::hash(b"/home/me/proj"));
    assert_eq!(name, expected);
    let bare = cache_file_name("/");
    assert_eq!(bare, format!("root-{:08x}.kenidx", crc32fast::hash(b"/")));
}

#[test]
fn query_bounds_count_spaces_not_characters() {
    let long_word = "x".repeat(70_000);
    assert!(query_within_bounds(&long_word));
    assert!(query_within_bounds(&" ".repeat(200_000)));
    assert!(query_within_bounds(&"a ".repeat(65_536)));
    assert!(!query_within_bounds(&"a ".repeat(65_537)));
    let mut store = IndexStore::default();
    store.replace_file("a.ts".to_string(), 0, vec![sym("greet")]);
    assert!(store.query(&long_word, 10).is_empty());
}
