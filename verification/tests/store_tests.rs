use terax_index::persist::{PersistedFile, PersistedIndex};
use terax_index::store::IndexStore;
use terax_index::symbols::{Symbol, SymbolKind};

fn sym(name: &str, line: usize) -> Symbol {
    Symbol {
        name: name.to_string(),
        kind: SymbolKind::Function,
        start_line: line,
        end_line: line,
    }
}

#[test]
fn empty_store_reports_zero_and_returns_no_hits() {
    let store = IndexStore::default();
    let status = store.status();
    assert_eq!(status.file_count, 0);
    assert_eq!(status.symbol_count, 0);
    assert_eq!(status.root, None);
    assert!(store.query("anything", 10).is_empty());
}

#[test]
fn replace_file_then_query_finds_symbol() {
    let mut store = IndexStore::default();
    store.replace_file("a.ts".to_string(), 0, vec![sym("greet", 1), sym("run", 5)]);
    let hits = store.query("greet", 10);
    assert_eq!(hits.len(), 1);
    assert_eq!(hits[0].name, "greet");
    assert_eq!(hits[0].path, "a.ts");
    assert_eq!(hits[0].start_line, 1);
    let status = store.status();
    assert_eq!(status.file_count, 1);
    assert_eq!(status.symbol_count, 2);
}

#[test]
fn replace_file_overwrites_previous_symbols_for_that_path() {
    let mut store = IndexStore::default();
    store.replace_file("a.ts".to_string(), 0, vec![sym("old", 1)]);
    store.replace_file("a.ts".to_string(), 0, vec![sym("new", 2)]);
    assert_eq!(store.status().symbol_count, 1);
    assert!(store.query("old", 10).is_empty());
    assert_eq!(store.query("new", 10).len(), 1);
}

#[test]
fn remove_file_drops_its_symbols() {
    let mut store = IndexStore::default();
    store.replace_file("a.ts".to_string(), 0, vec![sym("greet", 1)]);
    store.remove_file("a.ts");
    assert_eq!(store.status().file_count, 0);
    assert!(store.query("greet", 10).is_empty());
}

#[test]
fn query_respects_limit() {
    let mut store = IndexStore::default();
    store.replace_file(
        "a.ts".to_string(),
        0,
        vec![sym("handle", 1), sym("handler", 2), sym("handlers", 3)],
    );
    assert_eq!(store.query("handle", 2).len(), 2);
}

#[test]
fn clear_resets_root_and_files() {
    let mut store = IndexStore::default();
    store.set_root(Some("/proj".to_string()));
    store.replace_file("a.ts".to_string(), 0, vec![sym("greet", 1)]);
    store.clear();
    let status = store.status();
    assert_eq!(status.root, None);
    assert_eq!(status.file_count, 0);
}

#[test]
fn snapshot_then_load_snapshot_round_trips() {
    let mut store = IndexStore::default();
    store.set_root(Some("/proj".to_string()));
    store.replace_file("/proj/a.ts".to_string(), 99, vec![sym("greet", 1)]);
    let snap = store.snapshot();

    let mut restored = IndexStore::default();
    restored.load_snapshot(snap);
    assert_eq!(restored.status().root, Some("/proj".to_string()));
    assert_eq!(restored.status().file_count, 1);
    assert_eq!(restored.query("greet", 10).len(), 1);
    let snap2 = restored.snapshot();
    assert_eq!(snap2.files.len(), 1);
    assert_eq!(snap2.files[0].path, "/proj/a.ts");
    assert_eq!(snap2.files[0].mtime_ms, 99);
}

#[test]
fn files_are_kept_in_path_order() {
    let mut store = IndexStore::default();
    store.replace_file("b.ts".to_string(), 2, vec![sym("beta", 1)]);
    store.replace_file("a.ts".to_string(), 1, vec![sym("alpha", 1)]);
    store.replace_file("c.ts".to_string(), 3, vec![sym("gamma", 1)]);
    store.replace_file("ab.ts".to_string(), 4, vec![]);
    let snap = store.snapshot();
    let paths: Vec<&str> = snap.files.iter().map(|f| f.path.as_str()).collect();
    assert_eq!(paths, vec!["a.ts", "ab.ts", "b.ts", "c.ts"]);
    assert_eq!(snap.version, 1);
    assert_eq!(snap.root, "");
}

#[test]
fn blank_query_lists_symbols_in_path_order_up_to_limit() {
    let mut store = IndexStore::default();
    store.replace_file("b.ts".to_string(), 0, vec![sym("third", 1)]);
    store.replace_file("a.ts".to_string(), 0, vec![sym("first", 1), sym("second", 2)]);
    let hits = store.query("   ", 2);
    let names: Vec<&str> = hits.iter().map(|h| h.name.as_str()).collect();
    assert_eq!(names, vec!["first", "second"]);
    assert_eq!(hits[1].path, "a.ts");
    assert_eq!(store.query("", 10).len(), 3);
    assert_eq!(store.query("\t\n", 0).len(), 0);
}

#[test]
fn query_hit_carries_kind_path_and_lines() {
    let mut store = IndexStore::default();
    store.replace_file(
        "src/x.ts".to_string(),
        7,
        vec![Symbol { name: "Engine".to_string(), kind: SymbolKind::Class, start_line: 3, end_line: 9 }],
    );
    let hits = store.query("Engine", 10);
    assert_eq!(hits.len(), 1);
    assert_eq!(hits[0].kind, SymbolKind::Class);
    assert_eq!(hits[0].path, "src/x.ts");
    assert_eq!(hits[0].start_line, 3);
    assert_eq!(hits[0].end_line, 9);
}

#[test]
fn remove_of_unknown_path_changes_nothing() {
    let mut store = IndexStore::default();
    store.replace_file("a.ts".to_string(), 0, vec![sym("greet", 1)]);
    store.remove_file("zzz.ts");
    assert_eq!(store.status().file_count, 1);
    assert_eq!(store.status().symbol_count, 1);
}

#[test]
fn load_snapshot_keeps_last_entry_of_a_repeated_path_and_empty_root_is_none() {
    let mut store = IndexStore::default();
    store.set_root(Some("/before".to_string()));
    store.load_snapshot(PersistedIndex {
        version: 1,
        root: String::new(),
        files: vec![
            PersistedFile { path: "b.ts".to_string(), mtime_ms: 1, symbols: vec![sym("one", 1)] },
            PersistedFile { path: "a.ts".to_string(), mtime_ms: 2, symbols: vec![] },
            PersistedFile { path: "b.ts".to_string(), mtime_ms: 3, symbols: vec![sym("two", 1), sym("three", 2)] },
        ],
    });
    let status = store.status();
    assert_eq!(status.root, None);
    assert_eq!(status.file_count, 2);
    assert_eq!(status.symbol_count, 2);
    let snap = store.snapshot();
    assert_eq!(snap.files[0].path, "a.ts");
    assert_eq!(snap.files[1].path, "b.ts");
    assert_eq!(snap.files[1].mtime_ms, 3);
}

#[test]
fn snapshot_loaded_into_fresh_store_is_the_same_snapshot() {
    let mut store = IndexStore::default();
    store.set_root(Some("/p".to_string()));
    store.replace_file("/p/z.ts".to_string(), 5, vec![sym("zed", 4)]);
    store.replace_file("/p/m.ts".to_string(), 6, vec![sym("em", 2), sym("em2", 3)]);
    let snap = store.snapshot();
    let mut other = IndexStore::default();
    other.load_snapshot(snap.clone());
    assert_eq!(other.snapshot(), snap);
}

#[test]
fn query_ranks_across_files_best_first() {
    let mut store = IndexStore::default();
    store.replace_file("a.ts".to_string(), 0, vec![sym("g_r_e_e_t_x", 1)]);
    store.replace_file("b.ts".to_string(), 0, vec![sym("greet", 2)]);
    let hits = store.query("greet", 10);
    assert_eq!(hits.len(), 2);
    assert_eq!(hits[0].name, "greet");
    assert_eq!(hits[0].path, "b.ts");
    assert_eq!(hits[1].path, "a.ts");
}
