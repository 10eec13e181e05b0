use terax_index::symbols::{extract_symbols, kind_for, Symbol, SymbolKind};
use terax_index::syntax::SourceTree;
use terax_index::symbols::symbols_in_tree;

#[test]
fn extracts_functions_and_classes() {
    let src = "function greet(name: string) {\n  return name;\n}\n\nclass Service {\n}\n";
    let symbols = extract_symbols(src);
    assert_eq!(
        symbols,
        vec![
            Symbol {
                name: "greet".to_string(),
                kind: SymbolKind::Function,
                start_line: 1,
                end_line: 3,
            },
            Symbol {
                name: "Service".to_string(),
                kind: SymbolKind::Class,
                start_line: 5,
                end_line: 6,
            },
        ]
    );
}

#[test]
fn extracts_methods_interfaces_type_aliases_and_enums() {
    let src = "interface Repo {\n  id: number;\n}\ntype Id = string;\nenum Color {\n  Red,\n}\nclass Store {\n  save() {}\n}\n";
    let symbols = extract_symbols(src);
    let pairs: Vec<(&str, &SymbolKind)> =
        symbols.iter().map(|s| (s.name.as_str(), &s.kind)).collect();
    assert_eq!(
        pairs,
        vec![
            ("Repo", &SymbolKind::Interface),
            ("Id", &SymbolKind::TypeAlias),
            ("Color", &SymbolKind::Enum),
            ("Store", &SymbolKind::Class),
            ("save", &SymbolKind::Method),
        ]
    );
}

#[test]
fn exported_declarations_are_found() {
    let symbols = extract_symbols("export function run() {}\nclass Engine {}\n");
    let pairs: Vec<(&str, &SymbolKind)> =
        symbols.iter().map(|s| (s.name.as_str(), &s.kind)).collect();
    assert_eq!(pairs, vec![("run", &SymbolKind::Function), ("Engine", &SymbolKind::Class)]);
}

#[test]
fn empty_source_has_no_symbols() {
    assert!(extract_symbols("").is_empty());
    assert!(extract_symbols("const x = 1;\n").is_empty());
}

#[test]
fn symbols_in_tree_matches_extract_symbols() {
    let src = "function a() {}\nfunction b() {}\n";
    let tree = SourceTree::parse(src).expect("tree");
    assert_eq!(symbols_in_tree(&tree), extract_symbols(src));
    assert_eq!(symbols_in_tree(&tree).len(), 2);
}

#[test]
fn kind_for_maps_each_declaration_kind() {
    assert_eq!(kind_for("function_declaration"), Some(SymbolKind::Function));
    assert_eq!(kind_for("class_declaration"), Some(SymbolKind::Class));
    assert_eq!(kind_for("method_definition"), Some(SymbolKind::Method));
    assert_eq!(kind_for("interface_declaration"), Some(SymbolKind::Interface));
    assert_eq!(kind_for("type_alias_declaration"), Some(SymbolKind::TypeAlias));
    assert_eq!(kind_for("enum_declaration"), Some(SymbolKind::Enum));
    assert_eq!(kind_for("lexical_declaration"), None);
    assert_eq!(kind_for("function"), None);
    assert_eq!(kind_for(""), None);
}
