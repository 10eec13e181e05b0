//! Symbols of a TypeScript source: the kinds of declaration the index records and
//! their extraction from a syntax tree.
use vstd::prelude::*;
use crate::syntax::{
    SourceTree, ts_parses, ts_descendant_count, ts_node_kind, ts_node_name, ts_node_start_row, ts_node_end_row,
    descendant_count, node_kind_at, node_name_at, node_start_row_at, node_end_row_at,
};
use crate::text::str_eq;

verus! {

/// The kinds of declaration that the index records.
#[derive(PartialEq, Eq, Structural, Clone, Copy, Debug)]
pub enum SymbolKind {
    Function,
    Class,
    Method,
    Interface,
    TypeAlias,
    Enum,
}

/// A named declaration and the rows it spans, counted from 1.
#[derive(Clone, Debug, PartialEq, Eq)]
pub struct Symbol {
    pub name: String,
    pub kind: SymbolKind,
    pub start_line: usize,
    pub end_line: usize,
}

/// A symbol as a mathematical value.
pub struct SymbolView {
    pub name: Seq<char>,
    pub kind: SymbolKind,
    pub start_line: usize,
    pub end_line: usize,
}

impl View for Symbol {
    type V = SymbolView;

    open spec fn view(&self) -> SymbolView {
        SymbolView {
            name: self.name@,
            kind: self.kind,
            start_line: self.start_line,
            end_line: self.end_line,
        }
    }
}

/// The views of a sequence of symbols.
pub open spec fn symbol_views(s: Seq<Symbol>) -> Seq<SymbolView> {
    s.map_values(|x: Symbol| x@)
}

/// Appending a symbol appends its view.
pub proof fn lemma_symbol_views_push(s: Seq<Symbol>, x: Symbol)
    ensures
        symbol_views(s.push(x)) == symbol_views(s).push(x@),
{
    assert(symbol_views(s.push(x)) =~= symbol_views(s).push(x@));
}

impl Symbol {
    /// A copy of this symbol.
    pub fn duplicate(&self) -> (r: Symbol)
        ensures
            r@ == self@,
    {
        Symbol {
            name: self.name.clone(),
            kind: self.kind,
            start_line: self.start_line,
            end_line: self.end_line,
        }
    }
}

/// A copy of a list of symbols.
pub fn duplicate_symbols(v: &Vec<Symbol>) -> (r: Vec<Symbol>)
    ensures
        symbol_views(r@) == symbol_views(v@),
{
    let mut r: Vec<Symbol> = Vec::new();
    let mut i: usize = 0;
    while i < v.len()
        invariant
            i <= v@.len(),
            symbol_views(r@) =~= symbol_views(v@.take(i as int)),
        decreases v.len() - i,
    {
        let ghost before = r@;
        r.push(v[i].duplicate());
        proof {
            lemma_symbol_views_push(before, r@.last());
            lemma_symbol_views_push(v@.take(i as int), v@[i as int]);
            assert(v@.take(i + 1) =~= v@.take(i as int).push(v@[i as int]));
        }
        i = i + 1;
    }
    proof {
        assert(v@.take(i as int) =~= v@);
    }
    r
}

/// The symbol kind that a grammar node kind declares, if any.
pub open spec fn symbol_kind_for(node_kind: Seq<char>) -> Option<SymbolKind> {
    if node_kind == "function_declaration"@ {
        Some(SymbolKind::Function)
    } else if node_kind == "class_declaration"@ {
        Some(SymbolKind::Class)
    } else if node_kind == "method_definition"@ {
        Some(SymbolKind::Method)
    } else if node_kind == "interface_declaration"@ {
        Some(SymbolKind::Interface)
    } else if node_kind == "type_alias_declaration"@ {
        Some(SymbolKind::TypeAlias)
    } else if node_kind == "enum_declaration"@ {
        Some(SymbolKind::Enum)
    } else {
        None
    }
}

/// The symbol kind that the grammar node kind `node_kind` declares, if any.
pub fn kind_for(node_kind: &str) -> (r: Option<SymbolKind>)
    ensures
        r == symbol_kind_for(node_kind@),
{
    if str_eq(node_kind, "function_declaration") {
        Some(SymbolKind::Function)
    } else if str_eq(node_kind, "class_declaration") {
        Some(SymbolKind::Class)
    } else if str_eq(node_kind, "method_definition") {
        Some(SymbolKind::Method)
    } else if str_eq(node_kind, "interface_declaration") {
        Some(SymbolKind::Interface)
    } else if str_eq(node_kind, "type_alias_declaration") {
        Some(SymbolKind::TypeAlias)
    } else if str_eq(node_kind, "enum_declaration") {
        Some(SymbolKind::Enum)
    } else {
        None
    }
}

/// The symbol that the node at pre-order position `index` of the tree built for
/// `source` declares: one of the recorded kinds, with a `name` field. Lines count
/// from 1; a node whose row has no successor in `usize` (which only a 32-bit host
/// could meet, on a source of four billion lines) is not recorded.
pub open spec fn node_symbol(source: Seq<char>, index: int) -> Option<SymbolView> {
    match symbol_kind_for(ts_node_kind(source, index)) {
        Some(kind) => match ts_node_name(source, index) {
            Some(name) => if ts_node_start_row(source, index) < usize::MAX
                && ts_node_end_row(source, index) < usize::MAX {
                Some(
                SymbolView {
                    name,
                    kind,
                    start_line: (ts_node_start_row(source, index) + 1) as usize,
                    end_line: (ts_node_end_row(source, index) + 1) as usize,
                },
            )
            } else {
                None
            },
            None => None,
        },
        None => None,
    }
}

/// The symbols declared by the first `n` nodes, in pre-order.
pub open spec fn symbols_before(source: Seq<char>, n: nat) -> Seq<SymbolView>
    decreases n,
{
    if n == 0 {
        Seq::empty()
    } else {
        let earlier = symbols_before(source, (n - 1) as nat);
        match node_symbol(source, n - 1) {
            Some(s) => earlier.push(s),
            None => earlier,
        }
    }
}

/// The symbols that the tree built for `source` declares, in pre-order, that is in
/// the order in which their declarations start, outer before inner.
pub open spec fn typescript_symbols(source: Seq<char>) -> Seq<SymbolView> {
    symbols_before(source, ts_descendant_count(source))
}

/// Whether `s` is what the node at pre-order position `index` of the tree built for
/// `source` declares: the kind that the node's grammar kind stands for, the text of the
/// node's `name` field, and, for every kind alike, the node's first row plus one as
/// its first line and the row on which the node's text ends plus one as its last line.
pub open spec fn declared_by(source: Seq<char>, index: int, s: SymbolView) -> bool {
    &&& symbol_kind_for(ts_node_kind(source, index)) == Some(s.kind)
    &&& ts_node_name(source, index) == Some(s.name)
    &&& s.start_line == ts_node_start_row(source, index) + 1
    &&& s.end_line == ts_node_end_row(source, index) + 1
}

/// Whether the node at pre-order position `index` declares a recorded symbol: a kind
/// that is recorded, a `name` field, and rows whose successors fit in `usize`.
pub open spec fn declares_symbol(source: Seq<char>, index: int) -> bool {
    &&& symbol_kind_for(ts_node_kind(source, index)) is Some
    &&& ts_node_name(source, index) is Some
    &&& ts_node_start_row(source, index) < usize::MAX
    &&& ts_node_end_row(source, index) < usize::MAX
}

/// Whether `nodes` gives, for each of `syms` in turn, the ascending pre-order
/// position below `count` of the node that declares it.
pub open spec fn traced_to_nodes(
    source: Seq<char>,
    syms: Seq<SymbolView>,
    count: nat,
    nodes: Seq<int>,
) -> bool {
    &&& nodes.len() == syms.len()
    &&& forall|k: int| 0 <= k < nodes.len() ==> 0 <= #[trigger] nodes[k] < count
    &&& forall|k: int| 0 <= k < nodes.len() ==> declared_by(source, #[trigger] nodes[k], syms[k])
    &&& forall|a: int, b: int| 0 <= a < b < nodes.len() ==> #[trigger] nodes[a] < #[trigger] nodes[b]
}

proof fn lemma_symbols_before_traced(source: Seq<char>, n: nat) -> (nodes: Seq<int>)
    ensures
        traced_to_nodes(source, symbols_before(source, n), n, nodes),
        forall|i: int|
            0 <= i < n && declares_symbol(source, i) ==> exists|k: int|
                0 <= k < nodes.len() && #[trigger] nodes[k] == i,
    decreases n,
{
    if n == 0 {
        Seq::empty()
    } else {
        let earlier = lemma_symbols_before_traced(source, (n - 1) as nat);
        let i = n - 1;
        match node_symbol(source, i) {
            Some(s) => {
                let nodes = earlier.push(i);
                assert(nodes[nodes.len() - 1] == i);
                assert forall|k: int| 0 <= k < nodes.len() implies declared_by(
                    source,
                    #[trigger] nodes[k],
                    symbols_before(source, n)[k],
                ) by {
                    if k < earlier.len() {
                        assert(nodes[k] == earlier[k]);
                    }
                }
                assert forall|m: int|
                    0 <= m < n && declares_symbol(source, m) implies exists|k: int|
                    0 <= k < nodes.len() && #[trigger] nodes[k] == m by {
                    if m < i {
                        let k = choose|k: int| 0 <= k < earlier.len() && #[trigger] earlier[k] == m;
                        assert(nodes[k] == m);
                    } else {
                        assert(nodes[nodes.len() - 1] == m);
                    }
                }
                nodes
            },
            None => {
                assert forall|m: int|
                    0 <= m < n && declares_symbol(source, m) implies exists|k: int|
                    0 <= k < earlier.len() && #[trigger] earlier[k] == m by {
                    if m == i {
                        assert(node_symbol(source, i) is Some);
                    }
                }
                earlier
            },
        }
    }
}

/// Every symbol of a TypeScript source is what one node of its tree declares, the
/// nodes ascending in pre-order as the symbols do: the node's kind, its `name` field,
/// and lines one past the rows on which the node starts and ends, for every kind alike.
/// Conversely every node of a recorded kind with a `name` field gives a symbol.
pub proof fn law_symbols_are_declarations(source: Seq<char>)
    ensures
        exists|nodes: Seq<int>|
            traced_to_nodes(source, typescript_symbols(source), ts_descendant_count(source), nodes),
        forall|i: int|
            0 <= i < ts_descendant_count(source) && #[trigger] declares_symbol(source, i) ==> exists|k: int|
                0 <= k < typescript_symbols(source).len() && declared_by(
                    source,
                    i,
                    #[trigger] typescript_symbols(source)[k],
                ),
{
    let n = ts_descendant_count(source);
    let nodes = lemma_symbols_before_traced(source, n);
    let syms = typescript_symbols(source);
    assert forall|i: int|
        0 <= i < n && #[trigger] declares_symbol(source, i) implies exists|k: int|
        0 <= k < syms.len() && declared_by(source, i, #[trigger] syms[k]) by {
        let k = choose|k: int| 0 <= k < nodes.len() && #[trigger] nodes[k] == i;
        assert(declared_by(source, nodes[k], syms[k]));
    }
}

/// The symbols that `tree` declares, in pre-order.
pub fn symbols_in_tree(tree: &SourceTree) -> (r: Vec<Symbol>)
    ensures
        symbol_views(r@) == typescript_symbols(tree@),
{
    let count: usize = descendant_count(tree);
    let mut out: Vec<Symbol> = Vec::new();
    let mut i: usize = 0;
    while i < count
        invariant
            i <= count,
            count == ts_descendant_count(tree@),
            symbol_views(out@) =~= symbols_before(tree@, i as nat),
        decreases count - i,
    {
        let node_kind = node_kind_at(tree, i);
        match kind_for(node_kind.as_str()) {
            Some(kind) => match node_name_at(tree, i) {
                Some(name) => {
                    let start_row: usize = node_start_row_at(tree, i);
                    let end_row: usize = node_end_row_at(tree, i);
                    if start_row < usize::MAX && end_row < usize::MAX {
                        let ghost before = out@;
                        out.push(
                            Symbol { name, kind, start_line: start_row + 1, end_line: end_row + 1 },
                        );
                        proof {
                            lemma_symbol_views_push(before, out@.last());
                        }
                    }
                },
                None => {},
            },
            None => {},
        }
        i = i + 1;
    }
    out
}

/// The symbols of the TypeScript source `source`, in the order in which their
/// declarations start. Empty where tree-sitter gives no tree for it.
pub fn extract_symbols(source: &str) -> (r: Vec<Symbol>)
    ensures
        ts_parses(source@) ==> symbol_views(r@) == typescript_symbols(source@),
        !ts_parses(source@) ==> r@.len() == 0,
{
    match SourceTree::parse(source) {
        Some(tree) => symbols_in_tree(&tree),
        None => Vec::new(),
    }
}

} // verus!
