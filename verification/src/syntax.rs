//! A TypeScript syntax tree, read node by node in pre-order.
//!
//! Parsing is tree-sitter's work. What the library reads of a tree is, for the node
//! at each pre-order position, its grammar kind, the text of its `name` field and its
//! first and last rows. Each of these is a function of the source text and the
//! position alone, and is named below.
use vstd::prelude::*;

verus! {

#[verifier::external_type_specification]
#[verifier::external_body]
pub struct ExTree(tree_sitter::Tree);

/// Whether tree-sitter builds a tree for `source` with its TypeScript grammar: it does
/// wherever the grammar fits the linked tree-sitter, since no timeout or cancellation
/// flag is set.
pub uninterp spec fn ts_parses(source: Seq<char>) -> bool;

/// Number of nodes, the root included, of the tree that tree-sitter's TypeScript
/// grammar builds for `source`.
pub uninterp spec fn ts_descendant_count(source: Seq<char>) -> nat;

/// Grammar kind of the node at pre-order position `index` of the tree built for `source`.
pub uninterp spec fn ts_node_kind(source: Seq<char>, index: int) -> Seq<char>;

/// Text of the `name` field of the node at pre-order position `index`: `None` where
/// the node has no such field or its text is not whole UTF-8.
pub uninterp spec fn ts_node_name(source: Seq<char>, index: int) -> Option<Seq<char>>;

/// Zero-based row on which the node at pre-order position `index` starts.
pub uninterp spec fn ts_node_start_row(source: Seq<char>, index: int) -> nat;

/// Zero-based row on which the node at pre-order position `index` ends.
pub uninterp spec fn ts_node_end_row(source: Seq<char>, index: int) -> nat;

/// A source text together with the syntax tree tree-sitter built for it.
pub struct SourceTree {
    text: String,
    tree: tree_sitter::Tree,
}

impl View for SourceTree {
    type V = Seq<char>;

    closed spec fn view(&self) -> Seq<char> {
        self.text@
    }
}

/// Calls `tree_sitter::Node::descendant_count` on the root node: the number of nodes
/// of the tree, the root included.
#[verifier::external_body]
pub(crate) fn descendant_count(t: &SourceTree) -> (r: usize)
    ensures
        r == ts_descendant_count(t@),
{
    t.tree.root_node().descendant_count()
}

/// Moves a `tree_sitter::TreeCursor` with `goto_descendant` to pre-order position
/// `index` and calls `tree_sitter::Node::kind` there.
#[verifier::external_body]
pub(crate) fn node_kind_at(t: &SourceTree, index: usize) -> (r: String)
    ensures
        r@ == ts_node_kind(t@, index as int),
{
    let mut cursor = t.tree.walk();
    cursor.goto_descendant(index);
    cursor.node().kind().to_string()
}

/// Moves a cursor to pre-order position `index`, calls
/// `tree_sitter::Node::child_by_field_name` with `"name"` and reads that child's text
/// with `tree_sitter::Node::utf8_text`.
#[verifier::external_body]
pub(crate) fn node_name_at(t: &SourceTree, index: usize) -> (r: Option<String>)
    ensures
        r matches Some(s) ==> ts_node_name(t@, index as int) == Some(s@),
        r is None ==> ts_node_name(t@, index as int) is None,
{
    let mut cursor = t.tree.walk();
    cursor.goto_descendant(index);
    let named = cursor.node().child_by_field_name("name")?;
    named.utf8_text(t.text.as_bytes()).ok().map(|s| s.to_string())
}

/// Moves a cursor to pre-order position `index` and reads the row of
/// `tree_sitter::Node::start_position`. tree-sitter keeps rows as `u32`.
#[verifier::external_body]
pub(crate) fn node_start_row_at(t: &SourceTree, index: usize) -> (r: usize)
    ensures
        r == ts_node_start_row(t@, index as int),
        r <= u32::MAX,
{
    let mut cursor = t.tree.walk();
    cursor.goto_descendant(index);
    cursor.node().start_position().row
}

/// Moves a cursor to pre-order position `index` and reads the row of
/// `tree_sitter::Node::end_position`. tree-sitter keeps rows as `u32`.
#[verifier::external_body]
pub(crate) fn node_end_row_at(t: &SourceTree, index: usize) -> (r: usize)
    ensures
        r == ts_node_end_row(t@, index as int),
        r <= u32::MAX,
{
    let mut cursor = t.tree.walk();
    cursor.goto_descendant(index);
    cursor.node().end_position().row
}

impl SourceTree {
    /// Calls `tree_sitter::Parser::set_language` with the TypeScript grammar of
    /// `tree_sitter_typescript`, then `tree_sitter::Parser::parse` on `source`, and keeps
    /// the tree with the text it was built from. `None` where the grammar does not fit
    /// this version of tree-sitter.
    #[verifier::external_body]
    pub fn parse(source: &str) -> (r: Option<SourceTree>)
        ensures
            r is Some == ts_parses(source@),
            r matches Some(t) ==> t@ == source@,
    {
        let mut parser = tree_sitter::Parser::new();
        let language = tree_sitter::Language::new(tree_sitter_typescript::LANGUAGE_TYPESCRIPT);
        if parser.set_language(&language).is_err() {
            return None;
        }
        let tree = parser.parse(source, None)?;
        Some(SourceTree { text: source.to_owned(), tree })
    }
}

} // verus!
