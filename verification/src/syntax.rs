//! The boundary to the tree-sitter parsers.
//!
//! A parsed tree is read through plain values only: its visible nodes in
//! preorder, each given by its kind, the field name under which it hangs in its
//! parent, its depth below the root, and its row and byte span.  Everything the
//! library computes from a tree is computed from that sequence.

use vstd::prelude::*;

verus! {

#[verifier::external_type_specification]
#[verifier::external_body]
pub struct ExLanguage(tree_sitter::Language);

#[verifier::external_type_specification]
#[verifier::external_body]
pub struct ExTree(tree_sitter::Tree);

/// The tree-sitter grammars this library knows how to load.
#[derive(Clone, Copy, Debug, PartialEq, Eq, Structural)]
pub enum Grammar {
    Python,
    Rust,
    Go,
    JavaScript,
    TypeScript,
    Tsx,
    Java,
    C,
    Cpp,
    Swift,
    Lua,
    ObjC,
    Zig,
}

/// One visible node of a syntax tree, as plain values.
pub struct SyntaxNode {
    /// The node's kind, such as `function_item`.
    pub kind: Seq<char>,
    /// The field under which the node hangs in its parent, such as `name`.
    pub field: Option<Seq<char>>,
    /// The number of visible ancestors; the root has depth 0.
    pub depth: nat,
    /// The rows (from 0) of the node's first and last character.
    pub start_row: nat,
    pub end_row: nat,
    /// The node's byte range in the source.
    pub start_byte: nat,
    pub end_byte: nat,
}

/// The executable counterpart of [`SyntaxNode`].
pub struct NodeInfo {
    pub kind: String,
    pub field: Option<String>,
    pub depth: usize,
    pub start_row: usize,
    pub end_row: usize,
    pub start_byte: usize,
    pub end_byte: usize,
}

pub open spec fn opt_chars(o: Option<String>) -> Option<Seq<char>> {
    match o {
        Some(s) => Some(s@),
        None => None,
    }
}

impl View for NodeInfo {
    type V = SyntaxNode;

    open spec fn view(&self) -> SyntaxNode {
        SyntaxNode {
            kind: self.kind@,
            field: opt_chars(self.field),
            depth: self.depth as nat,
            start_row: self.start_row as nat,
            end_row: self.end_row as nat,
            start_byte: self.start_byte as nat,
            end_byte: self.end_byte as nat,
        }
    }
}

/// Each node ends on or after the row it starts on, and no node starts on an
/// earlier row than a node before it in preorder.
pub open spec fn rows_ordered(nodes: Seq<SyntaxNode>) -> bool {
    &&& forall|i: int| 0 <= i < nodes.len() ==> #[trigger] nodes[i].start_row <= nodes[i].end_row
    &&& forall|i: int, j: int| 0 <= i < j < nodes.len() ==> #[trigger] nodes[i].start_row
        <= #[trigger] nodes[j].start_row
}

/// The depths are those of a preorder walk of one tree: the first node is
/// the root, at depth 0, every later node lies below it, and each node is at
/// most one level deeper than the node before it (a first child).
pub open spec fn depths_in_preorder(nodes: Seq<SyntaxNode>) -> bool {
    &&& nodes.len() > 0 ==> nodes[0].depth == 0
    &&& forall|k: int| 1 <= k < nodes.len() ==> 1 <= #[trigger] nodes[k].depth <= nodes[k - 1].depth + 1
}

/// The plain views of a sequence of node records.
pub open spec fn node_views(v: Seq<NodeInfo>) -> Seq<SyntaxNode> {
    Seq::new(v.len(), |i: int| v[i]@)
}

/// A loaded grammar, tagged with the grammar it was loaded from.
pub struct LoadedGrammar {
    grammar: Grammar,
    language: tree_sitter::Language,
}

impl LoadedGrammar {
    pub closed spec fn grammar(&self) -> Grammar {
        self.grammar
    }
}

/// The visible nodes, in preorder, of the tree that tree-sitter builds for
/// `source` with `grammar`; `None` where the parser yields no tree.
pub uninterp spec fn parsed_nodes(grammar: Grammar, source: Seq<u8>) -> Option<Seq<SyntaxNode>>;

/// The visible nodes of `tree`, in preorder (the order of
/// `TreeCursor::goto_descendant`), the root first.
pub uninterp spec fn tree_nodes(tree: tree_sitter::Tree) -> Seq<SyntaxNode>;

/// Loads the grammar `tree_sitter_python::LANGUAGE` (`tree_sitter::Language::new`) and tags it
/// [`Grammar::Python`]; claims only the tag.
#[verifier::external_body]
fn python_grammar() -> (r: LoadedGrammar)
    ensures
        r.grammar() == Grammar::Python,
{
    LoadedGrammar { grammar: Grammar::Python, language: tree_sitter::Language::new(tree_sitter_python::LANGUAGE) }
}

/// Loads the grammar `tree_sitter_rust::LANGUAGE` (`tree_sitter::Language::new`) and tags it
/// [`Grammar::Rust`]; claims only the tag.
#[verifier::external_body]
fn rust_grammar() -> (r: LoadedGrammar)
    ensures
        r.grammar() == Grammar::Rust,
{
    LoadedGrammar { grammar: Grammar::Rust, language: tree_sitter::Language::new(tree_sitter_rust::LANGUAGE) }
}

/// Loads the grammar `tree_sitter_go::LANGUAGE` (`tree_sitter::Language::new`) and tags it
/// [`Grammar::Go`]; claims only the tag.
#[verifier::external_body]
fn go_grammar() -> (r: LoadedGrammar)
    ensures
        r.grammar() == Grammar::Go,
{
    LoadedGrammar { grammar: Grammar::Go, language: tree_sitter::Language::new(tree_sitter_go::LANGUAGE) }
}

/// Loads the grammar `tree_sitter_javascript::LANGUAGE` (`tree_sitter::Language::new`) and tags it
/// [`Grammar::JavaScript`]; claims only the tag.
#[verifier::external_body]
fn javascript_grammar() -> (r: LoadedGrammar)
    ensures
        r.grammar() == Grammar::JavaScript,
{
    LoadedGrammar { grammar: Grammar::JavaScript, language: tree_sitter::Language::new(tree_sitter_javascript::LANGUAGE) }
}

/// Loads the grammar `tree_sitter_typescript::LANGUAGE_TYPESCRIPT` (`tree_sitter::Language::new`) and tags it
/// [`Grammar::TypeScript`]; claims only the tag.
#[verifier::external_body]
fn typescript_grammar() -> (r: LoadedGrammar)
    ensures
        r.grammar() == Grammar::TypeScript,
{
    LoadedGrammar { grammar: Grammar::TypeScript, language: tree_sitter::Language::new(tree_sitter_typescript::LANGUAGE_TYPESCRIPT) }
}

/// Loads the grammar `tree_sitter_typescript::LANGUAGE_TSX` (`tree_sitter::Language::new`) and tags it
/// [`Grammar::Tsx`]; claims only the tag.
#[verifier::external_body]
fn tsx_grammar() -> (r: LoadedGrammar)
    ensures
        r.grammar() == Grammar::Tsx,
{
    LoadedGrammar { grammar: Grammar::Tsx, language: tree_sitter::Language::new(tree_sitter_typescript::LANGUAGE_TSX) }
}

/// Loads the grammar `tree_sitter_java::LANGUAGE` (`tree_sitter::Language::new`) and tags it
/// [`Grammar::Java`]; claims only the tag.
#[verifier::external_body]
fn java_grammar() -> (r: LoadedGrammar)
    ensures
        r.grammar() == Grammar::Java,
{
    LoadedGrammar { grammar: Grammar::Java, language: tree_sitter::Language::new(tree_sitter_java::LANGUAGE) }
}

/// Loads the grammar `tree_sitter_c::LANGUAGE` (`tree_sitter::Language::new`) and tags it
/// [`Grammar::C`]; claims only the tag.
#[verifier::external_body]
fn c_grammar() -> (r: LoadedGrammar)
    ensures
        r.grammar() == Grammar::C,
{
    LoadedGrammar { grammar: Grammar::C, language: tree_sitter::Language::new(tree_sitter_c::LANGUAGE) }
}

/// Loads the grammar `tree_sitter_cpp::LANGUAGE` (`tree_sitter::Language::new`) and tags it
/// [`Grammar::Cpp`]; claims only the tag.
#[verifier::external_body]
fn cpp_grammar() -> (r: LoadedGrammar)
    ensures
        r.grammar() == Grammar::Cpp,
{
    LoadedGrammar { grammar: Grammar::Cpp, language: tree_sitter::Language::new(tree_sitter_cpp::LANGUAGE) }
}

/// Loads the grammar `tree_sitter_swift::LANGUAGE` (`tree_sitter::Language::new`) and tags it
/// [`Grammar::Swift`]; claims only the tag.
#[verifier::external_body]
fn swift_grammar() -> (r: LoadedGrammar)
    ensures
        r.grammar() == Grammar::Swift,
{
    LoadedGrammar { grammar: Grammar::Swift, language: tree_sitter::Language::new(tree_sitter_swift::LANGUAGE) }
}

/// Loads the grammar `tree_sitter_lua::LANGUAGE` (`tree_sitter::Language::new`) and tags it
/// [`Grammar::Lua`]; claims only the tag.
#[verifier::external_body]
fn lua_grammar() -> (r: LoadedGrammar)
    ensures
        r.grammar() == Grammar::Lua,
{
    LoadedGrammar { grammar: Grammar::Lua, language: tree_sitter::Language::new(tree_sitter_lua::LANGUAGE) }
}

/// Loads the grammar `tree_sitter_objc::LANGUAGE` (`tree_sitter::Language::new`) and tags it
/// [`Grammar::ObjC`]; claims only the tag.
#[verifier::external_body]
fn objc_grammar() -> (r: LoadedGrammar)
    ensures
        r.grammar() == Grammar::ObjC,
{
    LoadedGrammar { grammar: Grammar::ObjC, language: tree_sitter::Language::new(tree_sitter_objc::LANGUAGE) }
}

/// Loads the grammar `tree_sitter_zig::LANGUAGE` (`tree_sitter::Language::new`) and tags it
/// [`Grammar::Zig`]; claims only the tag.
#[verifier::external_body]
fn zig_grammar() -> (r: LoadedGrammar)
    ensures
        r.grammar() == Grammar::Zig,
{
    LoadedGrammar { grammar: Grammar::Zig, language: tree_sitter::Language::new(tree_sitter_zig::LANGUAGE) }
}

/// Loads the tree-sitter grammar `grammar`.
fn load_grammar(grammar: Grammar) -> (r: LoadedGrammar)
    ensures
        r.grammar() == grammar,
{
    match grammar {
        Grammar::Python => python_grammar(),
        Grammar::Rust => rust_grammar(),
        Grammar::Go => go_grammar(),
        Grammar::JavaScript => javascript_grammar(),
        Grammar::TypeScript => typescript_grammar(),
        Grammar::Tsx => tsx_grammar(),
        Grammar::Java => java_grammar(),
        Grammar::C => c_grammar(),
        Grammar::Cpp => cpp_grammar(),
        Grammar::Swift => swift_grammar(),
        Grammar::Lua => lua_grammar(),
        Grammar::ObjC => objc_grammar(),
        Grammar::Zig => zig_grammar(),
    }
}

/// Builds the tree for `source` with a fresh `tree_sitter::Parser`
/// (`Parser::new`), set to the grammar (`Parser::set_language`), parsing with
/// no old tree (`Parser::parse`); a grammar the parser refuses gives no tree.
/// Claims that the nodes of the tree are [`parsed_nodes`] of the grammar's tag
/// and the bytes, and that no tree comes back exactly where that is `None`.
/// Also claims what the positions of any tree show: a node ends no earlier
/// than it starts, and nodes start in preorder (a child at or after its
/// parent, a later sibling after an earlier one's subtree), so their start
/// rows never decrease in preorder. And it claims what a preorder walk of one
/// tree shows of depths: the root comes first at depth 0, and each next node
/// is either the first child of the node before it (one level deeper) or a
/// later sibling of it or of one of its ancestors (no deeper than it). What
/// tree tree-sitter builds is otherwise only named, not stated.
#[verifier::external_body]
fn parse_with(grammar: &LoadedGrammar, source: &[u8]) -> (r: Option<tree_sitter::Tree>)
    ensures
        r is Some <==> parsed_nodes(grammar.grammar(), source@) is Some,
        r matches Some(t) ==> parsed_nodes(grammar.grammar(), source@) == Some(tree_nodes(t)),
        r matches Some(t) ==> rows_ordered(tree_nodes(t)),
        r matches Some(t) ==> depths_in_preorder(tree_nodes(t)),
{
    let mut parser = tree_sitter::Parser::new();
    match parser.set_language(&grammar.language) {
        Ok(()) => parser.parse(source, None),
        Err(_) => None,
    }
}

/// `Node::descendant_count` of the root node (`Tree::root_node`): the number
/// of visible nodes of the tree, the root included. Claims that it is the
/// length of [`tree_nodes`].
#[verifier::external_body]
fn node_count(tree: &tree_sitter::Tree) -> (r: usize)
    ensures
        r == tree_nodes(*tree).len(),
{
    tree.root_node().descendant_count()
}

/// Moves a cursor of the tree (`Tree::walk`) to the `index`-th visible node in
/// preorder (`TreeCursor::goto_descendant`) and reads that node: its kind
/// (`Node::kind`), its field name (`TreeCursor::field_name`), its depth
/// (`TreeCursor::depth`), its rows (`Node::start_position`,
/// `Node::end_position`) and its bytes (`Node::start_byte`, `Node::end_byte`).
/// Claims that the record read is the `index`-th of [`tree_nodes`].
#[verifier::external_body]
fn node_at(tree: &tree_sitter::Tree, index: usize) -> (r: NodeInfo)
    requires
        index < tree_nodes(*tree).len(),
    ensures
        r@ == tree_nodes(*tree)[index as int],
{
    let mut cursor = tree.walk();
    cursor.goto_descendant(index);
    let node = cursor.node();
    NodeInfo {
        kind: node.kind().to_string(),
        field: cursor.field_name().map(str::to_string),
        depth: cursor.depth() as usize,
        start_row: node.start_position().row,
        end_row: node.end_position().row,
        start_byte: node.start_byte(),
        end_byte: node.end_byte(),
    }
}

/// The nodes of the tree that tree-sitter builds for `source` with `grammar`,
/// in preorder; `None` where no tree is built.
pub fn parse_nodes(grammar: Grammar, source: &[u8]) -> (r: Option<Vec<NodeInfo>>)
    ensures
        match parsed_nodes(grammar, source@) {
            Some(nodes) => r matches Some(v) && node_views(v@) == nodes && rows_ordered(nodes)
                && depths_in_preorder(nodes),
            None => r is None,
        },
{
    let loaded = load_grammar(grammar);
    let tree = match parse_with(&loaded, source) {
        Some(t) => t,
        None => return None,
    };
    let n = node_count(&tree);
    let mut out: Vec<NodeInfo> = Vec::new();
    for i in 0..n
        invariant
            n == tree_nodes(tree).len(),
            out@.len() == i,
            node_views(out@) == tree_nodes(tree).take(i as int),
    {
        let ghost prev = out@;
        let info = node_at(&tree, i);
        out.push(info);
        assert forall|k: int| 0 <= k < i + 1 implies #[trigger] node_views(out@)[k]
            == tree_nodes(tree)[k] by {
            if k < i {
                assert(node_views(prev)[k] == tree_nodes(tree).take(i as int)[k]);
            }
        }
        assert(node_views(out@) =~= tree_nodes(tree).take(i + 1));
    }
    assert(tree_nodes(tree).take(n as int) =~= tree_nodes(tree));
    Some(out)
}

} // verus!
