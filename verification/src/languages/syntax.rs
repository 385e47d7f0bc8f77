//! Syntax trees as plain lists of nodes.
//!
//! A tree is held as its nodes in the order in which a reader meets them, each
//! with its depth. Parents, children and subtrees are found from the depths.

use vstd::prelude::*;

use crate::languages::Language;
use crate::text::{same_text, slice, text_option, text_slice};

verus! {

/// One node of a syntax tree.
#[derive(Debug, Clone, PartialEq, Eq)]
pub struct SyntaxNode {
    pub kind: String,
    /// The name under which its parent holds it.
    pub field: Option<String>,
    pub depth: u32,
    pub start_byte: usize,
    pub end_byte: usize,
    pub start_row: usize,
    pub start_column: usize,
    pub end_row: usize,
    pub end_column: usize,
    /// Whether the source of the node holds a syntax error.
    pub has_error: bool,
}

/// A node by what its texts hold.
#[verifier::ext_equal]
pub struct NodeView {
    pub kind: Seq<char>,
    pub field: Option<Seq<char>>,
    pub depth: u32,
    pub start_byte: usize,
    pub end_byte: usize,
    pub start_row: usize,
    pub start_column: usize,
    pub end_row: usize,
    pub end_column: usize,
    pub has_error: bool,
}

impl View for SyntaxNode {
    type V = NodeView;

    open spec fn view(&self) -> NodeView {
        NodeView {
            kind: self.kind@,
            field: text_option(self.field),
            depth: self.depth,
            start_byte: self.start_byte,
            end_byte: self.end_byte,
            start_row: self.start_row,
            start_column: self.start_column,
            end_row: self.end_row,
            end_column: self.end_column,
            has_error: self.has_error,
        }
    }
}

/// The views of a sequence of nodes.
pub open spec fn node_views(nodes: Seq<SyntaxNode>) -> Seq<NodeView> {
    nodes.map_values(|n: SyntaxNode| n@)
}

/// An optional list of nodes by what it holds.
pub open spec fn optional_nodes(nodes: Option<Vec<SyntaxNode>>) -> Option<Seq<NodeView>> {
    match nodes {
        Some(list) => Some(node_views(list@)),
        None => None,
    }
}

/// The sentence with which a grammar is refused.
pub uninterp spec fn grammar_fault(language: Language) -> Option<Seq<char>>;

/// The syntax tree of a source text.
pub uninterp spec fn syntax_tree(language: Language, source: Seq<char>) -> Option<Seq<NodeView>>;

/// `tree_sitter::Parser::set_language` accepts a grammar of a supported version
/// and refuses any other. Whether it refuses one of the two grammars of
/// `tree_sitter_typescript`, and with which sentence, depends on the grammar
/// alone.
#[verifier::external_body]
pub(crate) fn load_grammar(language: Language) -> (r: Option<String>)
    ensures
        text_option(r) == grammar_fault(language),
{
    let grammar = match language {
        Language::TypeScript => tree_sitter_typescript::LANGUAGE_TYPESCRIPT,
        Language::Tsx => tree_sitter_typescript::LANGUAGE_TSX,
    };
    match tree_sitter::Parser::new().set_language(&grammar.into()) {
        Ok(()) => None,
        Err(error) => Some(error.to_string()),
    }
}

#[verifier::external_type_specification]
#[verifier::external_body]
pub struct ExTree(tree_sitter::Tree);

/// The nodes of a parsed tree, in the order in which a reader meets them.
pub uninterp spec fn tree_content(tree: tree_sitter::Tree) -> Seq<NodeView>;

/// `tree_sitter::Parser::parse` on a fresh parser gives a syntax tree, or none.
/// Which it is depends on the grammar and the source alone; what nodes a source
/// has is not stated.
#[verifier::external_body]
fn parse_tree(language: Language, source: &str) -> (r: Option<tree_sitter::Tree>)
    ensures
        match r {
            Some(tree) => syntax_tree(language, source@) == Some(tree_content(tree)),
            None => syntax_tree(language, source@) is None,
        },
{
    let grammar = match language {
        Language::TypeScript => tree_sitter_typescript::LANGUAGE_TYPESCRIPT,
        Language::Tsx => tree_sitter_typescript::LANGUAGE_TSX,
    };
    let mut parser = tree_sitter::Parser::new();
    parser.set_language(&grammar.into()).ok()?;
    parser.parse(source, None)
}

/// A `tree_sitter::TreeCursor` meets every node of a tree once, from the root
/// on, a node before its children and those in their order. Each node is handed
/// out with its kind, field, depth, extent and whether it holds an error.
#[verifier::external_body]
fn tree_nodes(tree: &tree_sitter::Tree) -> (r: Vec<SyntaxNode>)
    ensures
        node_views(r@) == tree_content(*tree),
{
    let (mut cursor, mut nodes) = (tree.walk(), Vec::new());
    loop {
        let (node, at) = (cursor.node(), cursor.node().range());
        nodes.push(SyntaxNode { kind: node.kind().to_owned(), field: cursor.field_name().map(str::to_owned), depth: cursor.depth(),
            start_byte: at.start_byte, end_byte: at.end_byte, start_row: at.start_point.row, start_column: at.start_point.column,
            end_row: at.end_point.row, end_column: at.end_point.column, has_error: node.has_error() });
        if cursor.goto_first_child() { continue; }
        while !cursor.goto_next_sibling() { if !cursor.goto_parent() { return nodes; } }
    }
}

/// Parse a source text into the nodes of its syntax tree.
pub(crate) fn parse_source(language: Language, source: &str) -> (r: Option<Vec<SyntaxNode>>)
    ensures
        optional_nodes(r) == syntax_tree(language, source@),
{
    match parse_tree(language, source) {
        Some(tree) => Some(tree_nodes(&tree)),
        None => None,
    }
}

/// The nearest node at or before a position that is less deep than `depth`.
pub open spec fn shallower(nodes: Seq<NodeView>, j: int, depth: u32) -> Option<int>
    decreases j + 1,
{
    if j < 0 {
        None
    } else if nodes[j].depth < depth {
        Some(j)
    } else {
        shallower(nodes, j - 1, depth)
    }
}

/// The parent of a node: the nearest node before it that is less deep.
pub open spec fn parent(nodes: Seq<NodeView>, i: int) -> Option<int> {
    shallower(nodes, i - 1, nodes[i].depth)
}

/// What the nearest shallower node is.
pub proof fn lemma_shallower(nodes: Seq<NodeView>, j: int, depth: u32)
    ensures
        match shallower(nodes, j, depth) {
            Some(p) => 0 <= p <= j && nodes[p].depth < depth && forall|k: int| p < k <= j ==> (#[trigger] nodes[k]).depth >= depth,
            None => forall|k: int| 0 <= k <= j ==> (#[trigger] nodes[k]).depth >= depth,
        },
    decreases j + 1,
{
    if j >= 0 && nodes[j].depth >= depth {
        lemma_shallower(nodes, j - 1, depth);
    }
}

/// A run of nodes that are not shallower can be passed over.
proof fn lemma_pass_over(nodes: Seq<NodeView>, from: int, to: int, depth: u32)
    requires
        from <= to,
        forall|k: int| from < k <= to ==> (#[trigger] nodes[k]).depth >= depth,
    ensures
        shallower(nodes, to, depth) == shallower(nodes, from, depth),
    decreases to - from,
{
    if from < to && to >= 0 {
        assert(nodes[to].depth >= depth);
        lemma_pass_over(nodes, from, to - 1, depth);
    }
}

/// An optional position as a mathematical number.
pub open spec fn position(at: Option<usize>) -> Option<int> {
    match at {
        Some(i) => Some(i as int),
        None => None,
    }
}

/// Whether a list gives the parent of every node.
pub open spec fn are_parents(parents: Seq<Option<usize>>, nodes: Seq<NodeView>) -> bool {
    &&& parents.len() == nodes.len()
    &&& forall|i: int| 0 <= i < nodes.len() ==> position(#[trigger] parents[i]) == parent(nodes, i)
}

/// The parent of every node.
pub fn parents_of(nodes: &Vec<SyntaxNode>) -> (r: Vec<Option<usize>>)
    ensures
        are_parents(r@, node_views(nodes@)),
{
    let ghost views = node_views(nodes@);
    let mut out: Vec<Option<usize>> = Vec::new();
    let mut i: usize = 0;
    while i < nodes.len()
        invariant
            i <= nodes.len(),
            views == node_views(nodes@),
            out.len() == i,
            forall|k: int| 0 <= k < i ==> position(#[trigger] out@[k]) == parent(views, k),
        decreases nodes.len() - i,
    {
        let depth: u32 = nodes[i].depth;
        assert(views[i as int].depth == depth);
        let mut at: Option<usize> = if i > 0 {
            Some(i - 1)
        } else {
            None
        };
        loop
            invariant
                i < nodes.len(),
                views == node_views(nodes@),
                views[i as int].depth == depth,
                out.len() == i,
                forall|k: int| 0 <= k < i ==> position(#[trigger] out@[k]) == parent(views, k),
                at matches Some(j) ==> j < i,
                parent(views, i as int) == match at {
                    Some(j) => shallower(views, j as int, depth),
                    None => None,
                },
            ensures
                position(at) == parent(views, i as int),
            decreases (match at {
                Some(j) => j + 1,
                None => 0,
            }),
        {
            match at {
                None => {
                    break;
                },
                Some(j) => {
                    assert(views[j as int].depth == nodes@[j as int].depth);
                    if nodes[j].depth < depth {
                        break;
                    }
                    proof {
                        lemma_shallower(views, j - 1, views[j as int].depth);
                        let above = parent(views, j as int);
                        assert(position(out@[j as int]) == above);
                        match above {
                            Some(p) => {
                                assert forall|k: int| p < k <= j implies (#[trigger] views[k]).depth >= depth by {}
                                lemma_pass_over(views, p, j as int, depth);
                            },
                            None => {
                                assert forall|k: int| -1 < k <= j implies (#[trigger] views[k]).depth >= depth by {}
                                lemma_pass_over(views, -1, j as int, depth);
                            },
                        }
                    }
                    at = out[j];
                },
            }
        }
        out.push(at);
        i = i + 1;
    }
    out
}

/// The first child at or behind `j` that a node holds under a field name.
pub open spec fn child_from(nodes: Seq<NodeView>, i: int, j: int, field: Seq<char>) -> Option<int>
    decreases nodes.len() - j,
{
    if j < 0 || j >= nodes.len() || nodes[j].depth <= nodes[i].depth {
        None
    } else if parent(nodes, j) == Some(i) && nodes[j].field == Some(field) {
        Some(j)
    } else {
        child_from(nodes, i, j + 1, field)
    }
}

/// The first child that a node holds under a field name.
pub open spec fn child(nodes: Seq<NodeView>, i: int, field: Seq<char>) -> Option<int> {
    child_from(nodes, i, i + 1, field)
}

/// Whether a node is held under a field name.
fn held_as(node: &SyntaxNode, field: &str) -> (r: bool)
    ensures
        r == (node@.field == Some(field@)),
{
    match &node.field {
        Some(name) => same_text(name.as_str(), field),
        None => false,
    }
}

/// The first child that a node holds under a field name.
pub fn find_child(nodes: &Vec<SyntaxNode>, parents: &Vec<Option<usize>>, i: usize, field: &str) -> (r: Option<usize>)
    requires
        i < nodes.len(),
        are_parents(parents@, node_views(nodes@)),
    ensures
        position(r) == child(node_views(nodes@), i as int, field@),
        r matches Some(c) ==> i < c < nodes.len(),
{
    let ghost views = node_views(nodes@);
    let mut j: usize = i + 1;
    while j < nodes.len() && nodes[j].depth > nodes[i].depth
        invariant
            i < j <= nodes.len(),
            views == node_views(nodes@),
            are_parents(parents@, views),
            child(views, i as int, field@) == child_from(views, i as int, j as int, field@),
        decreases nodes.len() - j,
    {
        assert(views[j as int] == nodes@[j as int]@);
        assert(views[i as int] == nodes@[i as int]@);
        let is_child = match parents[j] {
            Some(p) => p == i,
            None => false,
        };
        if is_child && held_as(&nodes[j], field) {
            return Some(j);
        }
        j = j + 1;
    }
    proof {
        if j < nodes.len() {
            assert(views[j as int] == nodes@[j as int]@);
            assert(views[i as int] == nodes@[i as int]@);
        }
    }
    None
}

/// The source text of a node.
pub open spec fn node_source(nodes: Seq<NodeView>, i: int, source: Seq<char>) -> Option<Seq<char>> {
    text_slice(source, nodes[i].start_byte as int, nodes[i].end_byte as int)
}

/// The source text of a node.
pub fn node_text<'a>(node: &SyntaxNode, source: &'a str) -> (r: Option<&'a str>)
    ensures
        match r {
            Some(text) => text_slice(source@, node.start_byte as int, node.end_byte as int) == Some(text@),
            None => text_slice(source@, node.start_byte as int, node.end_byte as int) is None,
        },
{
    slice(source, node.start_byte, node.end_byte)
}

} // verus!
