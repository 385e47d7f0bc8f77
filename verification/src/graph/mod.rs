//! The shape of what a change touches, as a graph of one comparison's
//! relationships.
//!
//! The model holds nodes, edges, and the rules that make a graph reproducible:
//! identities derived from paths and function identities, statuses taken from
//! membership or from the analysis, a bounded walk, a fixed ordering, and a
//! fixed truncation preference. Turning a graph into text lives in [`render`],
//! and deciding whether it is worth drawing in [`recommend`].

pub mod assembly;
pub mod callgraph;
pub mod calls;
pub mod cycles;
pub mod groups;
pub mod insertion;
pub mod reach;
pub mod recommend;
pub mod render;

use vstd::prelude::*;
use vstd::view::View as _;

use crate::collections::{TextMap, TextSet};
use crate::order::{
    arrange_by, by_rank, compare_numbers, lawful, lemma_arranged_ranked, lemma_lawful_by, lemma_lawful_otherwise, lemma_numbers_lawful,
    lemma_ranked, lemma_texts_lawful, number_rank, or_else, otherwise, picked, lemma_picked, lemma_picked_strictly, ranked, strictly,
};
use crate::text::{after_last, behind_last, compare, decimal, join2, number_text, same_text, text_rank, texts, Rank};

pub use reach::{walk, Reached};

verus! {

/// Hops from the root walked when a caller does not ask for a depth.
pub const DEFAULT_DEPTH: u32 = 1;

/// Shallowest walk that can say anything: the root's direct relationships.
pub const MIN_DEPTH: u32 = 1;

/// Deepest walk offered. Beyond three hops a module graph reaches most of a
/// package and stops describing the change.
pub const MAX_DEPTH: u32 = 3;

/// Nodes delivered when a caller does not ask for a budget.
pub const DEFAULT_MAX_NODES: usize = 30;

pub const MIN_MAX_NODES: usize = 3;

pub const MAX_MAX_NODES: usize = 100;

/// Edges delivered when a caller does not ask for a budget.
pub const DEFAULT_MAX_EDGES: usize = 60;

pub const MIN_MAX_EDGES: usize = 3;

pub const MAX_MAX_EDGES: usize = 200;

/// What a relationship can point at.
#[derive(Debug, Clone, Copy, PartialEq, Eq, PartialOrd, Ord, Hash, Structural)]
pub enum NodeKind {
    Module,
    Function,
    /// Several collapsed nodes, standing in for what a budget dropped.
    Group,
}

/// The name of a node kind.
pub open spec fn node_kind_word(kind: NodeKind) -> Seq<char> {
    match kind {
        NodeKind::Module => "module"@,
        NodeKind::Function => "function"@,
        NodeKind::Group => "group"@,
    }
}

/// The place of a node kind in the graph's order.
pub open spec fn node_kind_place(kind: NodeKind) -> int {
    match kind {
        NodeKind::Module => 0,
        NodeKind::Function => 1,
        NodeKind::Group => 2,
    }
}

impl NodeKind {
    #[must_use]
    pub fn name(self) -> (r: &'static str)
        ensures
            r@ == node_kind_word(self),
    {
        match self {
            NodeKind::Module => "module",
            NodeKind::Function => "function",
            NodeKind::Group => "group",
        }
    }

    fn place(self) -> (r: u64)
        ensures
            r == node_kind_place(self),
    {
        match self {
            NodeKind::Module => 0,
            NodeKind::Function => 1,
            NodeKind::Group => 2,
        }
    }
}

/// Whether a node is in one revision, the other, or both — and, for something
/// the analysis examined, what the comparison said about it.
#[derive(Debug, Clone, Copy, PartialEq, Eq, PartialOrd, Ord, Hash, Structural)]
pub enum NodeStatus {
    Added,
    Removed,
    Modified,
    Unchanged,
}

/// The name of a node status.
pub open spec fn node_status_word(status: NodeStatus) -> Seq<char> {
    match status {
        NodeStatus::Added => "added"@,
        NodeStatus::Removed => "removed"@,
        NodeStatus::Modified => "modified"@,
        NodeStatus::Unchanged => "unchanged"@,
    }
}

impl NodeStatus {
    #[must_use]
    pub fn name(self) -> (r: &'static str)
        ensures
            r@ == node_status_word(self),
    {
        match self {
            NodeStatus::Added => "added",
            NodeStatus::Removed => "removed",
            NodeStatus::Modified => "modified",
            NodeStatus::Unchanged => "unchanged",
        }
    }

    /// Whether the comparison touched this node at all.
    #[must_use]
    pub fn is_changed(self) -> (r: bool)
        ensures
            r == (self != NodeStatus::Unchanged),
    {
        self != NodeStatus::Unchanged
    }
}

/// Whether a relationship exists in one revision, the other, or both.
///
/// There is no `modified`: a relationship whose target changed is one removed
/// edge and one added edge, which is what a reader needs to see.
#[derive(Debug, Clone, Copy, PartialEq, Eq, PartialOrd, Ord, Hash, Structural)]
pub enum EdgeStatus {
    Added,
    Removed,
    Unchanged,
}

/// The name of an edge status.
pub open spec fn edge_status_word(status: EdgeStatus) -> Seq<char> {
    match status {
        EdgeStatus::Added => "added"@,
        EdgeStatus::Removed => "removed"@,
        EdgeStatus::Unchanged => "unchanged"@,
    }
}

/// Whether a relationship of a status is in the base revision.
pub open spec fn in_base(status: EdgeStatus) -> bool {
    status != EdgeStatus::Added
}

/// Whether a relationship of a status is in the target revision.
pub open spec fn in_target(status: EdgeStatus) -> bool {
    status != EdgeStatus::Removed
}

impl EdgeStatus {
    #[must_use]
    pub fn name(self) -> (r: &'static str)
        ensures
            r@ == edge_status_word(self),
    {
        match self {
            EdgeStatus::Added => "added",
            EdgeStatus::Removed => "removed",
            EdgeStatus::Unchanged => "unchanged",
        }
    }

    /// The status of a relationship present in the revisions named.
    #[must_use]
    pub fn from_membership(base: bool, target: bool) -> (r: Option<Self>)
        ensures
            r is None <==> !base && !target,
            r matches Some(status) ==> in_base(status) == base && in_target(status) == target,
    {
        match (base, target) {
            (true, true) => Some(EdgeStatus::Unchanged),
            (false, true) => Some(EdgeStatus::Added),
            (true, false) => Some(EdgeStatus::Removed),
            (false, false) => None,
        }
    }
}

/// What kind of relationship an edge reports.
///
/// There is no `called_by`: it is a `calls` edge read backwards. Direction of
/// travel belongs to the walk, not to the edge.
#[derive(Debug, Clone, Copy, PartialEq, Eq, PartialOrd, Ord, Hash, Structural)]
pub enum Relation {
    Calls,
    Imports,
    ReExports,
    ReferencesType,
    Extends,
    Implements,
    TestedBy,
    Contains,
    PossibleCall,
}

/// The name of a relation.
pub open spec fn relation_word(relation: Relation) -> Seq<char> {
    match relation {
        Relation::Calls => "calls"@,
        Relation::Imports => "imports"@,
        Relation::ReExports => "re_exports"@,
        Relation::ReferencesType => "references_type"@,
        Relation::Extends => "extends"@,
        Relation::Implements => "implements"@,
        Relation::TestedBy => "tested_by"@,
        Relation::Contains => "contains"@,
        Relation::PossibleCall => "possible_call"@,
    }
}

/// The place of a relation in the graph's order.
pub open spec fn relation_place(relation: Relation) -> int {
    match relation {
        Relation::Calls => 0,
        Relation::Imports => 1,
        Relation::ReExports => 2,
        Relation::ReferencesType => 3,
        Relation::Extends => 4,
        Relation::Implements => 5,
        Relation::TestedBy => 6,
        Relation::Contains => 7,
        Relation::PossibleCall => 8,
    }
}

/// The relations that are resolved, in the order they are reported.
///
/// The vocabulary is larger; a relation outside this list is rejected by name
/// rather than answered with silence.
pub open spec fn supported_relations() -> Seq<Relation> {
    seq![Relation::Imports, Relation::TestedBy]
}

/// The supported relation of a name.
pub open spec fn relation_named(name: Seq<char>) -> Option<Relation> {
    if name == "imports"@ {
        Some(Relation::Imports)
    } else if name == "tested_by"@ {
        Some(Relation::TestedBy)
    } else {
        None
    }
}

/// Exactly the supported relations are found under their names.
pub proof fn lemma_relation_round_trip(relation: Relation)
    ensures
        relation_named(relation_word(relation)) == if supported_relations().contains(relation) {
            Some(relation)
        } else {
            None
        },
{
    reveal_strlit("calls");
    reveal_strlit("imports");
    reveal_strlit("re_exports");
    reveal_strlit("references_type");
    reveal_strlit("extends");
    reveal_strlit("implements");
    reveal_strlit("tested_by");
    reveal_strlit("contains");
    reveal_strlit("possible_call");
    assert(supported_relations()[0] == Relation::Imports);
    assert(supported_relations()[1] == Relation::TestedBy);
    assert("imports"@[1] == 'm' && "imports"@[2] == 'p' && "imports"@[3] == 'o' && "implements"@[3] == 'l' && "tested_by"@[0] == 't');
    assert("calls"@[0] == 'c' && "re_exports"@[0] == 'r' && "references_type"@[0] == 'r' && "extends"@[0] == 'e' && "contains"@[0] == 'c'
        && "possible_call"@[0] == 'p' && "imports"@[0] == 'i');
}

impl Relation {
    #[must_use]
    pub fn name(self) -> (r: &'static str)
        ensures
            r@ == relation_word(self),
    {
        match self {
            Relation::Calls => "calls",
            Relation::Imports => "imports",
            Relation::ReExports => "re_exports",
            Relation::ReferencesType => "references_type",
            Relation::Extends => "extends",
            Relation::Implements => "implements",
            Relation::TestedBy => "tested_by",
            Relation::Contains => "contains",
            Relation::PossibleCall => "possible_call",
        }
    }

    fn place(self) -> (r: u64)
        ensures
            r == relation_place(self),
    {
        match self {
            Relation::Calls => 0,
            Relation::Imports => 1,
            Relation::ReExports => 2,
            Relation::ReferencesType => 3,
            Relation::Extends => 4,
            Relation::Implements => 5,
            Relation::TestedBy => 6,
            Relation::Contains => 7,
            Relation::PossibleCall => 8,
        }
    }

    /// The relations that are resolved, in the order they are reported.
    #[must_use]
    pub fn supported() -> (r: Vec<Relation>)
        ensures
            r@ == supported_relations(),
    {
        let mut out: Vec<Relation> = Vec::new();
        out.push(Relation::Imports);
        out.push(Relation::TestedBy);
        assert(out@ =~= supported_relations());
        out
    }

    /// The supported relation this name refers to.
    ///
    /// A name in the vocabulary but outside the supported ones is not accepted:
    /// answering with an empty edge set would report "no such relationship" for
    /// a relationship that is never looked for.
    #[must_use]
    pub fn parse(value: &str) -> (r: Option<Self>)
        ensures
            r == relation_named(value@),
    {
        if same_text(value, "imports") {
            Some(Relation::Imports)
        } else if same_text(value, "tested_by") {
            Some(Relation::TestedBy)
        } else {
            None
        }
    }

    /// The supported relations, named for an error message.
    #[must_use]
    pub fn accepted() -> (r: String)
        ensures
            r@ == relation_word(supported_relations()[0]) + ", "@ + relation_word(supported_relations()[1]),
    {
        let mut out = join2("imports", ", ");
        out.append("tested_by");
        out
    }
}

/// How an edge was resolved, and therefore how much it can be trusted.
#[derive(Debug, Clone, Copy, PartialEq, Eq, PartialOrd, Ord, Hash, Structural)]
pub enum Resolution {
    /// An import statement whose specifier resolved to a path in the revision.
    ResolvedSpecifier,
    /// A test file imports the module directly.
    TestImportsModule,
    /// A test file's name matches the module's, after extensions and suffixes.
    TestNameMatchesModule,
    /// An export clause that forwards another module.
    ExportClause,
    /// A declaration written in the module itself.
    Declaration,
    /// A name that the caller's own file declares once.
    DirectLocalSymbol,
    /// A name that the caller imports from the module that declares it.
    ImportedSymbol,
    /// A name that the caller imports from a module that forwards it.
    ReExportedSymbol,
    /// A property name that only one function in sight has.
    PropertyNameMatch,
}

/// The name of a resolution.
pub open spec fn resolution_word(resolution: Resolution) -> Seq<char> {
    match resolution {
        Resolution::ResolvedSpecifier => "resolved_specifier"@,
        Resolution::TestImportsModule => "test_imports_module"@,
        Resolution::TestNameMatchesModule => "test_name_matches_module"@,
        Resolution::ExportClause => "export_clause"@,
        Resolution::Declaration => "declaration"@,
        Resolution::DirectLocalSymbol => "direct_local_symbol"@,
        Resolution::ImportedSymbol => "imported_symbol"@,
        Resolution::ReExportedSymbol => "re_exported_symbol"@,
        Resolution::PropertyNameMatch => "property_name_match"@,
    }
}

/// The place of a resolution in the graph's order.
pub open spec fn resolution_place(resolution: Resolution) -> int {
    match resolution {
        Resolution::ResolvedSpecifier => 0,
        Resolution::TestImportsModule => 1,
        Resolution::TestNameMatchesModule => 2,
        Resolution::ExportClause => 3,
        Resolution::Declaration => 4,
        Resolution::DirectLocalSymbol => 5,
        Resolution::ImportedSymbol => 6,
        Resolution::ReExportedSymbol => 7,
        Resolution::PropertyNameMatch => 8,
    }
}

/// The confidence of a resolution, in hundredths.
pub open spec fn resolution_confidence(resolution: Resolution) -> u32 {
    match resolution {
        Resolution::TestImportsModule => 90,
        Resolution::TestNameMatchesModule => 80,
        Resolution::ReExportedSymbol => 90,
        Resolution::PropertyNameMatch => 50,
        _ => 100,
    }
}

impl Resolution {
    #[must_use]
    pub fn name(self) -> (r: &'static str)
        ensures
            r@ == resolution_word(self),
    {
        match self {
            Resolution::ResolvedSpecifier => "resolved_specifier",
            Resolution::TestImportsModule => "test_imports_module",
            Resolution::TestNameMatchesModule => "test_name_matches_module",
            Resolution::ExportClause => "export_clause",
            Resolution::Declaration => "declaration",
            Resolution::DirectLocalSymbol => "direct_local_symbol",
            Resolution::ImportedSymbol => "imported_symbol",
            Resolution::ReExportedSymbol => "re_exported_symbol",
            Resolution::PropertyNameMatch => "property_name_match",
        }
    }

    fn place(self) -> (r: u64)
        ensures
            r == resolution_place(self),
    {
        match self {
            Resolution::ResolvedSpecifier => 0,
            Resolution::TestImportsModule => 1,
            Resolution::TestNameMatchesModule => 2,
            Resolution::ExportClause => 3,
            Resolution::Declaration => 4,
            Resolution::DirectLocalSymbol => 5,
            Resolution::ImportedSymbol => 6,
            Resolution::ReExportedSymbol => 7,
            Resolution::PropertyNameMatch => 8,
        }
    }

    /// Confidence that the relationship this edge reports is real, in
    /// hundredths.
    ///
    /// Fixed per resolution rather than computed, so two runs cannot disagree.
    #[must_use]
    pub fn confidence(self) -> (r: u32)
        ensures
            r == resolution_confidence(self),
    {
        match self {
            Resolution::TestImportsModule => 90,
            Resolution::TestNameMatchesModule => 80,
            Resolution::ReExportedSymbol => 90,
            Resolution::PropertyNameMatch => 50,
            Resolution::ResolvedSpecifier | Resolution::ExportClause | Resolution::Declaration | Resolution::DirectLocalSymbol
            | Resolution::ImportedSymbol => 100,
        }
    }
}

/// Which way a walk follows edges.
#[derive(Debug, Clone, Copy, PartialEq, Eq, Structural)]
pub enum Direction {
    /// What reaches the root.
    Upstream,
    /// What the root reaches.
    Downstream,
    Both,
}

impl Default for Direction {
    fn default() -> (r: Self)
        ensures
            r == Direction::Both,
    {
        Direction::Both
    }
}

/// The name of a direction.
pub open spec fn direction_word(direction: Direction) -> Seq<char> {
    match direction {
        Direction::Upstream => "upstream"@,
        Direction::Downstream => "downstream"@,
        Direction::Both => "both"@,
    }
}

/// The direction of a name.
pub open spec fn direction_named(name: Seq<char>) -> Option<Direction> {
    if name == "upstream"@ {
        Some(Direction::Upstream)
    } else if name == "downstream"@ {
        Some(Direction::Downstream)
    } else if name == "both"@ {
        Some(Direction::Both)
    } else {
        None
    }
}

/// Every direction is found under its name, and under no other.
pub proof fn lemma_direction_round_trip(direction: Direction, name: Seq<char>)
    ensures
        direction_named(direction_word(direction)) == Some(direction),
        direction_named(name) == Some(direction) ==> name == direction_word(direction),
{
    reveal_strlit("upstream");
    reveal_strlit("downstream");
    reveal_strlit("both");
    assert("upstream"@[0] == 'u' && "downstream"@[0] == 'd' && "both"@[0] == 'b');
}

impl Direction {
    #[must_use]
    pub fn name(self) -> (r: &'static str)
        ensures
            r@ == direction_word(self),
    {
        match self {
            Direction::Upstream => "upstream",
            Direction::Downstream => "downstream",
            Direction::Both => "both",
        }
    }

    #[must_use]
    pub fn parse(value: &str) -> (r: Option<Self>)
        ensures
            r == direction_named(value@),
    {
        if same_text(value, "upstream") {
            Some(Direction::Upstream)
        } else if same_text(value, "downstream") {
            Some(Direction::Downstream)
        } else if same_text(value, "both") {
            Some(Direction::Both)
        } else {
            None
        }
    }

    /// Whether a walk in this direction follows edges backwards.
    #[must_use]
    pub fn follows_upstream(self) -> (r: bool)
        ensures
            r == reach::follows(self, Direction::Upstream),
    {
        match self {
            Direction::Upstream | Direction::Both => true,
            Direction::Downstream => false,
        }
    }

    /// Whether a walk in this direction follows edges forwards.
    #[must_use]
    pub fn follows_downstream(self) -> (r: bool)
        ensures
            r == reach::follows(self, Direction::Downstream),
    {
        match self {
            Direction::Downstream | Direction::Both => true,
            Direction::Upstream => false,
        }
    }
}

/// Which revision's relationships are shown.
///
/// A view narrows what is shown; it never rewrites what is true, so an edge
/// shown under `target` still reads `added`.
#[derive(Debug, Clone, Copy, PartialEq, Eq, Structural)]
pub enum View {
    Delta,
    Base,
    Target,
}

impl Default for View {
    fn default() -> (r: Self)
        ensures
            r == View::Delta,
    {
        View::Delta
    }
}

/// The name of a view.
pub open spec fn view_word(view: View) -> Seq<char> {
    match view {
        View::Delta => "delta"@,
        View::Base => "base"@,
        View::Target => "target"@,
    }
}

/// The view of a name.
pub open spec fn view_named(name: Seq<char>) -> Option<View> {
    if name == "delta"@ {
        Some(View::Delta)
    } else if name == "base"@ {
        Some(View::Base)
    } else if name == "target"@ {
        Some(View::Target)
    } else {
        None
    }
}

/// Every view is found under its name, and under no other.
pub proof fn lemma_view_round_trip(view: View, name: Seq<char>)
    ensures
        view_named(view_word(view)) == Some(view),
        view_named(name) == Some(view) ==> name == view_word(view),
{
    reveal_strlit("delta");
    reveal_strlit("base");
    reveal_strlit("target");
    assert("delta"@[0] == 'd' && "base"@[0] == 'b' && "target"@[0] == 't');
}

/// Whether a view shows an edge of a status.
pub open spec fn shows(view: View, status: EdgeStatus) -> bool {
    match view {
        View::Delta => true,
        View::Base => in_base(status),
        View::Target => in_target(status),
    }
}

impl View {
    #[must_use]
    pub fn name(self) -> (r: &'static str)
        ensures
            r@ == view_word(self),
    {
        match self {
            View::Delta => "delta",
            View::Base => "base",
            View::Target => "target",
        }
    }

    #[must_use]
    pub fn parse(value: &str) -> (r: Option<Self>)
        ensures
            r == view_named(value@),
    {
        if same_text(value, "delta") {
            Some(View::Delta)
        } else if same_text(value, "base") {
            Some(View::Base)
        } else if same_text(value, "target") {
            Some(View::Target)
        } else {
            None
        }
    }

    /// Whether an edge of this status belongs in this view.
    #[must_use]
    pub fn includes(self, status: EdgeStatus) -> (r: bool)
        ensures
            r == shows(self, status),
    {
        match self {
            View::Delta => true,
            View::Base => status != EdgeStatus::Added,
            View::Target => status != EdgeStatus::Removed,
        }
    }
}

/// Where a relationship is written, when a single site produced it.
#[derive(Debug, Clone, PartialEq, Eq, PartialOrd, Ord)]
pub struct Evidence {
    pub file: String,
    pub line: u32,
}

/// Something a relationship can point at.
#[derive(Debug, Clone, PartialEq, Eq)]
pub struct Node {
    /// Stable identity within one analysis: `module:<path>`, or
    /// `function:<function_id>`.
    pub id: String,
    /// Short render key, `n0`…`nN`, assigned in the delivered graph's order.
    pub key: String,
    /// A file basename, or a qualified function name.
    pub label: String,
    pub kind: NodeKind,
    /// Repository-relative path: the target side when there is one.
    pub path: String,
    pub status: NodeStatus,
    /// Fewest hops by which the walk reached this node. Zero for a root.
    pub depth: u32,
}

/// A node by what its texts hold.
#[verifier::ext_equal]
pub struct NodeView {
    pub id: Seq<char>,
    pub key: Seq<char>,
    pub label: Seq<char>,
    pub kind: NodeKind,
    pub path: Seq<char>,
    pub status: NodeStatus,
    pub depth: u32,
}

impl vstd::view::View for Node {
    type V = NodeView;

    open spec fn view(&self) -> NodeView {
        NodeView {
            id: self.id@,
            key: self.key@,
            label: self.label@,
            kind: self.kind,
            path: self.path@,
            status: self.status,
            depth: self.depth,
        }
    }
}

/// The views of a sequence of nodes.
pub open spec fn node_views(nodes: Seq<Node>) -> Seq<NodeView> {
    nodes.map_values(|n: Node| n@)
}

/// The identity of the module at a path.
pub open spec fn module_identity(path: Seq<char>) -> Seq<char> {
    "module:"@ + path
}

/// The identity of a function.
pub open spec fn function_identity(function_id: Seq<char>) -> Seq<char> {
    "function:"@ + function_id
}

/// The last segment of a path.
pub open spec fn last_segment(path: Seq<char>) -> Seq<char> {
    match behind_last(path, '/') {
        Some(name) => name,
        None => path,
    }
}

/// Where one node stands relative to another: by kind, path and label, and by
/// identity where those are the same.
pub open spec fn node_rank(a: NodeView, b: NodeView) -> Rank {
    otherwise(
        number_rank(node_kind_place(a.kind), node_kind_place(b.kind)),
        otherwise(text_rank(a.path, b.path), otherwise(text_rank(a.label, b.label), text_rank(a.id, b.id))),
    )
}

/// The ranks of the graph's node order.
pub open spec fn node_order() -> spec_fn(NodeView, NodeView) -> Rank {
    |a: NodeView, b: NodeView| node_rank(a, b)
}

impl Node {
    /// The identity of the module at `path`.
    #[must_use]
    pub fn module_id(path: &str) -> (r: String)
        ensures
            r@ == module_identity(path@),
    {
        join2("module:", path)
    }

    /// The identity of the function the analysis calls `function_id`.
    #[must_use]
    pub fn function_id(function_id: &str) -> (r: String)
        ensures
            r@ == function_identity(function_id@),
    {
        join2("function:", function_id)
    }

    /// The last path segment, which is what a diagram shows.
    #[must_use]
    pub fn basename(path: &str) -> (r: String)
        ensures
            r@ == last_segment(path@),
    {
        match after_last(path, '/') {
            Some(name) => name,
            None => path.to_owned(),
        }
    }

    /// An equal node.
    pub fn copy(&self) -> (r: Node)
        ensures
            r@ == self@,
    {
        Node {
            id: self.id.clone(),
            key: self.key.clone(),
            label: self.label.clone(),
            kind: self.kind,
            path: self.path.clone(),
            status: self.status,
            depth: self.depth,
        }
    }
}

fn compare_nodes(a: &Node, b: &Node) -> (r: Rank)
    ensures
        r == node_rank(a@, b@),
{
    or_else(
        compare_numbers(a.kind.place(), b.kind.place()),
        or_else(
            compare(a.path.as_str(), b.path.as_str()),
            or_else(compare(a.label.as_str(), b.label.as_str()), compare(a.id.as_str(), b.id.as_str())),
        ),
    )
}

/// One resolved relationship, carrying the evidence for itself.
#[derive(Debug, Clone, PartialEq, Eq)]
pub struct Edge {
    pub from: String,
    pub to: String,
    pub relation: Relation,
    pub status: EdgeStatus,
    pub resolution: Resolution,
    pub evidence: Option<Evidence>,
}

/// An edge by what its texts hold.
#[verifier::ext_equal]
pub struct EdgeView {
    pub from: Seq<char>,
    pub to: Seq<char>,
    pub relation: Relation,
    pub status: EdgeStatus,
    pub resolution: Resolution,
    pub evidence: Option<(Seq<char>, u32)>,
}

impl vstd::view::View for Edge {
    type V = EdgeView;

    open spec fn view(&self) -> EdgeView {
        EdgeView {
            from: self.from@,
            to: self.to@,
            relation: self.relation,
            status: self.status,
            resolution: self.resolution,
            evidence: match self.evidence {
                Some(e) => Some((e.file@, e.line)),
                None => None,
            },
        }
    }
}

/// The views of a sequence of edges.
pub open spec fn edge_views(edges: Seq<Edge>) -> Seq<EdgeView> {
    edges.map_values(|e: Edge| e@)
}

/// Where one edge stands relative to another: by source, relation, target and
/// resolution. A removal and the addition that replaced it sit together.
pub open spec fn edge_rank(a: EdgeView, b: EdgeView) -> Rank {
    otherwise(
        text_rank(a.from, b.from),
        otherwise(
            number_rank(relation_place(a.relation), relation_place(b.relation)),
            otherwise(text_rank(a.to, b.to), number_rank(resolution_place(a.resolution), resolution_place(b.resolution))),
        ),
    )
}

/// The ranks of the graph's edge order.
pub open spec fn edge_order() -> spec_fn(EdgeView, EdgeView) -> Rank {
    |a: EdgeView, b: EdgeView| edge_rank(a, b)
}

impl Edge {
    /// Confidence that the relationship is real, in hundredths.
    #[must_use]
    pub fn confidence(&self) -> (r: u32)
        ensures
            r == resolution_confidence(self.resolution),
    {
        self.resolution.confidence()
    }
}

fn compare_edges(a: &Edge, b: &Edge) -> (r: Rank)
    ensures
        r == edge_rank(a@, b@),
{
    or_else(
        compare(a.from.as_str(), b.from.as_str()),
        or_else(
            compare_numbers(a.relation.place(), b.relation.place()),
            or_else(
                compare(a.to.as_str(), b.to.as_str()),
                compare_numbers(a.resolution.place(), b.resolution.place()),
            ),
        ),
    )
}

/// The node order is lawful, and no two identities share a place in it.
pub proof fn lemma_node_order()
    ensures
        lawful(node_order()),
        forall|a: NodeView, b: NodeView| #[trigger] node_rank(a, b) == Rank::Same ==> a.id == b.id,
{
    lemma_numbers_lawful();
    lemma_texts_lawful();
    let numbers = |a: int, b: int| number_rank(a, b);
    let words = |a: Seq<char>, b: Seq<char>| text_rank(a, b);
    let kind = |n: NodeView| node_kind_place(n.kind);
    let path = |n: NodeView| n.path;
    let label = |n: NodeView| n.label;
    let id = |n: NodeView| n.id;
    lemma_lawful_by(numbers, kind);
    lemma_lawful_by(words, path);
    lemma_lawful_by(words, label);
    lemma_lawful_by(words, id);
    let by_kind = |a: NodeView, b: NodeView| numbers(kind(a), kind(b));
    let by_path = |a: NodeView, b: NodeView| words(path(a), path(b));
    let by_label = |a: NodeView, b: NodeView| words(label(a), label(b));
    let by_id = |a: NodeView, b: NodeView| words(id(a), id(b));
    lemma_lawful_otherwise(by_label, by_id);
    let last = |a: NodeView, b: NodeView| otherwise(by_label(a, b), by_id(a, b));
    lemma_lawful_otherwise(by_path, last);
    let later = |a: NodeView, b: NodeView| otherwise(by_path(a, b), last(a, b));
    lemma_lawful_otherwise(by_kind, later);
    assert(node_order() =~= |a: NodeView, b: NodeView| otherwise(by_kind(a, b), later(a, b)));
}

/// The edge order is lawful.
pub proof fn lemma_edge_order()
    ensures
        lawful(edge_order()),
{
    lemma_numbers_lawful();
    lemma_texts_lawful();
    let numbers = |a: int, b: int| number_rank(a, b);
    let words = |a: Seq<char>, b: Seq<char>| text_rank(a, b);
    let from = |e: EdgeView| e.from;
    let relation = |e: EdgeView| relation_place(e.relation);
    let to = |e: EdgeView| e.to;
    let resolution = |e: EdgeView| resolution_place(e.resolution);
    lemma_lawful_by(words, from);
    lemma_lawful_by(numbers, relation);
    lemma_lawful_by(words, to);
    lemma_lawful_by(numbers, resolution);
    let by_from = |a: EdgeView, b: EdgeView| words(from(a), from(b));
    let by_relation = |a: EdgeView, b: EdgeView| numbers(relation(a), relation(b));
    let by_to = |a: EdgeView, b: EdgeView| words(to(a), to(b));
    let by_resolution = |a: EdgeView, b: EdgeView| numbers(resolution(a), resolution(b));
    lemma_lawful_otherwise(by_to, by_resolution);
    let last = |a: EdgeView, b: EdgeView| otherwise(by_to(a, b), by_resolution(a, b));
    lemma_lawful_otherwise(by_relation, last);
    let later = |a: EdgeView, b: EdgeView| otherwise(by_relation(a, b), last(a, b));
    lemma_lawful_otherwise(by_from, later);
    assert(edge_order() =~= |a: EdgeView, b: EdgeView| otherwise(by_from(a, b), later(a, b)));
}

/// Which budget a graph ran into.
#[derive(Debug, Clone, Copy, PartialEq, Eq, Structural)]
pub enum TruncationReason {
    MaxNodes,
    MaxEdges,
}

/// The name of a truncation reason.
pub open spec fn truncation_word(reason: TruncationReason) -> Seq<char> {
    match reason {
        TruncationReason::MaxNodes => "max_nodes"@,
        TruncationReason::MaxEdges => "max_edges"@,
    }
}

impl TruncationReason {
    #[must_use]
    pub fn name(self) -> (r: &'static str)
        ensures
            r@ == truncation_word(self),
    {
        match self {
            TruncationReason::MaxNodes => "max_nodes",
            TruncationReason::MaxEdges => "max_edges",
        }
    }
}

/// How much of a graph an answer will carry.
#[derive(Debug, Clone, Copy, PartialEq, Eq, Structural)]
pub struct Limits {
    pub max_nodes: usize,
    pub max_edges: usize,
}

impl Default for Limits {
    fn default() -> (r: Self)
        ensures
            r == (Limits { max_nodes: DEFAULT_MAX_NODES, max_edges: DEFAULT_MAX_EDGES }),
    {
        Limits { max_nodes: DEFAULT_MAX_NODES, max_edges: DEFAULT_MAX_EDGES }
    }
}

/// A number kept between two bounds.
pub open spec fn kept_between(value: int, low: int, high: int) -> int {
    if value < low {
        low
    } else if value > high {
        high
    } else {
        value
    }
}

/// A requested number, or the default where none is, within its bounds.
pub open spec fn bounded(value: Option<usize>, default: usize, low: usize, high: usize) -> int {
    kept_between(
        match value {
            Some(n) => n as int,
            None => default as int,
        },
        low as int,
        high as int,
    )
}

fn bound(value: Option<usize>, default: usize, low: usize, high: usize) -> (r: usize)
    requires
        low <= high,
    ensures
        r == bounded(value, default, low, high),
{
    let asked: usize = match value {
        Some(n) => n,
        None => default,
    };
    if asked < low {
        low
    } else if asked > high {
        high
    } else {
        asked
    }
}

impl Limits {
    /// The budgets a request is applied with, after defaults and bounds.
    ///
    /// Two requests differing only in an out-of-range budget mean the same
    /// graph.
    #[must_use]
    pub fn canonical(max_nodes: Option<usize>, max_edges: Option<usize>) -> (r: Self)
        ensures
            r.max_nodes == bounded(max_nodes, DEFAULT_MAX_NODES, MIN_MAX_NODES, MAX_MAX_NODES),
            r.max_edges == bounded(max_edges, DEFAULT_MAX_EDGES, MIN_MAX_EDGES, MAX_MAX_EDGES),
    {
        Limits {
            max_nodes: bound(max_nodes, DEFAULT_MAX_NODES, MIN_MAX_NODES, MAX_MAX_NODES),
            max_edges: bound(max_edges, DEFAULT_MAX_EDGES, MIN_MAX_EDGES, MAX_MAX_EDGES),
        }
    }
}

/// The depth that a request is applied with.
pub open spec fn applied_depth(depth: Option<u32>) -> int {
    kept_between(
        match depth {
            Some(n) => n as int,
            None => DEFAULT_DEPTH as int,
        },
        MIN_DEPTH as int,
        MAX_DEPTH as int,
    )
}

/// The depth a request is applied with, after defaults and bounds.
#[must_use]
pub fn canonical_depth(depth: Option<u32>) -> (r: u32)
    ensures
        r == applied_depth(depth),
{
    let asked: u32 = match depth {
        Some(n) => n,
        None => DEFAULT_DEPTH,
    };
    if asked < MIN_DEPTH {
        MIN_DEPTH
    } else if asked > MAX_DEPTH {
        MAX_DEPTH
    } else {
        asked
    }
}

/// What is applied is within the bounds, and asking for it again changes
/// nothing.
pub proof fn lemma_bounds_settle(value: Option<usize>, default: usize, low: usize, high: usize)
    requires
        low <= high,
    ensures
        low <= bounded(value, default, low, high) <= high,
        bounded(Some(bounded(value, default, low, high) as usize), default, low, high) == bounded(value, default, low, high),
{
}

/// Why several nodes were collapsed into one.
#[derive(Debug, Clone, Copy, PartialEq, Eq, PartialOrd, Ord, Hash, Structural)]
pub enum GroupRole {
    /// Tests that point at something in the graph.
    Tests,
    Generated,
    Vendored,
    Lockfile,
    /// What a budget left out on the side that reaches the root.
    Callers,
    /// What a budget left out on the side that the root reaches.
    Dependencies,
}

/// The name of a role.
pub open spec fn role_word(role: GroupRole) -> Seq<char> {
    match role {
        GroupRole::Tests => "tests"@,
        GroupRole::Generated => "generated"@,
        GroupRole::Vendored => "vendored"@,
        GroupRole::Lockfile => "lockfile"@,
        GroupRole::Callers => "callers"@,
        GroupRole::Dependencies => "dependencies"@,
    }
}

impl GroupRole {
    #[must_use]
    pub fn name(self) -> (r: &'static str)
        ensures
            r@ == role_word(self),
    {
        match self {
            GroupRole::Tests => "tests",
            GroupRole::Generated => "generated",
            GroupRole::Vendored => "vendored",
            GroupRole::Lockfile => "lockfile",
            GroupRole::Callers => "callers",
            GroupRole::Dependencies => "dependencies",
        }
    }
}

/// The identity of the group of a role.
pub open spec fn group_identity(role: GroupRole) -> Seq<char> {
    "group:"@ + role_word(role)
}

impl Node {
    /// The identity of the group that a role is addressed by.
    #[must_use]
    pub fn group_id(role: GroupRole) -> (r: String)
        ensures
            r@ == group_identity(role),
    {
        join2("group:", role.name())
    }
}

/// What a group node collapses.
#[derive(Debug, Clone, Copy, PartialEq, Eq, Structural)]
pub struct Group {
    /// How many nodes it stands for.
    pub size: u32,
    pub role: GroupRole,
}

/// What a graph's answer may lack for want of evidence.
#[derive(Debug, Clone, PartialEq, Eq)]
pub struct Completeness {
    /// Files in scope whose imports were read only up to the scan limit.
    pub scan_truncated_files: u32,
    /// Specifiers in scope that named no file of their revision.
    pub unresolved_specifiers: u32,
    /// Call sites that no rule resolved.
    pub unresolved_calls: u32,
    /// The relations that are resolved.
    pub relations_supported: Vec<Relation>,
}

/// Completeness by what it holds.
#[verifier::ext_equal]
pub struct CompletenessView {
    pub scan_truncated_files: u32,
    pub unresolved_specifiers: u32,
    pub unresolved_calls: u32,
    pub relations_supported: Seq<Relation>,
}

impl vstd::view::View for Completeness {
    type V = CompletenessView;

    open spec fn view(&self) -> CompletenessView {
        CompletenessView {
            scan_truncated_files: self.scan_truncated_files,
            unresolved_specifiers: self.unresolved_specifiers,
            unresolved_calls: self.unresolved_calls,
            relations_supported: self.relations_supported@,
        }
    }
}

/// Completeness with nothing lacking.
pub open spec fn nothing_lacks() -> CompletenessView {
    CompletenessView { scan_truncated_files: 0, unresolved_specifiers: 0, unresolved_calls: 0, relations_supported: supported_relations() }
}

impl Default for Completeness {
    fn default() -> (r: Self)
        ensures
            r@ == nothing_lacks(),
    {
        Completeness {
            scan_truncated_files: 0,
            unresolved_specifiers: 0,
            unresolved_calls: 0,
            relations_supported: Relation::supported(),
        }
    }
}

/// One delivered graph: ordered, bounded, and keyed.
#[derive(Debug, Clone, PartialEq, Eq)]
pub struct Graph {
    nodes: Vec<Node>,
    edges: Vec<Edge>,
    roots: Vec<String>,
    truncated: bool,
    omitted_nodes: u32,
    omitted_edges: u32,
    reasons: Vec<TruncationReason>,
    groups: Vec<Group>,
    completeness: Completeness,
}

/// A graph by what its lists hold.
#[verifier::ext_equal]
pub struct GraphView {
    pub nodes: Seq<NodeView>,
    pub edges: Seq<EdgeView>,
    pub roots: Seq<Seq<char>>,
    pub truncated: bool,
    pub omitted_nodes: u32,
    pub omitted_edges: u32,
    pub reasons: Seq<TruncationReason>,
    pub groups: Seq<Group>,
    pub completeness: CompletenessView,
}

impl vstd::view::View for Graph {
    type V = GraphView;

    closed spec fn view(&self) -> GraphView {
        GraphView {
            nodes: node_views(self.nodes@),
            edges: edge_views(self.edges@),
            roots: texts(self.roots@),
            truncated: self.truncated,
            omitted_nodes: self.omitted_nodes,
            omitted_edges: self.omitted_edges,
            reasons: self.reasons@,
            groups: self.groups@,
            completeness: self.completeness@,
        }
    }
}

impl Default for Graph {
    fn default() -> (r: Self)
        ensures
            r@ == empty_graph(),
    {
        Graph::from_parts(Vec::new(), Vec::new())
    }
}

/// A graph of nothing.
pub open spec fn empty_graph() -> GraphView {
    whole_graph(Seq::empty(), Seq::empty())
}

/// A graph that is delivered whole, without roots.
pub open spec fn whole_graph(nodes: Seq<NodeView>, edges: Seq<EdgeView>) -> GraphView {
    GraphView {
        nodes,
        edges,
        roots: Seq::empty(),
        truncated: false,
        omitted_nodes: 0,
        omitted_edges: 0,
        reasons: Seq::empty(),
        groups: Seq::empty(),
        completeness: nothing_lacks(),
    }
}

impl Graph {
    /// A graph of given nodes and edges, as they are.
    ///
    /// Nothing checks that the edges end at the nodes: a rendering leaves out
    /// an edge that does not.
    #[must_use]
    pub fn from_parts(nodes: Vec<Node>, edges: Vec<Edge>) -> (r: Self)
        ensures
            r@ == whole_graph(node_views(nodes@), edge_views(edges@)),
    {
        let r = Graph {
            nodes,
            edges,
            roots: Vec::new(),
            truncated: false,
            omitted_nodes: 0,
            omitted_edges: 0,
            reasons: Vec::new(),
            groups: Vec::new(),
            completeness: Completeness::default(),
        };
        assert(r@ =~= whole_graph(node_views(nodes@), edge_views(edges@)));
        r
    }
}

/// The condition of a group that a graph delivers its node.
pub open spec fn has_group_node(graph: GraphView) -> spec_fn(Group) -> bool {
    |g: Group| is_node(graph, group_identity(g.role))
}

/// A delivered graph with what is said of it: the groups among its nodes, the
/// nodes that a budget cost in groups, and what it may lack.
pub open spec fn reported(graph: GraphView, groups: Seq<Group>, omitted: nat, completeness: CompletenessView) -> GraphView {
    GraphView {
        truncated: graph.truncated || omitted > 0,
        omitted_nodes: crate::analysis::saturated(graph.omitted_nodes as nat + omitted),
        reasons: if omitted > 0 && !graph.reasons.contains(TruncationReason::MaxNodes) {
            seq![TruncationReason::MaxNodes] + graph.reasons
        } else {
            graph.reasons
        },
        groups: picked(groups, has_group_node(graph)),
        completeness,
        ..graph
    }
}

proof fn lemma_node_with(nodes: Seq<NodeView>, id: Seq<char>)
    ensures
        node_with(nodes, id) is Some <==> exists|i: int| 0 <= i < nodes.len() && (#[trigger] nodes[i]).id == id,
    decreases nodes.len(),
{
    if nodes.len() > 0 {
        let rest = nodes.drop_first();
        lemma_node_with(rest, id);
        if exists|i: int| 0 <= i < nodes.len() && (#[trigger] nodes[i]).id == id {
            let i = choose|i: int| 0 <= i < nodes.len() && (#[trigger] nodes[i]).id == id;
            if i > 0 {
                assert(rest[i - 1].id == id);
            }
        }
        if exists|i: int| 0 <= i < rest.len() && (#[trigger] rest[i]).id == id {
            let i = choose|i: int| 0 <= i < rest.len() && (#[trigger] rest[i]).id == id;
            assert(nodes[i + 1].id == id);
        }
    }
}

impl Graph {
    /// The groups of which the graph delivers the node.
    fn shown_groups(&self, groups: &Vec<Group>) -> (r: Vec<Group>)
        ensures
            r@ == picked(groups@, has_group_node(self@)),
    {
        let ghost keep = has_group_node(self@);
        let mut out: Vec<Group> = Vec::new();
        let mut i: usize = 0;
        assert(out@ =~= picked(groups@.take(0), keep));
        while i < groups.len()
            invariant
                i <= groups.len(),
                keep == has_group_node(self@),
                out@ == picked(groups@.take(i as int), keep),
            decreases groups.len() - i,
        {
            assert(groups@.take(i + 1).drop_last() =~= groups@.take(i as int));
            let id = Node::group_id(groups[i].role);
            proof {
                lemma_node_with(self@.nodes, id@);
            }
            if self.node(id.as_str()).is_some() {
                out.push(groups[i]);
            }
            i = i + 1;
        }
        assert(groups@.take(i as int) =~= groups@);
        out
    }

    /// Say what a delivered graph's groups stand for, how many nodes they cost
    /// it, and what it may lack.
    pub(crate) fn report(self, groups: Vec<Group>, omitted: usize, completeness: Completeness) -> (r: Graph)
        ensures
            r@ == reported(self@, groups@, omitted as nat, completeness@),
    {
        let ghost given = self@;
        let shown = self.shown_groups(&groups);
        let Graph { nodes, edges, roots, truncated, omitted_nodes, omitted_edges, reasons, groups: _, completeness: _ } = self;
        let mut named = false;
        let mut i: usize = 0;
        while i < reasons.len()
            invariant
                i <= reasons.len(),
                named == reasons@.take(i as int).contains(TruncationReason::MaxNodes),
            decreases reasons.len() - i,
        {
            proof {
                assert(reasons@.take(i + 1) =~= reasons@.take(i as int).push(reasons@[i as int]));
                crate::collections::lemma_push_contains(reasons@.take(i as int), reasons@[i as int]);
            }
            if reasons[i] == TruncationReason::MaxNodes {
                named = true;
            }
            i = i + 1;
        }
        assert(reasons@.take(i as int) =~= reasons@);
        let ghost held = reasons@;
        let mut reasons = reasons;
        if omitted > 0 && !named {
            reasons.insert(0, TruncationReason::MaxNodes);
            assert(reasons@ =~= seq![TruncationReason::MaxNodes] + held);
        }
        let more: u32 = count(omitted);
        let r = Graph {
            nodes,
            edges,
            roots,
            truncated: truncated || omitted > 0,
            omitted_nodes: if more > u32::MAX - omitted_nodes {
                u32::MAX
            } else {
                omitted_nodes + more
            },
            omitted_edges,
            reasons,
            groups: shown,
            completeness,
        };
        assert(r@ =~= reported(given, groups@, omitted as nat, completeness@));
        r
    }
}

/// The first group of a role.
pub open spec fn group_with(groups: Seq<Group>, role: GroupRole) -> Option<Group>
    decreases groups.len(),
{
    if groups.len() == 0 {
        None
    } else if groups[0].role == role {
        Some(groups[0])
    } else {
        group_with(groups.drop_first(), role)
    }
}

/// The first node with an identity.
pub open spec fn node_with(nodes: Seq<NodeView>, id: Seq<char>) -> Option<NodeView>
    decreases nodes.len(),
{
    if nodes.len() == 0 {
        None
    } else if nodes[0].id == id {
        Some(nodes[0])
    } else {
        node_with(nodes.drop_first(), id)
    }
}

impl Graph {
    #[must_use]
    pub fn nodes(&self) -> (r: &Vec<Node>)
        ensures
            node_views(r@) == self@.nodes,
    {
        &self.nodes
    }

    #[must_use]
    pub fn edges(&self) -> (r: &Vec<Edge>)
        ensures
            edge_views(r@) == self@.edges,
    {
        &self.edges
    }

    /// Identities of the nodes the walk started from, in the graph's order.
    #[must_use]
    pub fn roots(&self) -> (r: &Vec<String>)
        ensures
            texts(r@) == self@.roots,
    {
        &self.roots
    }

    #[must_use]
    pub fn truncated(&self) -> (r: bool)
        ensures
            r == self@.truncated,
    {
        self.truncated
    }

    #[must_use]
    pub fn omitted_nodes(&self) -> (r: u32)
        ensures
            r == self@.omitted_nodes,
    {
        self.omitted_nodes
    }

    #[must_use]
    pub fn omitted_edges(&self) -> (r: u32)
        ensures
            r == self@.omitted_edges,
    {
        self.omitted_edges
    }

    #[must_use]
    pub fn reasons(&self) -> (r: &Vec<TruncationReason>)
        ensures
            r@ == self@.reasons,
    {
        &self.reasons
    }

    /// What the group nodes stand for.
    #[must_use]
    pub fn groups(&self) -> (r: &Vec<Group>)
        ensures
            r@ == self@.groups,
    {
        &self.groups
    }

    /// What the group of a role stands for, where the graph has one.
    #[must_use]
    pub fn group(&self, role: GroupRole) -> (r: Option<Group>)
        ensures
            r == group_with(self@.groups, role),
    {
        let ghost groups = self.groups@;
        let mut i: usize = 0;
        assert(groups.skip(0) =~= groups);
        while i < self.groups.len()
            invariant
                i <= self.groups.len(),
                groups == self.groups@,
                group_with(groups, role) == group_with(groups.skip(i as int), role),
            decreases self.groups.len() - i,
        {
            assert(groups.skip(i as int)[0] == groups[i as int]);
            assert(groups.skip(i as int).drop_first() =~= groups.skip(i + 1));
            if self.groups[i].role == role {
                return Some(self.groups[i]);
            }
            i = i + 1;
        }
        assert(groups.skip(i as int).len() == 0);
        None
    }

    /// What the answer may lack for want of evidence.
    #[must_use]
    pub fn completeness(&self) -> (r: &Completeness)
        ensures
            r@ == self@.completeness,
    {
        &self.completeness
    }

    /// The node an identity refers to.
    #[must_use]
    pub fn node(&self, id: &str) -> (r: Option<&Node>)
        ensures
            match r {
                Some(node) => node_with(self@.nodes, id@) == Some(node@),
                None => node_with(self@.nodes, id@) is None,
            },
    {
        let ghost views = node_views(self.nodes@);
        let mut i: usize = 0;
        assert(views.skip(0) =~= views);
        while i < self.nodes.len()
            invariant
                i <= self.nodes.len(),
                views == node_views(self.nodes@),
                node_with(views, id@) == node_with(views.skip(i as int), id@),
            decreases self.nodes.len() - i,
        {
            assert(views.skip(i as int)[0] == self.nodes@[i as int]@);
            assert(views.skip(i as int).drop_first() =~= views.skip(i + 1));
            if same_text(self.nodes[i].id.as_str(), id) {
                return Some(&self.nodes[i]);
            }
            i = i + 1;
        }
        assert(views.skip(i as int).len() == 0);
        None
    }

    /// Whether an identity is one the walk started from.
    #[must_use]
    pub fn is_root(&self, id: &str) -> (r: bool)
        ensures
            r == self@.roots.contains(id@),
    {
        let ghost names = texts(self.roots@);
        let mut i: usize = 0;
        while i < self.roots.len()
            invariant
                i <= self.roots.len(),
                names == texts(self.roots@),
                forall|k: int| 0 <= k < i ==> #[trigger] names[k] != id@,
            decreases self.roots.len() - i,
        {
            assert(names[i as int] == self.roots@[i as int]@);
            if same_text(self.roots[i].as_str(), id) {
                assert(names.contains(id@));
                return true;
            }
            i = i + 1;
        }
        false
    }
}

/// A graph under construction: nodes and edges as they are discovered, before
/// ordering, truncation, and keying make them an answer.
#[derive(Debug)]
pub struct GraphBuilder {
    nodes: TextMap<Node>,
    edges: Vec<Edge>,
    roots: TextSet,
}

/// A graph under construction by what it holds.
#[verifier::ext_equal]
pub struct BuilderView {
    pub nodes: Map<Seq<char>, NodeView>,
    pub edges: Set<EdgeView>,
    pub roots: Set<Seq<char>>,
}

/// The nodes of a map by what they hold.
pub open spec fn node_map(nodes: Map<Seq<char>, Node>) -> Map<Seq<char>, NodeView> {
    nodes.map_values(|n: Node| n@)
}

impl vstd::view::View for GraphBuilder {
    type V = BuilderView;

    closed spec fn view(&self) -> BuilderView {
        BuilderView { nodes: node_map(self.nodes@), edges: edge_views(self.edges@).to_set(), roots: self.roots@ }
    }
}

impl BuilderView {
    /// Nothing added.
    pub open spec fn empty() -> BuilderView {
        BuilderView { nodes: Map::empty(), edges: Set::empty(), roots: Set::empty() }
    }

    /// One more node; one that is present keeps the fewest hops.
    pub open spec fn with_node(self, node: NodeView) -> BuilderView {
        BuilderView {
            nodes: self.nodes.insert(
                node.id,
                if self.nodes.contains_key(node.id) {
                    let present = self.nodes[node.id];
                    if node.depth < present.depth {
                        NodeView { depth: node.depth, ..present }
                    } else {
                        present
                    }
                } else {
                    node
                },
            ),
            ..self
        }
    }

    /// Whether an edge between the same nodes, of the same relation and
    /// resolution, is present.
    pub open spec fn has_edge(self, edge: EdgeView) -> bool {
        exists|present: EdgeView| self.edges.contains(present) && #[trigger] edge_rank(present, edge) == Rank::Same
    }

    /// One more edge; one that is present is kept.
    pub open spec fn with_edge(self, edge: EdgeView) -> BuilderView {
        if self.has_edge(edge) {
            self
        } else {
            BuilderView { edges: self.edges.insert(edge), ..self }
        }
    }

    /// The edges that a view shows.
    pub open spec fn shown_edges(self, view: View) -> Set<EdgeView> {
        self.edges.filter(|e: EdgeView| shows(view, e.status))
    }

    /// Whether an identity is an end of one of some edges.
    pub open spec fn is_end(edges: Set<EdgeView>, id: Seq<char>) -> bool {
        exists|e: EdgeView| #[trigger] edges.contains(e) && (e.from == id || e.to == id)
    }

    /// What a view shows: its edges, and the nodes that they leave connected or
    /// that the walk started from.
    pub open spec fn seen_in(self, view: View) -> BuilderView {
        if view == View::Delta {
            self
        } else {
            let edges = self.shown_edges(view);
            BuilderView {
                nodes: Map::new(
                    |id: Seq<char>| self.nodes.contains_key(id) && (Self::is_end(edges, id) || self.roots.contains(id)),
                    |id: Seq<char>| self.nodes[id],
                ),
                edges,
                roots: self.roots,
            }
        }
    }

    /// Whether every node stands under its identity, and no two edges share
    /// their ends, relation and resolution.
    pub open spec fn sound(self) -> bool {
        &&& forall|id: Seq<char>| #[trigger] self.nodes.contains_key(id) ==> self.nodes[id].id == id
        &&& forall|a: EdgeView, b: EdgeView|
            self.edges.contains(a) && self.edges.contains(b) && #[trigger] edge_rank(a, b) == Rank::Same ==> a == b
    }
}

/// Adding nodes in another order gives the same graph: a node that is added
/// twice is described alike but for its hops.
pub proof fn lemma_node_order_immaterial(builder: BuilderView, a: NodeView, b: NodeView)
    requires
        a.id == b.id ==> a == (NodeView { depth: a.depth, ..b }),
    ensures
        builder.with_node(a).with_node(b) == builder.with_node(b).with_node(a),
{
    assert(builder.with_node(a).with_node(b).nodes =~= builder.with_node(b).with_node(a).nodes);
}

/// Relationships rank the same when they have the same ends, relation and
/// resolution.
pub proof fn lemma_edge_same(a: EdgeView, b: EdgeView)
    ensures
        edge_rank(a, b) == Rank::Same <==> a.from == b.from && a.relation == b.relation && a.to == b.to && a.resolution
            == b.resolution,
{
}

/// Adding different relationships in another order gives the same graph.
pub proof fn lemma_edge_order_immaterial(builder: BuilderView, a: EdgeView, b: EdgeView)
    requires
        edge_rank(a, b) == Rank::Same ==> a == b,
    ensures
        builder.with_edge(a).with_edge(b) == builder.with_edge(b).with_edge(a),
{
    if a == b {
        return;
    }
    assert(edge_rank(b, a) != Rank::Same) by {
        lemma_edge_same(a, b);
        lemma_edge_same(b, a);
    }
    let with_a = builder.with_edge(a);
    let with_b = builder.with_edge(b);
    assert(with_a.has_edge(b) == builder.has_edge(b)) by {
        if with_a.has_edge(b) {
            let p = choose|p: EdgeView| with_a.edges.contains(p) && #[trigger] edge_rank(p, b) == Rank::Same;
            assert(builder.edges.contains(p));
        }
        if builder.has_edge(b) {
            let p = choose|p: EdgeView| builder.edges.contains(p) && #[trigger] edge_rank(p, b) == Rank::Same;
            assert(with_a.edges.contains(p));
        }
    }
    assert(with_b.has_edge(a) == builder.has_edge(a)) by {
        if with_b.has_edge(a) {
            let p = choose|p: EdgeView| with_b.edges.contains(p) && #[trigger] edge_rank(p, a) == Rank::Same;
            assert(builder.edges.contains(p));
        }
        if builder.has_edge(a) {
            let p = choose|p: EdgeView| builder.edges.contains(p) && #[trigger] edge_rank(p, a) == Rank::Same;
            assert(with_b.edges.contains(p));
        }
    }
    assert(with_a.with_edge(b).edges =~= with_b.with_edge(a).edges);
}

/// Where one node stands relative to another when a budget decides: roots
/// first, then what the comparison changed, then the nearest, then the graph's
/// own order.
pub open spec fn keep_rank(a: NodeView, b: NodeView, roots: Set<Seq<char>>) -> Rank {
    otherwise(
        number_rank(
            if roots.contains(a.id) {
                0
            } else {
                1
            },
            if roots.contains(b.id) {
                0
            } else {
                1
            },
        ),
        otherwise(
            number_rank(
                if a.status != NodeStatus::Unchanged {
                    0
                } else {
                    1
                },
                if b.status != NodeStatus::Unchanged {
                    0
                } else {
                    1
                },
            ),
            otherwise(number_rank(a.depth as int, b.depth as int), node_rank(a, b)),
        ),
    )
}

/// The ranks by which a budget keeps nodes.
pub open spec fn keep_order(roots: Set<Seq<char>>) -> spec_fn(NodeView, NodeView) -> Rank {
    |a: NodeView, b: NodeView| keep_rank(a, b, roots)
}

/// The order by which a budget keeps nodes is lawful.
pub proof fn lemma_keep_order(roots: Set<Seq<char>>)
    ensures
        lawful(keep_order(roots)),
        forall|a: NodeView, b: NodeView| #[trigger] keep_rank(a, b, roots) == Rank::Same ==> a.id == b.id,
{
    lemma_numbers_lawful();
    lemma_node_order();
    let numbers = |a: int, b: int| number_rank(a, b);
    let root = |n: NodeView|
        if roots.contains(n.id) {
            0int
        } else {
            1int
        };
    let changed = |n: NodeView|
        if n.status != NodeStatus::Unchanged {
            0int
        } else {
            1int
        };
    let depth = |n: NodeView| n.depth as int;
    lemma_lawful_by(numbers, root);
    lemma_lawful_by(numbers, changed);
    lemma_lawful_by(numbers, depth);
    let by_root = |a: NodeView, b: NodeView| numbers(root(a), root(b));
    let by_change = |a: NodeView, b: NodeView| numbers(changed(a), changed(b));
    let by_depth = |a: NodeView, b: NodeView| numbers(depth(a), depth(b));
    lemma_lawful_otherwise(by_depth, node_order());
    let last = |a: NodeView, b: NodeView| otherwise(by_depth(a, b), node_order()(a, b));
    lemma_lawful_otherwise(by_change, last);
    let later = |a: NodeView, b: NodeView| otherwise(by_change(a, b), last(a, b));
    lemma_lawful_otherwise(by_root, later);
    assert(keep_order(roots) =~= |a: NodeView, b: NodeView| otherwise(by_root(a, b), later(a, b)));
}

/// The nodes of a builder.
pub open spec fn all_nodes(builder: BuilderView) -> Set<NodeView> {
    Set::new(|n: NodeView| builder.nodes.contains_key(n.id) && builder.nodes[n.id] == n)
}

/// The nodes that survive a budget.
pub open spec fn kept_nodes(builder: BuilderView, max_nodes: nat) -> Set<NodeView> {
    if ranked(all_nodes(builder), node_order()).len() <= max_nodes {
        all_nodes(builder)
    } else {
        ranked(all_nodes(builder), keep_order(builder.roots)).take(max_nodes as int).to_set()
    }
}

/// The identities of the nodes that a budget would leave out.
pub open spec fn left_out(builder: BuilderView, max_nodes: nat) -> Set<Seq<char>> {
    Set::new(|id: Seq<char>| builder.nodes.contains_key(id) && !has_node(kept_nodes(builder, max_nodes), id))
}

/// Whether an identity is that of one of some nodes.
pub open spec fn has_node(nodes: Set<NodeView>, id: Seq<char>) -> bool {
    exists|n: NodeView| #[trigger] nodes.contains(n) && n.id == id
}

/// The edges that a budget of nodes leaves both ends of.
pub open spec fn whole_edges(builder: BuilderView, kept: Set<NodeView>) -> Set<EdgeView> {
    builder.edges.filter(|e: EdgeView| has_node(kept, e.from) && has_node(kept, e.to))
}

/// A node with the key of its position.
pub open spec fn keyed(n: NodeView, position: int) -> NodeView {
    NodeView { key: "n"@ + decimal(position as nat), ..n }
}

/// The condition of a node that the walk started from it.
pub open spec fn starts_at(roots: Set<Seq<char>>) -> spec_fn(NodeView) -> bool {
    |n: NodeView| roots.contains(n.id)
}

/// The identities of the nodes that a walk started from, in the order of the
/// nodes.
pub open spec fn root_ids(nodes: Seq<NodeView>, roots: Set<Seq<char>>) -> Seq<Seq<char>> {
    picked(nodes, starts_at(roots)).map_values(|n: NodeView| n.id)
}

fn root_list(nodes: &Vec<Node>, roots: &TextSet) -> (r: Vec<String>)
    ensures
        texts(r@) == root_ids(node_views(nodes@), roots@),
{
    let ghost views = node_views(nodes@);
    let ghost keep = starts_at(roots@);
    let mut out: Vec<String> = Vec::new();
    let mut i: usize = 0;
    assert(texts(out@) =~= root_ids(views.take(0), roots@));
    while i < nodes.len()
        invariant
            i <= nodes.len(),
            views == node_views(nodes@),
            keep == starts_at(roots@),
            texts(out@) == root_ids(views.take(i as int), roots@),
        decreases nodes.len() - i,
    {
        let ghost so_far = texts(out@);
        assert(views[i as int] == nodes@[i as int]@);
        assert(views.take(i + 1).drop_last() =~= views.take(i as int));
        if roots.contains(nodes[i].id.as_str()) {
            out.push(nodes[i].id.clone());
            assert(texts(out@) =~= so_far.push(views[i as int].id));
            assert(root_ids(views.take(i + 1), roots@) =~= so_far.push(views[i as int].id));
        }
        i = i + 1;
    }
    assert(views.take(i as int) =~= views);
    out
}

/// The delivered graph: the surviving nodes and edges in their order, the nodes
/// keyed by their position, and what was dropped.
pub open spec fn delivered(builder: BuilderView, limits: Limits) -> GraphView {
    let all = ranked(all_nodes(builder), node_order());
    let kept = kept_nodes(builder, limits.max_nodes as nat);
    let nodes = ranked(kept, node_order());
    let edges = ranked(whole_edges(builder, kept), edge_order());
    let shown = if edges.len() > limits.max_edges {
        edges.take(limits.max_edges as int)
    } else {
        edges
    };
    let reasons = (if all.len() > nodes.len() {
        seq![TruncationReason::MaxNodes]
    } else {
        Seq::empty()
    }) + (if edges.len() > limits.max_edges {
        seq![TruncationReason::MaxEdges]
    } else {
        Seq::empty()
    });
    let keyed_nodes = Seq::new(nodes.len(), |i: int| keyed(nodes[i], i));
    GraphView {
        nodes: keyed_nodes,
        edges: shown,
        roots: root_ids(keyed_nodes, builder.roots),
        truncated: reasons.len() > 0,
        omitted_nodes: crate::analysis::saturated((all.len() - nodes.len()) as nat),
        omitted_edges: crate::analysis::saturated((edges.len() - shown.len()) as nat),
        reasons,
        groups: Seq::empty(),
        completeness: nothing_lacks(),
    }
}

/// Whether a graph delivers the edges of a builder between the nodes it has, in
/// their order and as many as its budget admits.
pub open spec fn delivers_edges(builder: BuilderView, limits: Limits, graph: GraphView) -> bool {
    let whole = whole_edges(builder, kept_nodes(builder, limits.max_nodes as nat));
    let listing = ranked(whole, edge_order());
    &&& strictly(listing, edge_order())
    &&& listing.to_set() == whole
    &&& forall|e: EdgeView| #[trigger]
        listing.contains(e) <==> builder.edges.contains(e) && is_node(graph, e.from) && is_node(graph, e.to)
    &&& graph.edges == if listing.len() > limits.max_edges {
        listing.take(limits.max_edges as int)
    } else {
        listing
    }
}

/// Whether a graph delivers the nodes that its budget keeps, in their order.
pub open spec fn delivers_nodes(builder: BuilderView, limits: Limits, graph: GraphView) -> bool {
    let kept = kept_nodes(builder, limits.max_nodes as nat);
    let listing = ranked(kept, node_order());
    &&& strictly(listing, node_order())
    &&& listing.to_set() == kept
    &&& graph.nodes == Seq::new(listing.len(), |i: int| keyed(listing[i], i))
}

/// The members of a ranking that satisfy a condition are their own ranking.
proof fn lemma_picked_ranked<T>(s: Seq<T>, keep: spec_fn(T) -> bool, rank: spec_fn(T, T) -> Rank, members: Set<T>)
    requires
        lawful(rank),
        strictly(s, rank),
        forall|x: T| #[trigger] members.contains(x) <==> s.contains(x) && keep(x),
    ensures
        picked(s, keep) == ranked(members, rank),
{
    lemma_picked(s, keep);
    lemma_picked_strictly(s, keep, rank);
    lemma_ranked(picked(s, keep), rank);
    assert(picked(s, keep).to_set() =~= members);
}

impl Default for GraphBuilder {
    fn default() -> (r: Self)
        ensures
            r.valid(),
            r@ == BuilderView::empty(),
    {
        GraphBuilder::new()
    }
}

impl GraphBuilder {
    /// Whether the edges stand in the graph's order, and every node under its
    /// identity.
    pub closed spec fn valid(self) -> bool {
        &&& strictly(edge_views(self.edges@), edge_order())
        &&& forall|id: Seq<char>| #[trigger] self.nodes@.contains_key(id) ==> self.nodes@[id].id@ == id
    }

    /// A valid builder holds every node under its identity, and no relationship
    /// twice.
    pub proof fn lemma_sound(self)
        requires
            self.valid(),
        ensures
            self@.sound(),
    {
        let s = edge_views(self.edges@);
        assert forall|a: EdgeView, b: EdgeView|
            self@.edges.contains(a) && self@.edges.contains(b) && #[trigger] edge_rank(a, b) == Rank::Same implies a == b by {
            assert(s.contains(a) && s.contains(b));
            let i = choose|i: int| 0 <= i < s.len() && s[i] == a;
            let j = choose|j: int| 0 <= j < s.len() && s[j] == b;
            if i < j {
                assert(edge_order()(s[i], s[j]) == Rank::Before);
            } else if j < i {
                assert(edge_order()(s[j], s[i]) == Rank::Before);
                lemma_edge_order();
                assert(edge_order()(s[i], s[j]) == crate::order::flipped(edge_order()(s[j], s[i])));
            }
        }
    }

    #[must_use]
    pub fn new() -> (r: Self)
        ensures
            r.valid(),
            r@ == BuilderView::empty(),
    {
        let r = GraphBuilder { nodes: TextMap::new(), edges: Vec::new(), roots: TextSet::new() };
        proof {
            assert(r@.nodes =~= Map::<Seq<char>, NodeView>::empty());
            assert(r@.edges =~= Set::<EdgeView>::empty());
        }
        r
    }

    /// Add a node, or keep the one already present.
    ///
    /// A node reached twice keeps the fewest hops it was reached by, so depth
    /// is a property of the graph rather than of the order the walk happened to
    /// visit in.
    pub fn add_node(&mut self, node: Node)
        requires
            old(self).valid(),
        ensures
            final(self).valid(),
            final(self)@ == old(self)@.with_node(node@),
    {
        let ghost given = self@;
        let ghost held = self.nodes@;
        let ghost id = node.id@;
        let key = node.id.clone();
        let kept = match self.nodes.remove(key.as_str()) {
            Some(existing) => {
                let mut existing = existing;
                if node.depth < existing.depth {
                    existing.depth = node.depth;
                }
                existing
            },
            None => node,
        };
        let ghost one = kept@;
        self.nodes.insert(key, kept);
        proof {
            assert(node_map(self.nodes@) =~= node_map(held).insert(id, one));
            assert(self@ =~= given.with_node(node@));
        }
    }

    /// Mark an identity already added as a node the walk started from.
    pub fn add_root(&mut self, id: String)
        requires
            old(self).valid(),
        ensures
            final(self).valid(),
            final(self)@ == (BuilderView { roots: old(self)@.roots.insert(id@), ..old(self)@ }),
    {
        self.roots.insert(id);
    }

    /// Add an edge, or keep the one already present.
    ///
    /// Two sites producing the same relationship under the same resolution are
    /// one edge; the first one's evidence is kept.
    pub fn add_edge(&mut self, edge: Edge)
        requires
            old(self).valid(),
        ensures
            final(self).valid(),
            final(self)@ == old(self)@.with_edge(edge@),
    {
        let ghost given = self@;
        let ghost s = edge_views(self.edges@);
        let ghost e = edge@;
        let ghost rank = edge_order();
        proof {
            lemma_edge_order();
        }
        let mut i: usize = 0;
        let mut place = Rank::Before;
        while i < self.edges.len() && place == Rank::Before
            invariant
                lawful(rank),
                rank == edge_order(),
                e == edge@,
                i <= self.edges.len(),
                s == edge_views(self.edges@),
                place == Rank::Before ==> forall|k: int| 0 <= k < i ==> rank(#[trigger] s[k], e) == Rank::Before,
                place != Rank::Before ==> i < self.edges.len() && rank(s[i as int], e) == place && forall|k: int|
                    0 <= k < i ==> rank(#[trigger] s[k], e) == Rank::Before,
            decreases self.edges.len() - i + (if place == Rank::Before {
                1int
            } else {
                0int
            }),
        {
            assert(s[i as int] == self.edges@[i as int]@);
            place = compare_edges(&self.edges[i], &edge);
            if place == Rank::Before {
                i = i + 1;
            }
        }
        if place == Rank::Same {
            proof {
                assert(s.contains(s[i as int]));
                assert(given.edges.contains(s[i as int]));
                assert(edge_rank(s[i as int], e) == Rank::Same);
                assert(given.has_edge(e));
            }
            return;
        }
        proof {
            crate::order::lemma_insert_strictly(s, i as int, e, rank);
            assert(!given.has_edge(e)) by {
                if given.has_edge(e) {
                    let p = choose|p: EdgeView| given.edges.contains(p) && #[trigger] edge_rank(p, e) == Rank::Same;
                    assert(s.contains(p));
                    assert(rank(p, e) != Rank::Same);
                }
            }
        }
        self.edges.insert(i, edge);
        assert(edge_views(self.edges@) =~= s.insert(i as int, e));
    }

    #[must_use]
    pub fn contains_node(&self, id: &str) -> (r: bool)
        ensures
            r == self@.nodes.contains_key(id@),
    {
        self.nodes.contains_key(id)
    }

    /// Every node added so far, in the graph's order.
    #[must_use]
    pub fn nodes(&self) -> (r: Vec<Node>)
        requires
            self.valid(),
        ensures
            node_views(r@) == ranked(all_nodes(self@), node_order()),
            strictly(node_views(r@), node_order()),
            node_views(r@).to_set() == all_nodes(self@),
    {
        let n: usize = self.nodes.len();
        let ghost keys = self.nodes.keys();
        let ghost map = node_map(self.nodes@);
        let mut out: Vec<Node> = Vec::new();
        let mut i: usize = 0;
        while i < n
            invariant
                n == keys.len(),
                keys == self.nodes.keys(),
                self.nodes.ordered(),
                self.valid(),
                map == node_map(self.nodes@),
                i <= n,
                out.len() == i,
                forall|k: int| 0 <= k < i ==> map.contains_key(keys[k]) && (#[trigger] out@[k])@ == map[keys[k]],
            decreases n - i,
        {
            let node = self.nodes.value_at(i);
            out.push(node.copy());
            i = i + 1;
        }
        let ghost views = node_views(out@);
        proof {
            assert forall|k: int| 0 <= k < n implies (#[trigger] views[k]).id == keys[k] && views[k] == map[keys[k]] by {
                assert(views[k] == out@[k]@);
                assert(self.nodes@.contains_key(keys[k]));
            }
            assert forall|x: int, y: int| 0 <= x < y < views.len() implies views[x] != views[y] by {
                crate::text::lemma_before_asymmetric(keys[x], keys[y]);
            }
            assert(views.to_set() =~= all_nodes(self@)) by {
                assert forall|v: NodeView| views.contains(v) <==> all_nodes(self@).contains(v) by {
                    if views.contains(v) {
                        let k = choose|k: int| 0 <= k < views.len() && views[k] == v;
                        assert(map.contains_key(keys[k]));
                    }
                    if all_nodes(self@).contains(v) {
                        assert(self.nodes@.contains_key(v.id));
                        assert(keys.contains(v.id));
                        let k = choose|k: int| 0 <= k < keys.len() && keys[k] == v.id;
                        assert(views[k] == v);
                    }
                }
            }
            lemma_node_order();
            assert forall|a: NodeView, b: NodeView|
                views.contains(a) && views.contains(b) && #[trigger] node_order()(a, b) == Rank::Same implies a == b by {
                assert(node_rank(a, b) == Rank::Same);
                assert(all_nodes(self@).contains(a) && all_nodes(self@).contains(b)) by {
                    assert(views.to_set().contains(a) && views.to_set().contains(b));
                }
            }
            lemma_arranged_ranked(views, node_order());
        }
        let rank_of = |a: &Node, b: &Node| -> (r: Rank)
            ensures
                r == node_rank(a@, b@),
        {
            compare_nodes(a, b)
        };
        arrange_by::<Node, NodeView, _>(&mut out, rank_of, Ghost(|n: Node| n@), Ghost(node_order()));
        out
    }
}

/// The identities of nodes, as a set.
fn ids_of(nodes: &Vec<Node>, count: usize) -> (r: TextSet)
    requires
        count <= nodes.len(),
    ensures
        forall|id: Seq<char>| #[trigger]
            r@.contains(id) <==> has_node(node_views(nodes@).take(count as int).to_set(), id),
{
    let ghost views = node_views(nodes@);
    let mut out = TextSet::new();
    let mut i: usize = 0;
    assert forall|id: Seq<char>| !has_node(views.take(0).to_set(), id) by {
        if has_node(views.take(0).to_set(), id) {
            let n = choose|n: NodeView| #[trigger] views.take(0).to_set().contains(n) && n.id == id;
            assert(views.take(0).contains(n));
        }
    }
    while i < count
        invariant
            i <= count <= nodes.len(),
            views == node_views(nodes@),
            forall|id: Seq<char>| #[trigger] out@.contains(id) <==> has_node(views.take(i as int).to_set(), id),
        decreases count - i,
    {
        let ghost held = out@;
        assert(views[i as int] == nodes@[i as int]@);
        out.insert(nodes[i].id.clone());
        proof {
            let v = views[i as int];
            let short = views.take(i as int);
            assert(views.take(i + 1) =~= short.push(v));
            crate::collections::lemma_push_contains(short, v);
            assert forall|id: Seq<char>| #[trigger] out@.contains(id) <==> has_node(views.take(i + 1).to_set(), id) by {
                if held.contains(id) {
                    let n = choose|n: NodeView| #[trigger] short.to_set().contains(n) && n.id == id;
                    assert(short.contains(n));
                    assert(short.push(v).contains(n));
                    assert(views.take(i + 1).to_set().contains(n));
                }
                if id == v.id {
                    assert(short.push(v).contains(v));
                    assert(views.take(i + 1).to_set().contains(v));
                }
                if has_node(views.take(i + 1).to_set(), id) {
                    let n = choose|n: NodeView| #[trigger] views.take(i + 1).to_set().contains(n) && n.id == id;
                    assert(short.push(v).contains(n));
                    if n != v {
                        assert(short.to_set().contains(n));
                        assert(has_node(short.to_set(), id));
                        assert(held.contains(id));
                    }
                }
            }
        }
        i = i + 1;
    }
    out
}

impl GraphBuilder {
    /// The identities of the nodes that survive a budget.
    fn keep_nodes(&self, ordered: &Vec<Node>, max_nodes: usize) -> (r: TextSet)
        requires
            self.valid(),
            node_views(ordered@) == ranked(all_nodes(self@), node_order()),
            strictly(node_views(ordered@), node_order()),
            node_views(ordered@).to_set() == all_nodes(self@),
        ensures
            forall|id: Seq<char>| #[trigger] r@.contains(id) <==> has_node(kept_nodes(self@, max_nodes as nat), id),
    {
        let ghost views = node_views(ordered@);
        if ordered.len() <= max_nodes {
            assert(views.take(ordered.len() as int) =~= views);
            return ids_of(ordered, ordered.len());
        }
        let mut copies: Vec<Node> = Vec::new();
        let mut i: usize = 0;
        while i < ordered.len()
            invariant
                i <= ordered.len(),
                views == node_views(ordered@),
                node_views(copies@) == views.take(i as int),
            decreases ordered.len() - i,
        {
            let ghost so_far = node_views(copies@);
            let one = ordered[i].copy();
            let ghost v = one@;
            copies.push(one);
            proof {
                assert(v == views[i as int]);
                assert(node_views(copies@) =~= so_far.push(v));
                assert(views.take(i + 1) =~= views.take(i as int).push(v));
            }
            i = i + 1;
        }
        assert(views.take(i as int) =~= views);
        let ghost roots = self.roots@;
        proof {
            lemma_node_order();
            lemma_keep_order(roots);
            crate::order::lemma_strictly_distinct(views, node_order());
            assert forall|a: NodeView, b: NodeView|
                views.contains(a) && views.contains(b) && #[trigger] keep_order(roots)(a, b) == Rank::Same implies a == b by {
                assert(keep_rank(a, b, roots) == Rank::Same);
                assert(all_nodes(self@).contains(a) && all_nodes(self@).contains(b)) by {
                    assert(views.to_set().contains(a) && views.to_set().contains(b));
                }
            }
            lemma_arranged_ranked(views, keep_order(roots));
        }
        let starts = &self.roots;
        let rank_of = |a: &Node, b: &Node| -> (r: Rank)
            ensures
                r == keep_rank(a@, b@, starts@),
        {
            let root_a: u64 = if starts.contains(a.id.as_str()) {
                0
            } else {
                1
            };
            let root_b: u64 = if starts.contains(b.id.as_str()) {
                0
            } else {
                1
            };
            let changed_a: u64 = if a.status.is_changed() {
                0
            } else {
                1
            };
            let changed_b: u64 = if b.status.is_changed() {
                0
            } else {
                1
            };
            or_else(
                compare_numbers(root_a, root_b),
                or_else(
                    compare_numbers(changed_a, changed_b),
                    or_else(compare_numbers(a.depth as u64, b.depth as u64), compare_nodes(a, b)),
                ),
            )
        };
        arrange_by::<Node, NodeView, _>(&mut copies, rank_of, Ghost(|n: Node| n@), Ghost(keep_order(roots)));
        proof {
            assert(node_views(copies@) == ranked(all_nodes(self@), keep_order(roots)));
            crate::collections::lemma_arranged_keeps(views, by_rank(keep_order(roots)));
        }
        ids_of(&copies, max_nodes)
    }

    /// The identities of the nodes that a budget would leave out.
    #[must_use]
    pub fn overflow(&self, max_nodes: usize) -> (r: TextSet)
        requires
            self.valid(),
        ensures
            r@ == left_out(self@, max_nodes as nat),
    {
        let all = self.nodes();
        let kept = self.keep_nodes(&all, max_nodes);
        let ghost views = node_views(all@);
        let mut out = TextSet::new();
        let mut i: usize = 0;
        while i < all.len()
            invariant
                i <= all.len(),
                views == node_views(all@),
                forall|id: Seq<char>| #[trigger] kept@.contains(id) <==> has_node(kept_nodes(self@, max_nodes as nat), id),
                forall|id: Seq<char>| #[trigger]
                    out@.contains(id) <==> !kept@.contains(id) && exists|k: int| 0 <= k < i && (#[trigger] views[k]).id == id,
            decreases all.len() - i,
        {
            let ghost before = out@;
            assert(views[i as int] == all@[i as int]@);
            if !kept.contains(all[i].id.as_str()) {
                out.insert(all[i].id.clone());
            }
            proof {
                assert forall|id: Seq<char>| #[trigger] out@.contains(id) <==> !kept@.contains(id) && exists|k: int|
                    0 <= k < i + 1 && (#[trigger] views[k]).id == id by {
                    if before.contains(id) {
                        let k = choose|k: int| 0 <= k < i && (#[trigger] views[k]).id == id;
                        assert(views[k].id == id);
                    }
                    if id == views[i as int].id {
                        assert(views[i as int].id == id);
                    }
                }
            }
            i = i + 1;
        }
        proof {
            self.lemma_sound();
            assert forall|id: Seq<char>| out@.contains(id) <==> left_out(self@, max_nodes as nat).contains(id) by {
                if exists|k: int| 0 <= k < views.len() && (#[trigger] views[k]).id == id {
                    let k = choose|k: int| 0 <= k < views.len() && (#[trigger] views[k]).id == id;
                    assert(views.contains(views[k]));
                    assert(views.to_set().contains(views[k]));
                    assert(all_nodes(self@).contains(views[k]));
                }
                if self@.nodes.contains_key(id) {
                    let n = self@.nodes[id];
                    assert(n.id == id);
                    assert(all_nodes(self@).contains(n));
                    assert(views.to_set().contains(n));
                    let k = choose|k: int| 0 <= k < views.len() && views[k] == n;
                    assert(views[k].id == id);
                }
            }
            assert(out@ =~= left_out(self@, max_nodes as nat));
        }
        out
    }

    /// Every edge added so far, in the graph's order.
    #[must_use]
    pub fn edges(&self) -> (r: &Vec<Edge>)
        requires
            self.valid(),
        ensures
            edge_views(r@).to_set() == self@.edges,
            strictly(edge_views(r@), edge_order()),
    {
        &self.edges
    }

    /// The node that an identity refers to.
    #[must_use]
    pub fn node(&self, id: &str) -> (r: Option<&Node>)
        ensures
            match r {
                Some(node) => self@.nodes.contains_key(id@) && self@.nodes[id@] == node@,
                None => !self@.nodes.contains_key(id@),
            },
    {
        self.nodes.get(id)
    }

    /// The identities that the walk started from.
    #[must_use]
    pub fn roots(&self) -> (r: &TextSet)
        ensures
            r@ == self@.roots,
    {
        &self.roots
    }

    /// Whether an identity is one the walk started from.
    #[must_use]
    pub fn is_root(&self, id: &str) -> (r: bool)
        ensures
            r == self@.roots.contains(id@),
    {
        self.roots.contains(id)
    }

    /// Order, truncate, and key the graph.
    ///
    /// Keys are assigned last so that `n0`…`nN` are dense and are a function of
    /// the graph a caller actually receives.
    #[must_use]
    #[verifier::rlimit(60)]
    #[verifier::spinoff_prover]
    pub fn finish(self, limits: Limits) -> (r: Graph)
        requires
            self.valid(),
        ensures
            r@ == delivered(self@, limits),
            within_budget(r@, limits),
            has_no_loose_end(r@),
            strictly(r@.edges, edge_order()),
            delivers_nodes(self@, limits, r@),
            delivers_edges(self@, limits, r@),
            prefers_what_was_asked(self@, limits.max_nodes as nat),
    {
        let ghost b = self@;
        let all = self.nodes();
        let ghost views = node_views(all@);
        let ids = self.keep_nodes(&all, limits.max_nodes);
        let ghost kept = kept_nodes(b, limits.max_nodes as nat);
        let ghost keep_node = |n: NodeView| has_node(kept, n.id);
        proof {
            self.lemma_sound();
            lemma_kept_subset(b, limits.max_nodes as nat, views);
            lemma_node_order();
            assert forall|n: NodeView| #[trigger] kept.contains(n) <==> views.contains(n) && keep_node(n) by {
                if kept.contains(n) {
                    assert(all_nodes(b).contains(n));
                    assert(views.to_set().contains(n));
                }
                if views.contains(n) && keep_node(n) {
                    let m = choose|m: NodeView| #[trigger] kept.contains(m) && m.id == n.id;
                    assert(all_nodes(b).contains(m));
                    assert(views.to_set().contains(n));
                    assert(all_nodes(b).contains(n));
                }
            }
            lemma_picked_ranked(views, keep_node, node_order(), kept);
            lemma_picked_strictly(views, keep_node, node_order());
            lemma_picked(views, keep_node);
            assert(picked(views, keep_node).to_set() =~= kept);
        }
        let ghost final_nodes = ranked(kept, node_order());
        let total_nodes: usize = all.len();
        let mut nodes: Vec<Node> = Vec::new();
        let mut i: usize = 0;
        assert(node_views(nodes@) =~= Seq::new(0, |k: int| keyed(final_nodes[k], k)));
        while i < total_nodes
            invariant
                i <= total_nodes == all.len(),
                views == node_views(all@),
                keep_node == |n: NodeView| has_node(kept, n.id),
                forall|id: Seq<char>| #[trigger] ids@.contains(id) <==> has_node(kept, id),
                nodes.len() == picked(views.take(i as int), keep_node).len(),
                nodes.len() <= i,
                forall|k: int| 0 <= k < nodes.len() ==> (#[trigger] nodes@[k])@ == keyed(picked(views.take(i as int), keep_node)[k], k),
            decreases total_nodes - i,
        {
            let ghost v = views[i as int];
            assert(v == all@[i as int]@);
            assert(views.take(i + 1).drop_last() =~= views.take(i as int));
            if ids.contains(all[i].id.as_str()) {
                let mut node = all[i].copy();
                node.key = join2("n", number_text(nodes.len() as u64).as_str());
                assert(node@ =~= keyed(v, nodes@.len() as int));
                nodes.push(node);
            }
            i = i + 1;
        }
        proof {
            assert(views.take(i as int) =~= views);
            assert(node_views(nodes@) =~= Seq::new(final_nodes.len(), |k: int| keyed(final_nodes[k], k)));
        }

        let ghost edge_seq = edge_views(self.edges@);
        let ghost keep_edge = |e: EdgeView| has_node(kept, e.from) && has_node(kept, e.to);
        proof {
            lemma_edge_order();
            assert forall|e: EdgeView| #[trigger] whole_edges(b, kept).contains(e) <==> edge_seq.contains(e) && keep_edge(e) by {
                assert(b.edges.contains(e) <==> edge_seq.contains(e));
            }
            lemma_picked_ranked(edge_seq, keep_edge, edge_order(), whole_edges(b, kept));
        }
        let ghost all_edges = ranked(whole_edges(b, kept), edge_order());
        let GraphBuilder { nodes: _, edges: given_edges, roots } = self;
        let mut edges: Vec<Edge> = Vec::new();
        let mut j: usize = 0;
        assert(edge_views(edges@) =~= picked(edge_seq.take(0), keep_edge));
        while j < given_edges.len()
            invariant
                j <= given_edges.len(),
                edge_seq == edge_views(given_edges@),
                keep_edge == |e: EdgeView| has_node(kept, e.from) && has_node(kept, e.to),
                forall|id: Seq<char>| #[trigger] ids@.contains(id) <==> has_node(kept, id),
                edge_views(edges@) == picked(edge_seq.take(j as int), keep_edge),
            decreases given_edges.len() - j,
        {
            let ghost so_far = edge_views(edges@);
            assert(edge_seq[j as int] == given_edges@[j as int]@);
            assert(edge_seq.take(j + 1).drop_last() =~= edge_seq.take(j as int));
            if ids.contains(given_edges[j].from.as_str()) && ids.contains(given_edges[j].to.as_str()) {
                let one = copy_edge(&given_edges[j]);
                let ghost v = one@;
                edges.push(one);
                assert(edge_views(edges@) =~= so_far.push(v));
            }
            j = j + 1;
        }
        assert(edge_seq.take(j as int) =~= edge_seq);

        let total_edges: usize = edges.len();
        let mut reasons: Vec<TruncationReason> = Vec::new();
        if total_nodes > nodes.len() {
            reasons.push(TruncationReason::MaxNodes);
        }
        if total_edges > limits.max_edges {
            reasons.push(TruncationReason::MaxEdges);
            edges.truncate(limits.max_edges);
            assert(edge_views(edges@) =~= all_edges.take(limits.max_edges as int));
        }
        let shown_roots = root_list(&nodes, &roots);
        proof {
            assert(roots@ == b.roots);
            assert(reasons@ =~= delivered(b, limits).reasons);
            assert(node_views(nodes@).len() == final_nodes.len());
        }
        let dropped_nodes: usize = total_nodes - nodes.len();
        let dropped_edges: usize = total_edges - edges.len();
        let r = Graph {
            omitted_nodes: count(dropped_nodes),
            omitted_edges: count(dropped_edges),
            truncated: reasons.len() > 0,
            reasons,
            nodes,
            edges,
            roots: shown_roots,
            groups: Vec::new(),
            completeness: Completeness::default(),
        };
        proof {
            assert(r@ =~= delivered(b, limits));
            lemma_prefers(b, limits.max_nodes as nat, views);
            lemma_node_budget(b, limits.max_nodes as nat, views, final_nodes);
            lemma_picked_strictly(edge_seq, keep_edge, edge_order());
            lemma_picked(edge_seq, keep_edge);
            assert(has_no_loose_end(r@)) by {
                assert forall|i: int| 0 <= i < r@.edges.len() implies is_node(r@, (#[trigger] r@.edges[i]).from) && is_node(
                    r@,
                    r@.edges[i].to,
                ) by {
                    let e = r@.edges[i];
                    assert(e == all_edges[i]);
                    assert(all_edges.contains(e));
                    assert(keep_edge(e));
                    lemma_kept_is_node(kept, final_nodes, r@, e.from);
                    lemma_kept_is_node(kept, final_nodes, r@, e.to);
                }
            }
            assert forall|id: Seq<char>| #[trigger] is_node(r@, id) implies has_node(kept, id) by {
                let k = choose|k: int| 0 <= k < r@.nodes.len() && (#[trigger] r@.nodes[k]).id == id;
                assert(r@.nodes[k] == keyed(final_nodes[k], k));
                assert(final_nodes.contains(final_nodes[k]));
                assert(kept.contains(final_nodes[k]));
            }
            assert forall|e: EdgeView| #[trigger]
                all_edges.contains(e) <==> b.edges.contains(e) && is_node(r@, e.from) && is_node(r@, e.to) by {
                assert(whole_edges(b, kept).contains(e) <==> edge_seq.contains(e) && keep_edge(e));
                if all_edges.contains(e) {
                    lemma_kept_is_node(kept, final_nodes, r@, e.from);
                    lemma_kept_is_node(kept, final_nodes, r@, e.to);
                }
            }
            assert(all_edges.to_set() =~= whole_edges(b, kept));
        }
        r
    }
}

/// Whether a graph has a node of an identity.
pub open spec fn is_node(graph: GraphView, id: Seq<char>) -> bool {
    exists|i: int| 0 <= i < graph.nodes.len() && (#[trigger] graph.nodes[i]).id == id
}

/// Whether a graph has no more nodes and edges than it may.
pub open spec fn within_budget(graph: GraphView, limits: Limits) -> bool {
    graph.nodes.len() <= limits.max_nodes && graph.edges.len() <= limits.max_edges
}

/// Whether both ends of every edge are nodes of the graph.
pub open spec fn has_no_loose_end(graph: GraphView) -> bool {
    forall|i: int| 0 <= i < graph.edges.len() ==> is_node(graph, (#[trigger] graph.edges[i]).from) && is_node(graph, graph.edges[i].to)
}

/// Whether a budget keeps no node before one that is preferred to it: a root
/// before any other, then what changed, then the nearest.
pub open spec fn prefers_what_was_asked(builder: BuilderView, max_nodes: nat) -> bool {
    forall|a: NodeView, b: NodeView|
        kept_nodes(builder, max_nodes).contains(a) && all_nodes(builder).contains(b) && !kept_nodes(builder, max_nodes).contains(b)
            ==> #[trigger] keep_rank(a, b, builder.roots) == Rank::Before
}

proof fn lemma_kept_is_node(kept: Set<NodeView>, nodes: Seq<NodeView>, graph: GraphView, id: Seq<char>)
    requires
        nodes == ranked(kept, node_order()),
        nodes.to_set() == kept,
        graph.nodes == Seq::new(nodes.len(), |i: int| keyed(nodes[i], i)),
        has_node(kept, id),
    ensures
        is_node(graph, id),
{
    let n = choose|n: NodeView| #[trigger] kept.contains(n) && n.id == id;
    assert(nodes.contains(n));
    let k = choose|k: int| 0 <= k < nodes.len() && nodes[k] == n;
    assert(graph.nodes[k].id == id);
}

proof fn lemma_keep_listing(b: BuilderView, views: Seq<NodeView>)
    requires
        b.sound(),
        views == ranked(all_nodes(b), node_order()),
        strictly(views, node_order()),
        views.to_set() == all_nodes(b),
    ensures
        strictly(ranked(all_nodes(b), keep_order(b.roots)), keep_order(b.roots)),
        ranked(all_nodes(b), keep_order(b.roots)).to_set() == all_nodes(b),
        ranked(all_nodes(b), keep_order(b.roots)).len() == views.len(),
{
    lemma_node_order();
    lemma_keep_order(b.roots);
    crate::order::lemma_strictly_distinct(views, node_order());
    assert forall|x: NodeView, y: NodeView|
        views.contains(x) && views.contains(y) && #[trigger] keep_order(b.roots)(x, y) == Rank::Same implies x == y by {
        assert(keep_rank(x, y, b.roots) == Rank::Same);
        assert(all_nodes(b).contains(x) && all_nodes(b).contains(y)) by {
            assert(views.to_set().contains(x) && views.to_set().contains(y));
        }
    }
    lemma_arranged_ranked(views, keep_order(b.roots));
    crate::collections::lemma_arranged_keeps(views, by_rank(keep_order(b.roots)));
}

proof fn lemma_prefers(b: BuilderView, max_nodes: nat, views: Seq<NodeView>)
    requires
        b.sound(),
        views == ranked(all_nodes(b), node_order()),
        strictly(views, node_order()),
        views.to_set() == all_nodes(b),
    ensures
        prefers_what_was_asked(b, max_nodes),
{
    if views.len() > max_nodes {
        lemma_keep_listing(b, views);
        let order = ranked(all_nodes(b), keep_order(b.roots));
        let head = order.take(max_nodes as int);
        assert forall|x: NodeView, y: NodeView|
            kept_nodes(b, max_nodes).contains(x) && all_nodes(b).contains(y) && !kept_nodes(b, max_nodes).contains(y) implies #[trigger] keep_rank(
            x,
            y,
            b.roots,
        ) == Rank::Before by {
            assert(head.contains(x));
            let i = choose|i: int| 0 <= i < head.len() && head[i] == x;
            assert(order.to_set().contains(y));
            assert(order.contains(y));
            let j = choose|j: int| 0 <= j < order.len() && order[j] == y;
            if j < max_nodes {
                assert(head[j] == y);
                assert(head.contains(y));
            }
            assert(keep_order(b.roots)(order[i], order[j]) == Rank::Before);
        }
    }
}

proof fn lemma_node_budget(b: BuilderView, max_nodes: nat, views: Seq<NodeView>, nodes: Seq<NodeView>)
    requires
        b.sound(),
        views == ranked(all_nodes(b), node_order()),
        strictly(views, node_order()),
        views.to_set() == all_nodes(b),
        nodes == ranked(kept_nodes(b, max_nodes), node_order()),
        nodes.to_set() == kept_nodes(b, max_nodes),
        strictly(nodes, node_order()),
    ensures
        nodes.len() <= max_nodes,
{
    lemma_node_order();
    crate::order::lemma_strictly_distinct(nodes, node_order());
    nodes.unique_seq_to_set();
    if views.len() > max_nodes {
        lemma_keep_listing(b, views);
        lemma_keep_order(b.roots);
        let order = ranked(all_nodes(b), keep_order(b.roots));
        crate::order::lemma_strictly_distinct(order, keep_order(b.roots));
        let head = order.take(max_nodes as int);
        assert(head.no_duplicates());
        head.unique_seq_to_set();
    }
}

proof fn lemma_kept_subset(b: BuilderView, max_nodes: nat, views: Seq<NodeView>)
    requires
        b.sound(),
        views == ranked(all_nodes(b), node_order()),
        strictly(views, node_order()),
        views.to_set() == all_nodes(b),
    ensures
        kept_nodes(b, max_nodes).subset_of(all_nodes(b)),
{
    if views.len() > max_nodes {
        lemma_keep_listing(b, views);
        let order = ranked(all_nodes(b), keep_order(b.roots));
        assert forall|n: NodeView| kept_nodes(b, max_nodes).contains(n) implies all_nodes(b).contains(n) by {
            let t = order.take(max_nodes as int);
            assert(t.contains(n));
            let k = choose|k: int| 0 <= k < t.len() && t[k] == n;
            assert(order[k] == n);
            assert(order.contains(n));
            assert(order.to_set().contains(n));
        }
    }
}

pub(crate) fn copy_edge(edge: &Edge) -> (r: Edge)
    ensures
        r@ == edge@,
{
    Edge {
        from: edge.from.clone(),
        to: edge.to.clone(),
        relation: edge.relation,
        status: edge.status,
        resolution: edge.resolution,
        evidence: match &edge.evidence {
            Some(e) => Some(Evidence { file: e.file.clone(), line: e.line }),
            None => None,
        },
    }
}

/// A count as the graph reports it.
pub(crate) fn count(value: usize) -> (r: u32)
    ensures
        r == crate::analysis::saturated(value as nat),
{
    if value as u64 > u32::MAX as u64 {
        u32::MAX
    } else {
        value as u32
    }
}

impl GraphBuilder {
    /// Drop the edges a view does not show, and the nodes that leaves isolated.
    ///
    /// Statuses are not rewritten: the view decides what is shown, not what is
    /// true.
    pub fn apply_view(&mut self, view: View)
        requires
            old(self).valid(),
        ensures
            final(self).valid(),
            final(self)@ == old(self)@.seen_in(view),
    {
        let ghost given = self@;
        if view == View::Delta {
            return;
        }
        let ghost edge_seq = edge_views(self.edges@);
        let ghost keep = |e: EdgeView| shows(view, e.status);
        let mut edges: Vec<Edge> = Vec::new();
        let mut connected = TextSet::new();
        let mut i: usize = 0;
        assert(edge_views(edges@) =~= picked(edge_seq.take(0), keep));
        while i < self.edges.len()
            invariant
                i <= self.edges.len(),
                edge_seq == edge_views(self.edges@),
                keep == |e: EdgeView| shows(view, e.status),
                edge_views(edges@) == picked(edge_seq.take(i as int), keep),
                forall|id: Seq<char>| #[trigger] connected@.contains(id) <==> BuilderView::is_end(edge_views(edges@).to_set(), id),
            decreases self.edges.len() - i,
        {
            let ghost so_far = edge_views(edges@);
            let ghost held = connected@;
            assert(edge_seq[i as int] == self.edges@[i as int]@);
            assert(edge_seq.take(i + 1).drop_last() =~= edge_seq.take(i as int));
            if view.includes(self.edges[i].status) {
                let one = copy_edge(&self.edges[i]);
                let ghost v = one@;
                connected.insert(one.from.clone());
                connected.insert(one.to.clone());
                edges.push(one);
                proof {
                    assert(edge_views(edges@) =~= so_far.push(v));
                    crate::collections::lemma_push_contains(so_far, v);
                    let now = edge_views(edges@).to_set();
                    assert forall|id: Seq<char>| #[trigger] connected@.contains(id) <==> BuilderView::is_end(now, id) by {
                        if held.contains(id) {
                            let e = choose|e: EdgeView| #[trigger] so_far.to_set().contains(e) && (e.from == id || e.to == id);
                            assert(so_far.contains(e));
                            assert(now.contains(e));
                        }
                        if id == v.from || id == v.to {
                            assert(now.contains(v));
                        }
                        if BuilderView::is_end(now, id) {
                            let e = choose|e: EdgeView| #[trigger] now.contains(e) && (e.from == id || e.to == id);
                            assert(so_far.push(v).contains(e));
                            if e != v {
                                assert(so_far.to_set().contains(e));
                                assert(BuilderView::is_end(so_far.to_set(), id));
                            }
                        }
                    }
                }
            }
            i = i + 1;
        }
        proof {
            assert(edge_seq.take(i as int) =~= edge_seq);
            lemma_picked_strictly(edge_seq, keep, edge_order());
            lemma_picked(edge_seq, keep);
            assert(edge_views(edges@).to_set() =~= given.shown_edges(view));
        }
        let mut nodes: TextMap<Node> = TextMap::new();
        let n: usize = self.nodes.len();
        let ghost keys = self.nodes.keys();
        let ghost map = node_map(self.nodes@);
        let mut j: usize = 0;
        while j < n
            invariant
                n == keys.len(),
                keys == self.nodes.keys(),
                self.nodes.ordered(),
                self.valid(),
                map == node_map(self.nodes@),
                j <= n,
                forall|id: Seq<char>| #[trigger]
                    nodes@.contains_key(id) <==> keys.take(j as int).contains(id) && (connected@.contains(id) || self.roots@.contains(id)),
                forall|id: Seq<char>| #[trigger] nodes@.contains_key(id) ==> map.contains_key(id) && nodes@[id]@ == map[id],
            decreases n - j,
        {
            let node = self.nodes.value_at(j);
            let ghost held = nodes@;
            let ghost id = keys[j as int];
            assert(self.nodes@.contains_key(id));
            if connected.contains(node.id.as_str()) || self.roots.contains(node.id.as_str()) {
                nodes.insert(node.id.clone(), node.copy());
            }
            proof {
                assert(node.id@ == id);
                assert(keys.take(j + 1) =~= keys.take(j as int).push(id));
                crate::collections::lemma_push_contains(keys.take(j as int), id);
            }
            j = j + 1;
        }
        proof {
            assert(keys.take(n as int) =~= keys);
            assert forall|id: Seq<char>| #[trigger] nodes@.contains_key(id) implies nodes@[id].id@ == id by {
                assert(nodes@[id]@ == map[id]);
                assert(self.nodes@.contains_key(id));
            }
            assert forall|id: Seq<char>| keys.contains(id) <==> map.contains_key(id) by {}
            assert(node_map(nodes@) =~= given.seen_in(view).nodes);
        }
        self.nodes = nodes;
        self.edges = edges;
    }
}

/// A view shows no edge that its revision does not have, keeps every edge that
/// it has, and leaves each with the status it had.
pub proof fn lemma_view_narrows(builder: BuilderView, view: View, edge: EdgeView)
    ensures
        builder.seen_in(view).edges.contains(edge) <==> builder.edges.contains(edge) && shows(view, edge.status),
        builder.seen_in(view).roots == builder.roots,
        forall|id: Seq<char>| builder.seen_in(view).nodes.contains_key(id) ==> builder.nodes.contains_key(id)
            && #[trigger] builder.seen_in(view).nodes[id] == builder.nodes[id],
{
}

} // verus!
