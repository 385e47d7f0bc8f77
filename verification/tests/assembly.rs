use diffscope::analysis::{FunctionChangeStatus, FunctionChurn, MatchConfidence};
use diffscope::collections::{TextMap, TextSet};
use diffscope::graph::assembly::{admitted_files, build, Request, Revisions};
use diffscope::graph::render;
use diffscope::graph::{
    Direction, Edge, EdgeStatus, Evidence, Graph, GraphBuilder, Group, GroupRole, Limits, Node, NodeKind, NodeStatus, Relation, Resolution,
    TruncationReason, View, DEFAULT_DEPTH, DEFAULT_MAX_EDGES,
};
use diffscope::imports::symbols::{FileSymbols, SymbolIndex};
use diffscope::imports::ImportIndex;
use diffscope::languages::modules::{ExportedSymbol, ImportBinding, ImportedName};
use diffscope::languages::{CallSite, FunctionDefinition, FunctionKind, Language, SourceRange};
use diffscope::metrics::FunctionMetrics;
use diffscope::query::rows::function_id;
use diffscope::result::{AnalysisResult, AnalysisSummary, FileResult, FunctionResult, RevisionResult, SCHEMA_VERSION};
use diffscope::FileStatus;

/// Every relation a graph can be built over.
fn every() -> Vec<Relation> {
    vec![
        Relation::Calls,
        Relation::Imports,
        Relation::ReExports,
        Relation::TestedBy,
        Relation::Contains,
        Relation::PossibleCall,
    ]
}

fn from_edges(edges: &[(&str, &str)], files: &[&str]) -> ImportIndex {
    let mut index = ImportIndex::new();
    for (from, to) in edges {
        index.add_link(from, to);
    }
    for file in files {
        index.add_file(file);
    }
    index
}

fn bind(index: &mut ImportIndex, from: &str, local: &str, imported: ImportedName, specifier: &str, target: &str, line: u32) {
    index.add_specifier(from, specifier, line, Some(target.to_owned()));
    index.add_binding(from, local, ImportBinding { imported, specifier: specifier.to_owned(), line });
}

fn analysis(files: Vec<FileResult>) -> AnalysisResult {
    AnalysisResult {
        schema_version: SCHEMA_VERSION,
        tool_version: "test".to_owned(),
        repository: "repository".to_owned(),
        base: RevisionResult { id: "base".to_owned(), display_name: "base".to_owned() },
        target: RevisionResult { id: "target".to_owned(), display_name: "target".to_owned() },
        summary: AnalysisSummary::default(),
        files,
        diagnostics: Vec::new(),
    }
}

fn changed_file(base: Option<&str>, target: Option<&str>, status: FileStatus) -> FileResult {
    FileResult {
        base_path: base.map(str::to_owned),
        target_path: target.map(str::to_owned),
        status,
        language: None,
        is_binary: false,
        added_lines: 0,
        removed_lines: 0,
        hunks: Vec::new(),
        functions: Vec::new(),
        exports_added: Vec::new(),
        exports_removed: Vec::new(),
        diagnostics: Vec::new(),
    }
}

fn modified(path: &str) -> FileResult {
    changed_file(Some(path), Some(path), FileStatus::Modified)
}

fn range(line: u32) -> SourceRange {
    SourceRange { start_line: line, start_column: 0, end_line: line + 4, end_column: 1 }
}

fn site(name: &str, receiver: Option<&str>, line: u32) -> CallSite {
    CallSite { name: name.to_owned(), receiver: receiver.map(str::to_owned), line }
}

fn calls(sites: &[(&str, u32)]) -> Vec<CallSite> {
    sites.iter().map(|(name, line)| site(name, None, *line)).collect()
}

fn definition(name: &str, line: u32, sites: Vec<CallSite>) -> FunctionDefinition {
    FunctionDefinition {
        language: Language::TypeScript,
        kind: FunctionKind::Function,
        qualified_name: name.to_owned(),
        range: range(line),
        metrics: FunctionMetrics { physical_loc: 1, source_loc: 1, cyclomatic_complexity: 1, cognitive_complexity: 0 },
        calls: sites,
        body_hash: 0,
    }
}

/// One function record: the fields the graph reads, and the calls each side
/// wrote. `base` and `target` are the lines the definition starts at on that
/// side; `None` means the side has no definition.
fn record(
    id: &str,
    name: &str,
    status: FunctionChangeStatus,
    base: Option<u32>,
    target: Option<u32>,
    before: Vec<CallSite>,
    after: Vec<CallSite>,
) -> FunctionResult {
    FunctionResult {
        id: id.to_owned(),
        status,
        kind: FunctionKind::Function,
        qualified_name: name.to_owned(),
        base_range: base.map(range),
        target_range: target.map(range),
        metrics_before: None,
        metrics_after: None,
        calls_before: before,
        calls_after: after,
        churn: FunctionChurn { lines_removed: 0, lines_added: 0, changed_hunks: 0 },
        match_confidence: MatchConfidence::Exact,
        diagnostics: Vec::new(),
    }
}

fn file_symbols(exports: Vec<(&str, ExportedSymbol)>, modules: &[&str], functions: Vec<FunctionDefinition>) -> FileSymbols {
    let mut table = TextMap::new();
    for (name, symbol) in exports {
        table.insert(name.to_owned(), symbol);
    }
    let mut forwarded = TextSet::new();
    for module in modules {
        forwarded.insert((*module).to_owned());
    }
    FileSymbols { exports: table, re_exported_modules: forwarded, functions }
}

/// A file that declares one exported function, and may call others.
fn declares(name: &str, line: u32, sites: Vec<CallSite>) -> FileSymbols {
    let symbol = ExportedSymbol { local: name.to_owned(), from: None, function: Some(range(line)), line };
    file_symbols(vec![(name, symbol)], &[], vec![definition(name, line, sites)])
}

/// A barrel module forwarding one name from another.
fn barrel(exported: &str, local: &str, specifier: &str) -> FileSymbols {
    let symbol = ExportedSymbol { local: local.to_owned(), from: Some(specifier.to_owned()), function: None, line: 1 };
    file_symbols(vec![(exported, symbol)], &[specifier], Vec::new())
}

/// One changed file with its functions, in revisions that were never parsed for
/// symbols: a local call graph resolves nothing across files.
struct Scene {
    file: FileResult,
}

impl Scene {
    fn new(path: &str) -> Scene {
        Scene { file: modified(path) }
    }

    fn with(
        mut self,
        id: &str,
        name: &str,
        status: FunctionChangeStatus,
        base: Option<u32>,
        target: Option<u32>,
        before: &[(&str, u32)],
        after: &[(&str, u32)],
    ) -> Scene {
        self.file.functions.push(record(id, name, status, base, target, calls(before), calls(after)));
        self
    }

    fn published_id(&self, position: usize) -> String {
        function_id(&self.file, &self.file.functions[position])
    }

    fn build(self, request: &Request) -> Graph {
        let index = ImportIndex::new();
        build_modules(&analysis(vec![self.file]), &index, &index, request)
    }
}

fn request<'a>(roots: &'a Vec<String>, relations: &'a Vec<Relation>) -> Request<'a> {
    Request {
        roots,
        function_root: None,
        direction: Direction::Both,
        relations,
        depth: DEFAULT_DEPTH,
        view: View::Delta,
        limits: Limits::default(),
    }
}

fn function_request<'a>(none: &'a Vec<String>, id: &'a str, relations: &'a Vec<Relation>, depth: u32) -> Request<'a> {
    Request {
        roots: none,
        function_root: Some(id),
        direction: Direction::Both,
        relations,
        depth,
        view: View::Delta,
        limits: Limits::default(),
    }
}

/// Build a graph over revisions that were never parsed for symbols.
fn build_modules(result: &AnalysisResult, base: &ImportIndex, target: &ImportIndex, request: &Request) -> Graph {
    let none = SymbolIndex::new();
    build(result, &Revisions { base, target, base_symbols: &none, target_symbols: &none }, request)
}

fn paths_of(paths: &[&str]) -> Vec<String> {
    paths.iter().map(|path| (*path).to_owned()).collect()
}

fn node<'a>(graph: &'a Graph, path: &str) -> Option<&'a Node> {
    graph.node(&Node::module_id(path))
}

fn function_node<'a>(graph: &'a Graph, id: &str) -> Option<&'a Node> {
    graph.node(&Node::function_id(id))
}

fn edge<'a>(graph: &'a Graph, from: &str, to: &str) -> Option<&'a Edge> {
    graph.edges().iter().find(|edge| edge.from == Node::module_id(from) && edge.to == Node::module_id(to))
}

fn function_edge<'a>(graph: &'a Graph, relation: Relation, from: &str, to: &str) -> Option<&'a Edge> {
    graph
        .edges()
        .iter()
        .find(|edge| edge.relation == relation && edge.from == Node::function_id(from) && edge.to == Node::function_id(to))
}

fn call_edge<'a>(graph: &'a Graph, from: &str, to: &str) -> Option<&'a Edge> {
    function_edge(graph, Relation::Calls, from, to)
}

fn guessed_edge<'a>(graph: &'a Graph, from: &str, to: &str) -> Option<&'a Edge> {
    function_edge(graph, Relation::PossibleCall, from, to)
}

fn contains_edge<'a>(graph: &'a Graph, path: &str, id: &str) -> Option<&'a Edge> {
    graph
        .edges()
        .iter()
        .find(|edge| edge.relation == Relation::Contains && edge.from == Node::module_id(path) && edge.to == Node::function_id(id))
}

fn group_edge<'a>(graph: &'a Graph, group: &str, to: &str, resolution: Resolution) -> Option<&'a Edge> {
    graph
        .edges()
        .iter()
        .find(|edge| edge.from == group && edge.to == Node::module_id(to) && edge.resolution == resolution)
}

fn node_paths(graph: &Graph) -> Vec<&str> {
    graph.nodes().iter().map(|node| node.path.as_str()).collect()
}

fn sorted_labels(graph: &Graph) -> Vec<&str> {
    let mut labels = graph.nodes().iter().map(|node| node.label.as_str()).collect::<Vec<_>>();
    labels.sort_unstable();
    labels
}

fn no_calls(graph: &Graph) -> bool {
    graph.edges().iter().all(|edge| edge.relation != Relation::Calls)
}

#[test]
fn an_edges_status_is_its_membership_in_the_two_revisions() {
    let base = from_edges(&[("src/a.ts", "src/b.ts"), ("src/old.ts", "src/a.ts")], &[]);
    let target = from_edges(&[("src/a.ts", "src/b.ts"), ("src/a.ts", "src/new.ts")], &[]);
    let result = analysis(vec![modified("src/a.ts")]);
    let roots = paths_of(&["src/a.ts"]);

    let graph = build_modules(&result, &base, &target, &request(&roots, &every()));

    assert_eq!(edge(&graph, "src/a.ts", "src/b.ts").map(|edge| edge.status), Some(EdgeStatus::Unchanged));
    assert_eq!(edge(&graph, "src/a.ts", "src/new.ts").map(|edge| edge.status), Some(EdgeStatus::Added));
    assert_eq!(edge(&graph, "src/old.ts", "src/a.ts").map(|edge| edge.status), Some(EdgeStatus::Removed));
    assert!(edge(&graph, "src/a.ts", "src/b.ts").is_some_and(|edge| edge.evidence.is_none()));
}

#[test]
fn a_modified_file_is_a_modified_node_although_it_is_in_both_revisions() {
    let index = from_edges(&[("src/consumer.ts", "src/changed.ts")], &[]);
    let result = analysis(vec![modified("src/changed.ts"), modified("src/consumer.ts")]);
    let roots = paths_of(&["src/changed.ts"]);

    let graph = build_modules(&result, &index, &index, &request(&roots, &every()));

    assert_eq!(node(&graph, "src/consumer.ts").map(|node| node.status), Some(NodeStatus::Modified));
    assert_eq!(
        edge(&graph, "src/consumer.ts", "src/changed.ts").map(|edge| edge.status),
        Some(EdgeStatus::Unchanged)
    );
}

#[test]
fn upstream_reaches_importers_and_downstream_reaches_dependencies() {
    let index = from_edges(&[("src/app.ts", "src/core.ts"), ("src/core.ts", "src/leaf.ts")], &[]);
    let result = analysis(vec![modified("src/core.ts")]);
    let roots = paths_of(&["src/core.ts"]);
    let relations = every();

    let mut upstream = request(&roots, &relations);
    upstream.direction = Direction::Upstream;
    let graph = build_modules(&result, &index, &index, &upstream);
    assert_eq!(node_paths(&graph), vec!["src/app.ts", "src/core.ts"]);

    let mut downstream = request(&roots, &relations);
    downstream.direction = Direction::Downstream;
    let graph = build_modules(&result, &index, &index, &downstream);
    assert_eq!(node_paths(&graph), vec!["src/core.ts", "src/leaf.ts"]);
}

#[test]
fn a_walk_stops_at_the_requested_depth() {
    let index = from_edges(&[("src/a.ts", "src/b.ts"), ("src/b.ts", "src/c.ts")], &[]);
    let result = analysis(vec![modified("src/a.ts")]);
    let roots = paths_of(&["src/a.ts"]);
    let relations = every();

    let mut hops = request(&roots, &relations);
    hops.direction = Direction::Downstream;
    let graph = build_modules(&result, &index, &index, &hops);
    assert_eq!(node_paths(&graph), vec!["src/a.ts", "src/b.ts"]);

    hops.depth = 2;
    let graph = build_modules(&result, &index, &index, &hops);
    assert_eq!(node_paths(&graph), vec!["src/a.ts", "src/b.ts", "src/c.ts"]);
}

#[test]
fn a_cycle_keeps_its_closing_edge_and_the_walk_terminates() {
    let index = from_edges(&[("src/a.ts", "src/b.ts"), ("src/b.ts", "src/a.ts")], &[]);
    let result = analysis(vec![modified("src/a.ts")]);
    let roots = paths_of(&["src/a.ts"]);

    let graph = build_modules(&result, &index, &index, &request(&roots, &every()));

    assert_eq!(node_paths(&graph), vec!["src/a.ts", "src/b.ts"]);
    assert!(edge(&graph, "src/a.ts", "src/b.ts").is_some());
    assert!(edge(&graph, "src/b.ts", "src/a.ts").is_some());
}

#[test]
fn a_built_cycle_renders_inside_a_subgraph_identically_across_builds() {
    let index = from_edges(
        &[("src/a.ts", "src/b.ts"), ("src/b.ts", "src/c.ts"), ("src/c.ts", "src/a.ts")],
        &[],
    );
    let result = analysis(vec![modified("src/a.ts")]);
    let roots = paths_of(&["src/a.ts"]);
    let relations = every();
    let build_graph = || {
        let mut deep = request(&roots, &relations);
        deep.depth = 2;
        build_modules(&result, &index, &index, &deep)
    };

    let graph = build_graph();
    assert_eq!(node_paths(&graph), vec!["src/a.ts", "src/b.ts", "src/c.ts"]);
    let cycles = graph.cycles();
    assert_eq!(cycles.len(), 1);
    assert_eq!(cycles[0].size(), 3);

    let drawn = render::mermaid(&graph);
    assert!(
        drawn.contains(
            &[
                "    subgraph c0[\"cycle · 3 nodes\"]\n",
                "        n0[\"a.ts · modified\"]\n",
                "        n1[\"b.ts\"]\n",
                "        n2[\"c.ts\"]\n",
                "    end\n",
            ]
            .concat()
        ),
        "the loop is drawn as one box: {drawn}"
    );
    assert_eq!(drawn, render::mermaid(&build_graph()));
}

#[test]
fn tested_by_edges_carry_the_resolutions_and_confidences_of_their_links() {
    let index = from_edges(&[("src/__tests__/core.spec.ts", "src/core.ts")], &["src/__tests__/core.test.ts"]);
    let result = analysis(vec![modified("src/core.ts")]);
    let roots = paths_of(&["src/core.ts"]);

    let graph = build_modules(&result, &index, &index, &request(&roots, &vec![Relation::TestedBy]));

    // The two tests are one group, and each resolution is a different claim
    // about the module, so each keeps its own edge and its own confidence.
    let tests = Node::group_id(GroupRole::Tests);
    let imports = group_edge(&graph, &tests, "src/core.ts", Resolution::TestImportsModule).expect("a test imports the module");
    assert_eq!(imports.relation, Relation::TestedBy);
    assert_eq!(imports.status, EdgeStatus::Unchanged);
    assert_eq!(imports.confidence(), 90);

    let convention =
        group_edge(&graph, &tests, "src/core.ts", Resolution::TestNameMatchesModule).expect("a test is named after the module");
    assert_eq!(convention.confidence(), 80);

    // The group sits one hop past the module its tests cover.
    let group = graph.node(&tests).expect("the tests are a node");
    assert_eq!(group.depth, 1);
    assert_eq!(group.status, NodeStatus::Unchanged);
}

#[test]
fn relations_without_tested_by_leave_the_tests_out() {
    let index = from_edges(&[("src/__tests__/core.spec.ts", "src/core.ts")], &[]);
    let result = analysis(vec![modified("src/core.ts")]);
    let roots = paths_of(&["src/core.ts"]);

    let graph = build_modules(&result, &index, &index, &request(&roots, &vec![Relation::Imports]));

    assert!(edge(&graph, "src/__tests__/core.spec.ts", "src/core.ts").is_some());
    assert!(graph.edges().iter().all(|edge| edge.relation == Relation::Imports));
}

#[test]
fn an_empty_root_set_is_the_changed_files_at_their_target_paths() {
    let index = from_edges(&[("src/renamed.ts", "src/leaf.ts")], &[]);
    let result = analysis(vec![
        changed_file(Some("src/old-name.ts"), Some("src/renamed.ts"), FileStatus::Renamed),
        changed_file(None, Some("src/leaf.ts"), FileStatus::Added),
    ]);

    let graph = build_modules(&result, &index, &index, &request(&Vec::new(), &every()));

    assert_eq!(node_paths(&graph), vec!["src/leaf.ts", "src/renamed.ts"]);
    assert_eq!(node(&graph, "src/renamed.ts").map(|node| node.status), Some(NodeStatus::Modified));
    assert_eq!(node(&graph, "src/leaf.ts").map(|node| node.status), Some(NodeStatus::Added));
    assert!(graph.is_root(&Node::module_id("src/renamed.ts")));
    assert!(graph.is_root(&Node::module_id("src/leaf.ts")));
}

#[test]
fn a_comparison_admits_changed_files_and_their_direct_neighbors() {
    let base = from_edges(&[("src/was.ts", "src/core.ts")], &[]);
    let target = from_edges(&[("src/app.ts", "src/core.ts"), ("src/core.ts", "src/leaf.ts"), ("src/far.ts", "src/app.ts")], &[]);
    let result = analysis(vec![modified("src/core.ts")]);
    assert_eq!(
        admitted_files(&result, &base, &target).to_vec(),
        vec!["src/app.ts", "src/core.ts", "src/leaf.ts", "src/was.ts"]
    );
}

/// A modified root whose target side calls `helper`, and the helper it calls.
fn root_and_helper() -> Scene {
    Scene::new("src/a.ts")
        .with("function-1", "root", FunctionChangeStatus::Modified, Some(1), Some(1), &[], &[("helper", 7)])
        .with("function-2", "helper", FunctionChangeStatus::Unchanged, Some(10), Some(10), &[], &[])
}

#[test]
fn a_call_to_a_function_declared_in_the_same_file_becomes_a_calls_edge() {
    let scene = root_and_helper();
    let root_id = scene.published_id(0);
    let helper_id = scene.published_id(1);

    let graph = scene.build(&function_request(&Vec::new(), &root_id, &every(), DEFAULT_DEPTH));

    let edge = call_edge(&graph, &root_id, &helper_id).expect("the call resolves");
    assert_eq!(edge.relation, Relation::Calls);
    assert_eq!(edge.resolution, Resolution::DirectLocalSymbol);
    assert_eq!(edge.status, EdgeStatus::Added);
    assert_eq!(edge.confidence(), 100);
    assert_eq!(edge.evidence, Some(Evidence { file: "src/a.ts".to_owned(), line: 7 }));
    assert_eq!(graph.edges().iter().filter(|edge| edge.relation == Relation::Calls).count(), 1);
    assert!(graph.is_root(&Node::function_id(&root_id)));
    assert_eq!(function_node(&graph, &helper_id).map(|node| node.depth), Some(1));
}

#[test]
fn a_callee_declared_twice_in_one_file_produces_no_edge() {
    let scene = root_and_helper().with("function-3", "helper", FunctionChangeStatus::Unchanged, Some(20), Some(20), &[], &[]);
    let root_id = scene.published_id(0);

    let graph = scene.build(&function_request(&Vec::new(), &root_id, &every(), DEFAULT_DEPTH));

    assert!(no_calls(&graph));
    assert!(function_node(&graph, &root_id).is_some());
}

#[test]
fn a_call_to_a_name_the_file_does_not_declare_produces_no_edge() {
    let scene = Scene::new("src/a.ts").with(
        "function-1",
        "root",
        FunctionChangeStatus::Modified,
        Some(1),
        Some(1),
        &[("imported", 4)],
        &[("imported", 4), ("parameter", 5)],
    );
    let root_id = scene.published_id(0);
    let graph = scene.build(&function_request(&Vec::new(), &root_id, &every(), DEFAULT_DEPTH));
    assert!(no_calls(&graph));
}

#[test]
fn an_extracted_helper_is_an_added_node_with_an_added_calls_edge() {
    let scene = Scene::new("src/a.ts")
        .with("function-1", "root", FunctionChangeStatus::Modified, Some(1), Some(1), &[], &[("helper", 3)])
        .with("function-2", "helper", FunctionChangeStatus::Added, None, Some(10), &[], &[]);
    let root_id = scene.published_id(0);
    let helper_id = scene.published_id(1);

    let graph = scene.build(&function_request(&Vec::new(), &root_id, &every(), DEFAULT_DEPTH));

    let helper = function_node(&graph, &helper_id).expect("the helper is a node");
    assert_eq!(helper.status, NodeStatus::Added);
    assert_eq!(helper.label, "helper");

    let edge = call_edge(&graph, &root_id, &helper_id).expect("the new call resolves");
    assert_eq!(edge.status, EdgeStatus::Added);
    assert_eq!(edge.evidence.as_ref().map(|evidence| evidence.line), Some(3));

    let contains = contains_edge(&graph, "src/a.ts", &helper_id).expect("the module declares the helper");
    assert_eq!(contains.status, EdgeStatus::Added);
    assert_eq!(contains.resolution, Resolution::Declaration);
    assert_eq!(contains.confidence(), 100);
}

#[test]
fn a_recursive_function_produces_a_self_edge_and_the_walk_terminates() {
    let scene = Scene::new("src/a.ts").with("function-1", "root", FunctionChangeStatus::Modified, Some(1), Some(1), &[], &[("root", 5)]);
    let root_id = scene.published_id(0);

    let graph = scene.build(&function_request(&Vec::new(), &root_id, &every(), DEFAULT_DEPTH));

    let edge = call_edge(&graph, &root_id, &root_id).expect("the recursive call is an edge");
    assert_eq!(edge.status, EdgeStatus::Added);
    let labels = graph.nodes().iter().map(|node| node.label.as_str()).collect::<Vec<_>>();
    assert_eq!(labels, vec!["a.ts", "root"]);
}

#[test]
fn a_call_each_side_wrote_reads_unchanged_and_one_only_the_base_wrote_reads_removed() {
    let scene = Scene::new("src/a.ts")
        .with(
            "function-1",
            "root",
            FunctionChangeStatus::Modified,
            Some(1),
            Some(1),
            &[("kept", 3), ("gone", 4)],
            &[("kept", 8)],
        )
        .with("function-2", "kept", FunctionChangeStatus::Unchanged, Some(10), Some(10), &[], &[])
        .with("function-3", "gone", FunctionChangeStatus::Removed, Some(20), None, &[], &[]);
    let root_id = scene.published_id(0);
    let kept_id = scene.published_id(1);
    let gone_id = scene.published_id(2);

    let graph = scene.build(&function_request(&Vec::new(), &root_id, &every(), DEFAULT_DEPTH));

    let kept = call_edge(&graph, &root_id, &kept_id).expect("the kept call is an edge");
    assert_eq!(kept.status, EdgeStatus::Unchanged);
    assert_eq!(kept.evidence.as_ref().map(|evidence| evidence.line), Some(8));

    let gone = call_edge(&graph, &root_id, &gone_id).expect("the removed call is an edge");
    assert_eq!(gone.status, EdgeStatus::Removed);
    assert_eq!(gone.evidence.as_ref().map(|evidence| evidence.line), Some(4));
}

fn chain() -> Scene {
    Scene::new("src/a.ts")
        .with("function-1", "caller", FunctionChangeStatus::Modified, Some(1), Some(1), &[], &[("root", 3)])
        .with("function-2", "root", FunctionChangeStatus::Modified, Some(10), Some(10), &[], &[("helper", 12)])
        .with("function-3", "helper", FunctionChangeStatus::Unchanged, Some(20), Some(20), &[], &[("leaf", 22)])
        .with("function-4", "leaf", FunctionChangeStatus::Unchanged, Some(30), Some(30), &[], &[])
}

#[test]
fn a_function_root_walks_calls_in_the_direction_and_to_the_depth_it_was_asked_for() {
    let caller_id = chain().published_id(0);
    let root_id = chain().published_id(1);
    let helper_id = chain().published_id(2);
    let leaf_id = chain().published_id(3);
    let none = Vec::new();
    let relations = every();

    let mut asked = function_request(&none, &root_id, &relations, 1);
    asked.direction = Direction::Downstream;
    let graph = chain().build(&asked);
    assert_eq!(sorted_labels(&graph), vec!["a.ts", "helper", "root"]);
    assert!(call_edge(&graph, &root_id, &helper_id).is_some());
    assert!(call_edge(&graph, &caller_id, &root_id).is_none());

    asked.depth = 2;
    let graph = chain().build(&asked);
    assert_eq!(sorted_labels(&graph), vec!["a.ts", "helper", "leaf", "root"]);
    assert!(call_edge(&graph, &helper_id, &leaf_id).is_some());

    let mut upstream = function_request(&none, &root_id, &relations, 1);
    upstream.direction = Direction::Upstream;
    let graph = chain().build(&upstream);
    assert_eq!(sorted_labels(&graph), vec!["a.ts", "caller", "root"]);
    assert!(call_edge(&graph, &caller_id, &root_id).is_some());
    assert!(call_edge(&graph, &root_id, &helper_id).is_none());
}

#[test]
fn contains_edges_attach_the_module_unless_the_relation_is_excluded() {
    let root_id = root_and_helper().published_id(0);
    let helper_id = root_and_helper().published_id(1);

    let graph = root_and_helper().build(&function_request(
        &Vec::new(),
        &root_id,
        &vec![Relation::Calls, Relation::Contains],
        DEFAULT_DEPTH,
    ));
    assert!(contains_edge(&graph, "src/a.ts", &root_id).is_some());
    assert!(contains_edge(&graph, "src/a.ts", &helper_id).is_some());
    assert_eq!(node(&graph, "src/a.ts").map(|node| node.kind), Some(NodeKind::Module));

    let graph = root_and_helper().build(&function_request(&Vec::new(), &root_id, &vec![Relation::Calls], DEFAULT_DEPTH));
    assert!(graph.edges().iter().all(|edge| edge.relation == Relation::Calls));
    assert!(graph.nodes().iter().all(|node| node.kind == NodeKind::Function));
}

#[test]
fn a_file_rooted_graph_keeps_the_module_only_answer() {
    let roots = paths_of(&["src/a.ts"]);
    let graph = root_and_helper().build(&request(&roots, &every()));
    assert_eq!(node_paths(&graph), vec!["src/a.ts"]);
    assert!(graph.nodes().iter().all(|node| node.kind == NodeKind::Module));
    assert!(graph.edges().is_empty());
}

#[test]
fn a_function_root_the_analysis_does_not_contain_is_an_empty_graph() {
    let graph = root_and_helper().build(&function_request(
        &Vec::new(),
        "src/a.ts#fn:absent@target:1:0",
        &every(),
        DEFAULT_DEPTH,
    ));
    assert!(graph.nodes().is_empty());
    assert!(graph.edges().is_empty());
}

#[test]
fn a_function_root_without_call_relations_is_the_function_alone() {
    let root_id = root_and_helper().published_id(0);
    let graph = root_and_helper().build(&function_request(&Vec::new(), &root_id, &Relation::supported(), 3));
    assert_eq!(sorted_labels(&graph), vec!["root"]);
    assert!(graph.edges().is_empty());
    assert!(graph.is_root(&Node::function_id(&root_id)));
}

/// The changed file every cross-file test is rooted in: `src/a.ts` declaring
/// `root`, which writes the calls given.
fn rooted(before: Vec<CallSite>, after: Vec<CallSite>) -> FileResult {
    let mut file = modified("src/a.ts");
    file.functions.push(record("function-1", "root", FunctionChangeStatus::Modified, Some(1), Some(1), before, after));
    file
}

/// The symbols of a revision where `src/a.ts` declares `root`.
fn with_root(files: Vec<(&str, FileSymbols)>) -> SymbolIndex {
    let mut symbols = SymbolIndex::new();
    symbols.insert("src/a.ts", declares("root", 1, Vec::new()));
    for (path, file) in files {
        symbols.insert(path, file);
    }
    symbols
}

fn external_id(path: &str, name: &str, side: &str, line: u32) -> String {
    format!("{path}#fn:{name}@{side}:{line}:0")
}

fn root_id() -> String {
    let file = rooted(Vec::new(), Vec::new());
    function_id(&file, &file.functions[0])
}

/// Build the graph of `root` over one index that both revisions share.
fn build_rooted(index: &ImportIndex, file: FileResult, base: &SymbolIndex, target: &SymbolIndex, relations: &Vec<Relation>) -> Graph {
    build(
        &analysis(vec![file]),
        &Revisions { base: index, target: index, base_symbols: base, target_symbols: target },
        &function_request(&Vec::new(), &root_id(), relations, DEFAULT_DEPTH),
    )
}

#[test]
fn a_named_import_called_directly_resolves_exactly() {
    let mut index = ImportIndex::new();
    bind(&mut index, "src/a.ts", "strip", ImportedName::Named("stripComments".to_owned()), "./parse", "src/parse.ts", 2);
    let base = with_root(vec![("src/parse.ts", declares("stripComments", 12, Vec::new()))]);
    let target = with_root(vec![("src/parse.ts", declares("stripComments", 12, Vec::new()))]);

    let graph = build_rooted(&index, rooted(Vec::new(), vec![site("strip", None, 7)]), &base, &target, &every());

    let callee = external_id("src/parse.ts", "stripComments", "target", 12);
    let edge = call_edge(&graph, &root_id(), &callee).expect("the imported call resolves");
    assert_eq!(edge.resolution, Resolution::ImportedSymbol);
    assert_eq!(edge.confidence(), 100);
    assert_eq!(edge.status, EdgeStatus::Added);
    assert_eq!(edge.evidence.as_ref().map(|evidence| evidence.file.as_str()), Some("src/a.ts"));

    let node = function_node(&graph, &callee).expect("the callee is a node");
    assert_eq!(node.label, "stripComments");
    assert_eq!(node.path, "src/parse.ts");
    assert_eq!(node.status, NodeStatus::Unchanged);
}

#[test]
fn a_renamed_import_resolves_to_the_name_the_module_exports() {
    let mut index = ImportIndex::new();
    bind(&mut index, "src/a.ts", "b", ImportedName::Named("a".to_owned()), "./x", "src/x.ts", 1);
    let base = with_root(vec![("src/x.ts", declares("a", 3, Vec::new()))]);
    let target = with_root(vec![("src/x.ts", declares("a", 3, Vec::new()))]);

    let graph = build_rooted(&index, rooted(Vec::new(), vec![site("b", None, 4)]), &base, &target, &every());

    let callee = external_id("src/x.ts", "a", "target", 3);
    assert!(call_edge(&graph, &root_id(), &callee).is_some());
    assert_eq!(function_node(&graph, &callee).map(|node| node.label.as_str()), Some("a"));
}

#[test]
fn a_default_import_resolves_to_the_default_export() {
    let mut index = ImportIndex::new();
    bind(&mut index, "src/a.ts", "compile", ImportedName::Default, "./compiler", "src/compiler.ts", 1);
    let compiler = || {
        let symbol = ExportedSymbol { local: "compileStyle".to_owned(), from: None, function: Some(range(9)), line: 9 };
        file_symbols(vec![("default", symbol)], &[], vec![definition("compileStyle", 9, Vec::new())])
    };
    let base = with_root(vec![("src/compiler.ts", compiler())]);
    let target = with_root(vec![("src/compiler.ts", compiler())]);

    let graph = build_rooted(&index, rooted(Vec::new(), vec![site("compile", None, 6)]), &base, &target, &every());

    let callee = external_id("src/compiler.ts", "compileStyle", "target", 9);
    assert!(call_edge(&graph, &root_id(), &callee).is_some());
}

#[test]
fn a_namespace_import_resolves_only_through_a_named_property() {
    let mut index = ImportIndex::new();
    bind(&mut index, "src/a.ts", "ns", ImportedName::Namespace, "./parse", "src/parse.ts", 1);
    let base = with_root(vec![("src/parse.ts", declares("parse", 4, Vec::new()))]);
    let target = with_root(vec![("src/parse.ts", declares("parse", 4, Vec::new()))]);

    let graph = build_rooted(&index, rooted(Vec::new(), vec![site("parse", Some("ns"), 5), site("run", Some("other"), 6)]), &base, &target, &every());

    let callee = external_id("src/parse.ts", "parse", "target", 4);
    assert!(call_edge(&graph, &root_id(), &callee).is_some());
    assert_eq!(graph.edges().len(), 2);
}

#[test]
fn a_re_export_chain_resolves_less_confidently_than_a_direct_import() {
    let mut index = ImportIndex::new();
    bind(&mut index, "src/a.ts", "strip", ImportedName::Named("stripComments".to_owned()), "./index", "src/index.ts", 1);
    index.add_specifier("src/index.ts", "./parse", 1, Some("src/parse.ts".to_owned()));
    let files = || {
        vec![
            ("src/index.ts", barrel("stripComments", "stripComments", "./parse")),
            ("src/parse.ts", declares("stripComments", 30, Vec::new())),
        ]
    };
    let base = with_root(files());
    let target = with_root(files());

    let graph = build_rooted(&index, rooted(Vec::new(), vec![site("strip", None, 7)]), &base, &target, &every());

    let callee = external_id("src/parse.ts", "stripComments", "target", 30);
    let edge = call_edge(&graph, &root_id(), &callee).expect("the chain resolves");
    assert_eq!(edge.resolution, Resolution::ReExportedSymbol);
    assert_eq!(edge.confidence(), 90);
}

#[test]
fn a_name_reached_only_through_a_whole_module_re_export_produces_no_edge() {
    let mut index = ImportIndex::new();
    bind(&mut index, "src/a.ts", "strip", ImportedName::Named("stripComments".to_owned()), "./index", "src/index.ts", 1);
    index.add_specifier("src/index.ts", "./parse", 1, Some("src/parse.ts".to_owned()));
    let files = || {
        vec![
            ("src/index.ts", file_symbols(Vec::new(), &["./parse"], Vec::new())),
            ("src/parse.ts", declares("stripComments", 30, Vec::new())),
        ]
    };
    let base = with_root(files());
    let target = with_root(files());

    assert!(no_calls(&build_rooted(&index, rooted(Vec::new(), vec![site("strip", None, 7)]), &base, &target, &every())));
}

#[test]
fn a_specifier_this_revision_does_not_have_produces_no_edge() {
    let mut index = ImportIndex::new();
    index.add_specifier("src/a.ts", "lodash", 1, None);
    index.add_binding(
        "src/a.ts",
        "debounce",
        ImportBinding { imported: ImportedName::Named("debounce".to_owned()), specifier: "lodash".to_owned(), line: 1 },
    );
    let base = with_root(Vec::new());
    let target = with_root(Vec::new());

    assert!(no_calls(&build_rooted(&index, rooted(Vec::new(), vec![site("debounce", None, 7)]), &base, &target, &every())));
}

#[test]
fn a_caller_the_change_removed_is_a_removed_edge() {
    let mut base = ImportIndex::new();
    bind(&mut base, "src/caller.ts", "root", ImportedName::Named("root".to_owned()), "./a", "src/a.ts", 1);
    let target = ImportIndex::new();
    let base_symbols = with_root(vec![("src/caller.ts", declares("caller", 5, vec![site("root", None, 6)]))]);
    let target_symbols = with_root(Vec::new());

    let graph = build(
        &analysis(vec![rooted(Vec::new(), Vec::new())]),
        &Revisions { base: &base, target: &target, base_symbols: &base_symbols, target_symbols: &target_symbols },
        &function_request(&Vec::new(), &root_id(), &every(), DEFAULT_DEPTH),
    );

    let caller = external_id("src/caller.ts", "caller", "base", 5);
    let edge = call_edge(&graph, &caller, &root_id()).expect("the removed caller is an edge");
    assert_eq!(edge.status, EdgeStatus::Removed);
    assert_eq!(edge.evidence.as_ref().map(|evidence| evidence.file.as_str()), Some("src/caller.ts"));
    let node = function_node(&graph, &caller).expect("the caller is a node");
    assert_eq!(node.status, NodeStatus::Removed);
}

#[test]
fn only_direct_importers_are_read_for_callers() {
    let mut index = ImportIndex::new();
    bind(&mut index, "src/direct.ts", "root", ImportedName::Named("root".to_owned()), "./a", "src/a.ts", 1);
    bind(&mut index, "src/indirect.ts", "root", ImportedName::Named("root".to_owned()), "./direct", "src/direct.ts", 1);
    let symbols = with_root(vec![
            ("src/direct.ts", declares("direct", 5, vec![site("root", None, 6)])),
            ("src/indirect.ts", declares("indirect", 5, vec![site("root", None, 6)])),
        ]);

    let graph = build_rooted(&index, rooted(Vec::new(), Vec::new()), &symbols, &symbols, &every());

    assert!(call_edge(&graph, &external_id("src/direct.ts", "direct", "target", 5), &root_id()).is_some());
    assert!(function_node(&graph, &external_id("src/indirect.ts", "indirect", "target", 5)).is_none());
}

#[test]
fn a_module_that_forwards_another_reports_a_re_exports_edge() {
    let result = analysis(vec![modified("src/index.ts")]);
    let mut index = ImportIndex::new();
    index.add_specifier("src/index.ts", "./parse", 3, Some("src/parse.ts".to_owned()));
    let mut symbols = SymbolIndex::new();
    symbols.insert("src/index.ts", barrel("stripComments", "stripComments", "./parse"));
    symbols.insert("src/parse.ts", declares("stripComments", 30, Vec::new()));
    let empty = SymbolIndex::new();
    let base = ImportIndex::new();

    let graph = build(
        &result,
        &Revisions { base: &base, target: &index, base_symbols: &empty, target_symbols: &symbols },
        &request(&paths_of(&["src/index.ts"]), &every()),
    );

    let edge = graph
        .edges()
        .iter()
        .find(|edge| edge.relation == Relation::ReExports)
        .expect("the forwarding is an edge");
    assert_eq!(edge.from, Node::module_id("src/index.ts"));
    assert_eq!(edge.to, Node::module_id("src/parse.ts"));
    assert_eq!(edge.resolution, Resolution::ExportClause);
    assert_eq!(edge.status, EdgeStatus::Added);
    assert_eq!(edge.evidence.as_ref().map(|evidence| evidence.line), Some(3));
}

/// An index in which `src/a.ts` has a default import of every module given.
fn imports_objects(modules: &[&str]) -> ImportIndex {
    let mut index = ImportIndex::new();
    for (position, module) in modules.iter().enumerate() {
        bind(
            &mut index,
            "src/a.ts",
            &format!("handlers{position}"),
            ImportedName::Default,
            &format!("./{position}"),
            module,
            2,
        );
    }
    index
}

/// The root's file where the target calls a property of a handler.
fn property_caller() -> FileResult {
    rooted(Vec::new(), vec![site("stripComments", Some("handlers0"), 7)])
}

/// The symbols of a revision that declares what the property may name.
fn property_symbols() -> SymbolIndex {
    with_root(vec![("src/parse.ts", declares("stripComments", 12, Vec::new()))])
}

#[test]
fn a_property_call_matching_one_function_is_a_possible_call_at_half_confidence() {
    let index = imports_objects(&["src/parse.ts"]);
    let base = property_symbols();
    let target = property_symbols();

    let graph = build_rooted(&index, property_caller(), &base, &target, &every());

    let callee = external_id("src/parse.ts", "stripComments", "target", 12);
    let edge = guessed_edge(&graph, &root_id(), &callee).expect("one name, one candidate");
    assert_eq!(edge.resolution, Resolution::PropertyNameMatch);
    assert_eq!(edge.confidence(), 50);
    assert_eq!(edge.status, EdgeStatus::Added);
    assert_eq!(edge.evidence.as_ref().map(|evidence| evidence.line), Some(7));
    assert!(call_edge(&graph, &root_id(), &callee).is_none());
}

#[test]
fn a_property_name_two_modules_share_produces_nothing() {
    let index = imports_objects(&["src/parse.ts", "src/legacy.ts"]);
    let files = || {
        vec![
            ("src/parse.ts", declares("stripComments", 12, Vec::new())),
            ("src/legacy.ts", declares("stripComments", 30, Vec::new())),
        ]
    };
    let base = with_root(files());
    let target = with_root(files());

    let graph = build_rooted(&index, rooted(Vec::new(), vec![site("stripComments", Some("handlers0"), 7)]), &base, &target, &every());

    assert!(graph.edges().iter().all(|edge| edge.relation != Relation::PossibleCall));
    assert!(function_node(&graph, &external_id("src/parse.ts", "stripComments", "target", 12)).is_none());
    assert!(function_node(&graph, &external_id("src/legacy.ts", "stripComments", "target", 30)).is_none());
}

#[test]
fn a_guess_is_delivered_only_to_a_request_that_names_it() {
    let index = imports_objects(&["src/parse.ts"]);
    let base = property_symbols();
    let target = property_symbols();
    let callee = external_id("src/parse.ts", "stripComments", "target", 12);

    let proven = build_rooted(&index, property_caller(), &base, &target, &vec![Relation::Calls, Relation::Imports, Relation::Contains]);
    assert!(proven.edges().iter().all(|edge| edge.relation != Relation::PossibleCall));
    assert!(function_node(&proven, &callee).is_none());

    let asked = build_rooted(&index, property_caller(), &base, &target, &vec![Relation::PossibleCall]);
    assert!(guessed_edge(&asked, &root_id(), &callee).is_some());
}

#[test]
fn a_property_call_in_an_importer_is_a_possible_caller_of_the_root() {
    let mut index = ImportIndex::new();
    bind(&mut index, "src/direct.ts", "core", ImportedName::Default, "./a", "src/a.ts", 1);
    let symbols = with_root(vec![("src/direct.ts", declares("direct", 5, vec![site("root", Some("core"), 6)]))]);

    let graph = build_rooted(&index, rooted(Vec::new(), Vec::new()), &symbols, &symbols, &every());

    let caller = external_id("src/direct.ts", "direct", "target", 5);
    let edge = guessed_edge(&graph, &caller, &root_id()).expect("the importer may call the root");
    assert_eq!(edge.resolution, Resolution::PropertyNameMatch);
    assert_eq!(edge.evidence.as_ref().map(|evidence| evidence.file.as_str()), Some("src/direct.ts"));
    assert!(call_edge(&graph, &caller, &root_id()).is_none());
}

#[test]
fn a_guessed_graph_is_identical_across_two_builds_of_one_input() {
    let index = imports_objects(&["src/parse.ts"]);
    let base = property_symbols();
    let target = property_symbols();
    let build_once = || {
        let graph = build_rooted(&index, property_caller(), &base, &target, &every());
        (graph.edges().clone(), render::dependency_diff(&graph), render::mermaid(&graph))
    };

    let once = build_once();
    assert_eq!(build_once(), once);
    assert!(once.1.contains("-[possible_call]->"));
    assert!(once.2.contains("-. \"~0.5\" .->"));
}

#[test]
fn asking_for_guesses_leaves_the_exact_calls_as_they_were() {
    let mut index = imports_objects(&["src/parse.ts"]);
    bind(&mut index, "src/a.ts", "strip", ImportedName::Named("stripComments".to_owned()), "./parse", "src/parse.ts", 2);
    let parse = || vec![("src/parse.ts", declares("stripComments", 12, Vec::new()))];
    let sites = || vec![site("stripComments", Some("handlers0"), 7), site("strip", None, 9)];
    let base = with_root(parse());
    let target = with_root(parse());

    let exact = build_rooted(&index, rooted(Vec::new(), sites()), &base, &target, &vec![Relation::Calls]);
    let both = build_rooted(&index, rooted(Vec::new(), sites()), &base, &target, &vec![Relation::Calls, Relation::PossibleCall]);
    let callee = external_id("src/parse.ts", "stripComments", "target", 12);
    assert_eq!(call_edge(&exact, &root_id(), &callee), call_edge(&both, &root_id(), &callee));
    assert_eq!(call_edge(&both, &root_id(), &callee).and_then(|edge| edge.evidence.as_ref()).map(|evidence| evidence.line), Some(9));
    assert_eq!(guessed_edge(&both, &root_id(), &callee).and_then(|edge| edge.evidence.as_ref()).map(|evidence| evidence.line), Some(7));
    assert_eq!(both.edges().len(), 2);
}

#[test]
fn two_revisions_that_resolve_a_call_differently_keep_the_weaker_claim() {
    let mut base = ImportIndex::new();
    bind(&mut base, "src/a.ts", "strip", ImportedName::Named("strip".to_owned()), "./index", "src/index.ts", 1);
    base.add_specifier("src/index.ts", "./parse", 1, Some("src/parse.ts".to_owned()));
    let mut target = ImportIndex::new();
    bind(&mut target, "src/a.ts", "strip", ImportedName::Named("strip".to_owned()), "./parse", "src/parse.ts", 1);
    let files = || {
        vec![
            ("src/index.ts", barrel("strip", "strip", "./parse")),
            ("src/parse.ts", declares("strip", 30, Vec::new())),
        ]
    };
    let base_symbols = with_root(files());
    let target_symbols = with_root(files());

    let graph = build(
        &analysis(vec![rooted(vec![site("strip", None, 5), site("strip", None, 3)], vec![site("strip", None, 8)])]),
        &Revisions { base: &base, target: &target, base_symbols: &base_symbols, target_symbols: &target_symbols },
        &function_request(&Vec::new(), &root_id(), &vec![Relation::Calls], DEFAULT_DEPTH),
    );

    let callee = external_id("src/parse.ts", "strip", "target", 30);
    let edge = call_edge(&graph, &root_id(), &callee).expect("both revisions call it");
    assert_eq!(edge.status, EdgeStatus::Unchanged);
    assert_eq!(edge.resolution, Resolution::ReExportedSymbol);
    assert_eq!(edge.evidence, Some(Evidence { file: "src/a.ts".to_owned(), line: 8 }));
}

#[test]
fn a_view_and_a_budget_narrow_what_is_delivered() {
    let base = from_edges(&[("src/old.ts", "src/a.ts")], &[]);
    let target = from_edges(&[("src/a.ts", "src/new.ts"), ("src/b.ts", "src/a.ts")], &[]);
    let result = analysis(vec![modified("src/a.ts")]);
    let roots = paths_of(&["src/a.ts"]);
    let relations = every();
    let mut asked = request(&roots, &relations);
    asked.view = View::Base;
    assert_eq!(node_paths(&build_modules(&result, &base, &target, &asked)), vec!["src/a.ts", "src/old.ts"]);
    asked.view = View::Target;
    assert_eq!(
        node_paths(&build_modules(&result, &base, &target, &asked)),
        vec!["src/a.ts", "src/b.ts", "src/new.ts"]
    );
    asked.view = View::Delta;
    asked.limits = Limits { max_nodes: 3, max_edges: 60 };
    let graph = build_modules(&result, &base, &target, &asked);
    assert_eq!(graph.nodes().len(), 3);
    assert_eq!(graph.omitted_nodes(), 1);
    assert!(graph.truncated());
    assert!(graph.is_root(&Node::module_id("src/a.ts")));
    assert!(node(&graph, "src/a.ts").is_some());
}

/// One index in which every path imports `src/core.ts`.
fn importers_of_core(importers: &[String]) -> ImportIndex {
    let edges = importers.iter().map(|importer| (importer.as_str(), "src/core.ts")).collect::<Vec<_>>();
    from_edges(&edges, &[])
}

fn importer_paths(count: u32, prefix: &str) -> Vec<String> {
    (0..count).map(|number| format!("src/{prefix}{number:02}.ts")).collect()
}

/// A request with a node budget of its own.
fn bounded_request<'a>(roots: &'a Vec<String>, relations: &'a Vec<Relation>, max_nodes: usize) -> Request<'a> {
    let mut bounded = request(roots, relations);
    bounded.limits = Limits { max_nodes, max_edges: DEFAULT_MAX_EDGES };
    bounded
}

#[test]
fn a_budget_replaces_the_overflow_with_one_group_that_counts_it() {
    let importers = importer_paths(40, "importer");
    let index = importers_of_core(&importers);
    let result = analysis(vec![modified("src/core.ts")]);
    let roots = paths_of(&["src/core.ts"]);
    let relations = every();

    let graph = build_modules(&result, &index, &index, &bounded_request(&roots, &relations, 10));

    // The root and forty importers are forty-one nodes; a budget of ten admits
    // nine of them and spends its last slot on the group that stands for the
    // other thirty-two.
    assert_eq!(graph.nodes().len(), 10);
    assert_eq!(graph.group(GroupRole::Callers), Some(Group { size: 32, role: GroupRole::Callers }));
    assert!(graph.truncated());
    assert_eq!(graph.omitted_nodes(), 32);
    assert_eq!(graph.reasons(), &vec![TruncationReason::MaxNodes]);

    let again = build_modules(&result, &index, &index, &bounded_request(&roots, &relations, 10));
    assert_eq!(graph.nodes(), again.nodes());
    assert_eq!(graph.edges(), again.edges());
}

#[test]
fn tests_collapse_into_one_group_although_the_budget_would_have_taken_them() {
    let index = from_edges(
        &[
            ("src/__tests__/core.spec.ts", "src/core.ts"),
            ("src/__tests__/parse.spec.ts", "src/core.ts"),
            ("src/__tests__/render.spec.ts", "src/core.ts"),
        ],
        &[],
    );
    let result = analysis(vec![modified("src/core.ts")]);
    let roots = paths_of(&["src/core.ts"]);

    let graph = build_modules(&result, &index, &index, &request(&roots, &every()));

    // The default budget is thirty; the three tests are grouped because they
    // are context, not because they did not fit.
    assert!(!graph.truncated());
    assert_eq!(node_paths(&graph), vec!["src/core.ts", "src"]);
    assert_eq!(graph.group(GroupRole::Tests), Some(Group { size: 3, role: GroupRole::Tests }));
    let tested_by = graph.edges().iter().filter(|edge| edge.relation == Relation::TestedBy).collect::<Vec<_>>();
    assert_eq!(tested_by.len(), 1);
    assert_eq!(tested_by[0].from, Node::group_id(GroupRole::Tests));
    assert_eq!(tested_by[0].to, Node::module_id("src/core.ts"));
}

#[test]
fn a_classification_collapses_what_a_shared_name_does_not() {
    let importers = paths_of(&[
        "dist/parse.ts",
        "coverage/parse.ts",
        "node_modules/left-pad/parse.ts",
        "vendor/parse.ts",
        "src/parse.ts",
    ]);
    let index = importers_of_core(&importers);
    let result = analysis(vec![modified("src/core.ts")]);
    let roots = paths_of(&["src/core.ts"]);

    let graph = build_modules(&result, &index, &index, &request(&roots, &every()));

    assert_eq!(graph.group(GroupRole::Generated).map(|group| group.size), Some(2));
    assert_eq!(graph.group(GroupRole::Vendored).map(|group| group.size), Some(2));
    // The source file shares its name with two collapsed ones and stays a place
    // a reader can open.
    assert!(node(&graph, "src/parse.ts").is_some());
    assert!(node(&graph, "dist/parse.ts").is_none());
    assert!(node(&graph, "vendor/parse.ts").is_none());
}

#[test]
fn a_group_outlives_the_changed_nodes_it_replaced() {
    let importers = importer_paths(10, "changed");
    let index = importers_of_core(&importers);
    let mut files = vec![modified("src/core.ts")];
    files.extend(importers.iter().map(|path| modified(path)));
    let result = analysis(files);
    let roots = paths_of(&["src/core.ts"]);
    let relations = every();

    let graph = build_modules(&result, &index, &index, &bounded_request(&roots, &relations, 5));

    assert_eq!(graph.nodes().len(), 5);
    let collapsed = graph.group(GroupRole::Callers).expect("the overflow is one group");
    assert_eq!(collapsed.size, 7);
    assert_eq!(
        graph.nodes().iter().filter(|node| node.kind == NodeKind::Module && node.path != "src/core.ts").count(),
        3
    );
    // Every member was modified, so the group says so too.
    assert_eq!(
        graph.node(&Node::group_id(GroupRole::Callers)).map(|node| node.status),
        Some(NodeStatus::Modified)
    );
}

#[test]
fn a_grouped_graph_renders_identically_from_the_same_input() {
    let importers = importer_paths(12, "importer");
    let index = importers_of_core(&importers);
    let result = analysis(vec![modified("src/core.ts")]);
    let roots = paths_of(&["src/core.ts"]);
    let relations = every();
    let render_once = || {
        let graph = build_modules(&result, &index, &index, &bounded_request(&roots, &relations, 6));
        let label = graph.node(&Node::group_id(GroupRole::Callers)).expect("the overflow is one group").label.clone();
        (label, render::dependency_diff(&graph), render::mermaid(&graph))
    };

    let (label, diff, mermaid) = render_once();
    assert_eq!(render_once(), (label.clone(), diff.clone(), mermaid.clone()));
    // Both renderings carry the group rather than quietly leaving a gap.
    assert!(diff.contains(&label));
    assert!(mermaid.contains(&label));
}

#[test]
fn completeness_counts_scan_and_specifier_gaps_in_the_walk_scope() {
    let mut index = from_edges(&[], &["src/core.ts"]);
    index.enter("src/core.ts", true);
    index.add_specifier("src/core.ts", "package", 1, None);
    index.add_binding(
        "src/core.ts",
        "package",
        ImportBinding { imported: ImportedName::Default, specifier: "package".to_owned(), line: 1 },
    );
    let result = analysis(vec![modified("src/core.ts")]);
    let roots = paths_of(&["src/core.ts"]);

    let graph = build_modules(&result, &index, &index, &request(&roots, &every()));

    assert_eq!(graph.completeness().scan_truncated_files, 2);
    assert_eq!(graph.completeness().unresolved_specifiers, 2);
    assert_eq!(graph.completeness().relations_supported, Relation::supported());

    // One revision's view counts that revision alone, and only what was walked.
    let relations = every();
    let mut base = request(&roots, &relations);
    base.view = View::Base;
    let graph = build_modules(&result, &index, &index, &base);
    assert_eq!(graph.completeness().scan_truncated_files, 1);
    assert_eq!(graph.completeness().unresolved_specifiers, 1);
    let elsewhere = paths_of(&["src/other.ts"]);
    let graph = build_modules(&result, &index, &index, &request(&elsewhere, &relations));
    assert_eq!(graph.completeness().scan_truncated_files, 0);
    assert_eq!(graph.completeness().unresolved_specifiers, 0);
}

#[test]
fn completeness_counts_only_unresolved_call_sites() {
    let scene = Scene::new("src/core.ts")
        .with("root", "root", FunctionChangeStatus::Added, None, Some(1), &[], &[("missing", 2), ("helper", 3)])
        .with("helper", "helper", FunctionChangeStatus::Added, None, Some(10), &[], &[]);
    let root_id = scene.published_id(0);

    let graph = scene.build(&function_request(&Vec::new(), &root_id, &every(), DEFAULT_DEPTH));

    assert_eq!(graph.completeness().unresolved_calls, 1);
}

#[test]
fn groups_of_both_sides_share_the_budget_and_drop_what_lies_between_their_members() {
    let index = from_edges(
        &[
            ("src/up1.ts", "src/core.ts"),
            ("src/up2.ts", "src/core.ts"),
            ("src/up3.ts", "src/core.ts"),
            ("src/up1.ts", "src/up2.ts"),
            ("src/core.ts", "src/down1.ts"),
            ("src/core.ts", "src/down2.ts"),
            ("src/core.ts", "src/down3.ts"),
        ],
        &[],
    );
    let base = from_edges(&[("src/up1.ts", "src/core.ts")], &[]);
    let result = analysis(vec![modified("src/core.ts")]);
    let roots = paths_of(&["src/core.ts"]);
    let relations = vec![Relation::Imports];

    let graph = build_modules(&result, &base, &index, &bounded_request(&roots, &relations, 3));

    assert_eq!(graph.group(GroupRole::Callers), Some(Group { size: 3, role: GroupRole::Callers }));
    assert_eq!(graph.group(GroupRole::Dependencies), Some(Group { size: 3, role: GroupRole::Dependencies }));
    assert_eq!(graph.nodes().len(), 3);
    assert_eq!(graph.omitted_nodes(), 6);
    assert_eq!(graph.edges().len(), 2);
    // One caller is in both revisions, so the group is; no dependency was.
    let callers = Node::group_id(GroupRole::Callers);
    let inward = graph.edges().iter().find(|edge| edge.from == callers).expect("the callers reach the root");
    assert_eq!(inward.status, EdgeStatus::Unchanged);
    let outward = graph.edges().iter().find(|edge| edge.from == Node::module_id("src/core.ts")).expect("the root reaches its dependencies");
    assert_eq!(outward.status, EdgeStatus::Added);
    assert_eq!(outward.to, Node::group_id(GroupRole::Dependencies));
    assert_eq!(graph.node(&callers).map(|node| node.label.as_str()), Some("3 callers"));
    assert_eq!(graph.groups().len(), 2);
}

#[test]
fn roots_come_in_the_order_of_the_nodes() {
    let node = |id: &str, kind: NodeKind, label: &str| Node {
        id: id.to_owned(),
        key: String::new(),
        label: label.to_owned(),
        kind,
        path: "src/a.ts".to_owned(),
        status: NodeStatus::Modified,
        depth: 0,
    };
    let mut builder = GraphBuilder::new();
    builder.add_node(node("function:f", NodeKind::Function, "f"));
    builder.add_node(node("module:src/a.ts", NodeKind::Module, "a.ts"));
    builder.add_root("function:f".to_owned());
    builder.add_root("module:src/a.ts".to_owned());
    builder.add_root("module:src/absent.ts".to_owned());
    let graph = builder.finish(Limits::default());
    assert_eq!(graph.roots(), &vec!["module:src/a.ts".to_owned(), "function:f".to_owned()]);
}
