use diffscope::graph::render::{dependency_diff, mermaid, style, MAX_LABEL_BYTES};
use diffscope::graph::{Edge, EdgeStatus, Graph, GraphBuilder, Limits, Node, NodeKind, NodeStatus, Relation, Resolution};

const STATUSES: [NodeStatus; 4] = [
    NodeStatus::Added,
    NodeStatus::Removed,
    NodeStatus::Modified,
    NodeStatus::Unchanged,
];

fn node(path: &str, status: NodeStatus) -> Node {
    Node {
        id: Node::module_id(path),
        key: String::new(),
        label: Node::basename(path),
        kind: NodeKind::Module,
        path: path.to_owned(),
        status,
        depth: 1,
    }
}

/// One function node of `path`, labelled with the qualified name a reader
/// knows it by.
fn function_node(path: &str, qualified_name: &str, status: NodeStatus) -> Node {
    Node {
        id: Node::function_id(&format!("{path}#fn:{qualified_name}@target:1:0")),
        key: String::new(),
        label: qualified_name.to_owned(),
        kind: NodeKind::Function,
        path: path.to_owned(),
        status,
        depth: 1,
    }
}

fn edge(
    from: &str,
    to: &str,
    status: EdgeStatus,
    relation: Relation,
    resolution: Resolution,
) -> Edge {
    Edge {
        from: Node::module_id(from),
        to: Node::module_id(to),
        relation,
        status,
        resolution,
        evidence: None,
    }
}

fn graph_of(nodes: &[(&str, NodeStatus)], edges: &[Edge]) -> Graph {
    let mut builder = GraphBuilder::new();
    for (path, status) in nodes {
        builder.add_node(node(path, *status));
    }
    for edge in edges {
        builder.add_edge(edge.clone());
    }
    builder.finish(Limits::default())
}

/// A graph of nodes of any kind, which is what a function-rooted answer
/// delivers.
fn graph_with(nodes: &[Node], edges: &[Edge]) -> Graph {
    let mut builder = GraphBuilder::new();
    for node in nodes {
        builder.add_node(node.clone());
    }
    for edge in edges {
        builder.add_edge(edge.clone());
    }
    builder.finish(Limits::default())
}

/// An edge between two nodes, whatever kind they are.
fn edge_between(
    from: &Node,
    to: &Node,
    status: EdgeStatus,
    relation: Relation,
    resolution: Resolution,
) -> Edge {
    Edge {
        from: from.id.clone(),
        to: to.id.clone(),
        relation,
        status,
        resolution,
        evidence: None,
    }
}

/// The fixed `classDef` block every document opens with, derived from the
/// renderer's own table so a test can assert a whole document without
/// restating the styles the golden test pins byte for byte.
fn header() -> String {
    let mut header = String::from("flowchart LR\n");
    for status in STATUSES {
        header.push_str(&format!("    classDef {} {}\n", status.name(), style(status)));
    }
    header
}

#[test]
fn the_dependency_diff_marks_each_status_and_names_a_non_import_relation() {
    let graph = graph_of(
        &[
            ("src/cssVars.ts", NodeStatus::Modified),
            ("src/compileStyle.ts", NodeStatus::Unchanged),
            ("src/legacyParser.ts", NodeStatus::Removed),
            ("src/parse.ts", NodeStatus::Added),
            ("src/cssVars.spec.ts", NodeStatus::Added),
        ],
        &[
            edge(
                "src/compileStyle.ts",
                "src/cssVars.ts",
                EdgeStatus::Unchanged,
                Relation::Imports,
                Resolution::ResolvedSpecifier,
            ),
            edge(
                "src/cssVars.ts",
                "src/legacyParser.ts",
                EdgeStatus::Removed,
                Relation::Imports,
                Resolution::ResolvedSpecifier,
            ),
            edge(
                "src/cssVars.ts",
                "src/parse.ts",
                EdgeStatus::Added,
                Relation::Imports,
                Resolution::ResolvedSpecifier,
            ),
            edge(
                "src/cssVars.spec.ts",
                "src/cssVars.ts",
                EdgeStatus::Added,
                Relation::TestedBy,
                Resolution::TestImportsModule,
            ),
        ],
    );

    assert_eq!(
        dependency_diff(&graph),
        [
            "  src/compileStyle.ts -> src/cssVars.ts\n",
            "+ src/cssVars.spec.ts -[tested_by]-> src/cssVars.ts\n",
            "- src/cssVars.ts -> src/legacyParser.ts\n",
            "+ src/cssVars.ts -> src/parse.ts\n",
        ].concat()
    );
}

#[test]
fn a_graph_without_edges_renders_no_diff_and_no_dangling_placeholder() {
    assert_eq!(dependency_diff(&Graph::default()), "");

    // `finish` cannot deliver an edge whose endpoint it dropped, but a
    // caller can hand one over, and the omission is the contract.
    let dangling = Graph::from_parts(
        vec![node("src/a.ts", NodeStatus::Unchanged)],
        vec![edge(
            "src/a.ts",
            "src/gone.ts",
            EdgeStatus::Added,
            Relation::Imports,
            Resolution::ResolvedSpecifier,
        )],
    );
    assert_eq!(dependency_diff(&dangling), "");
    assert!(!mermaid(&dangling).contains("gone.ts"));
}

#[test]
fn a_removed_edge_and_an_uncertain_edge_render_as_different_dashed_forms() {
    let gone = graph_of(
        &[
            ("src/a.ts", NodeStatus::Modified),
            ("src/b.ts", NodeStatus::Removed),
        ],
        &[edge(
            "src/a.ts",
            "src/b.ts",
            EdgeStatus::Removed,
            Relation::Imports,
            Resolution::ResolvedSpecifier,
        )],
    );
    let unsure = graph_of(
        &[
            ("src/a.ts", NodeStatus::Unchanged),
            ("src/b.ts", NodeStatus::Added),
        ],
        &[edge(
            "src/a.ts",
            "src/b.ts",
            EdgeStatus::Added,
            Relation::TestedBy,
            Resolution::TestImportsModule,
        )],
    );

    let removed_line = mermaid(&gone)
        .lines()
        .find(|line| line.contains("-. "))
        .expect("the removed edge is drawn dashed")
        .to_owned();
    let uncertain_line = mermaid(&unsure)
        .lines()
        .find(|line| line.contains("-. "))
        .expect("the uncertain edge is drawn dashed")
        .to_owned();

    assert!(removed_line.contains("-. \"removed\" .->"));
    assert!(uncertain_line.contains("-. \"~0.9\" .->"));
    assert_ne!(removed_line, uncertain_line);
}

#[test]
fn a_re_export_is_told_apart_from_the_import_beside_it() {
    // A barrel module both imports and forwards the module it re-exports,
    // so two bare arrows between one pair of boxes would say nothing about
    // why there are two.
    let graph = graph_of(
        &[
            ("src/index.ts", NodeStatus::Modified),
            ("src/parse.ts", NodeStatus::Unchanged),
        ],
        &[
            edge(
                "src/index.ts",
                "src/parse.ts",
                EdgeStatus::Unchanged,
                Relation::Imports,
                Resolution::ResolvedSpecifier,
            ),
            edge(
                "src/index.ts",
                "src/parse.ts",
                EdgeStatus::Unchanged,
                Relation::ReExports,
                Resolution::ExportClause,
            ),
        ],
    );

    let arrows = mermaid(&graph)
        .lines()
        .filter(|line| line.contains("-->"))
        .map(str::trim)
        .map(str::to_owned)
        .collect::<Vec<_>>();

    assert_eq!(arrows.len(), 2, "one arrow per edge");
    assert!(
        arrows
            .iter()
            .any(|line| line.contains("-- \"re_exports\" -->")),
        "the forwarding names itself: {arrows:?}"
    );
    assert_ne!(arrows[0], arrows[1]);
}

#[test]
fn a_removed_edge_keeps_the_removed_form_below_full_confidence() {
    // "Gone" is what the reader has to learn first; how sure the resolver
    // was about a relationship that no longer exists is the second fact.
    let graph = graph_of(
        &[
            ("src/a.ts", NodeStatus::Modified),
            ("src/b.ts", NodeStatus::Removed),
        ],
        &[edge(
            "src/a.ts",
            "src/b.ts",
            EdgeStatus::Removed,
            Relation::TestedBy,
            Resolution::TestNameMatchesModule,
        )],
    );

    assert!(mermaid(&graph).contains("-. \"removed\" .->"));
}

#[test]
fn a_full_confidence_edge_states_no_uncertainty() {
    let graph = graph_of(
        &[
            ("src/a.ts", NodeStatus::Added),
            ("src/b.ts", NodeStatus::Unchanged),
        ],
        &[edge(
            "src/a.ts",
            "src/b.ts",
            EdgeStatus::Added,
            Relation::Imports,
            Resolution::ResolvedSpecifier,
        )],
    );

    assert_eq!(
        mermaid(&graph),
        format!(
            "{}    n0[\"a.ts · added\"] --> n1[\"b.ts\"]\n    class n0 added\n    class n1 unchanged\n",
            header()
        )
    );
}

#[test]
fn a_node_declares_its_shape_once_and_is_referenced_by_key_afterwards() {
    let graph = graph_of(
        &[
            ("src/a.ts", NodeStatus::Modified),
            ("src/b.ts", NodeStatus::Unchanged),
            ("src/c.ts", NodeStatus::Unchanged),
        ],
        &[
            edge(
                "src/a.ts",
                "src/b.ts",
                EdgeStatus::Added,
                Relation::Imports,
                Resolution::ResolvedSpecifier,
            ),
            edge(
                "src/c.ts",
                "src/a.ts",
                EdgeStatus::Unchanged,
                Relation::Imports,
                Resolution::ResolvedSpecifier,
            ),
        ],
    );

    assert_eq!(
        mermaid(&graph),
        format!(
            "{}    n0[\"a.ts · modified\"] --> n1[\"b.ts\"]\n    n2[\"c.ts\"] --> n0\n{}",
            header(),
            "    class n0 modified\n    class n1 unchanged\n    class n2 unchanged\n"
        )
    );
}

#[test]
fn a_node_no_edge_touches_is_still_declared() {
    let mut builder = GraphBuilder::new();
    builder.add_node(node("src/root.ts", NodeStatus::Modified));
    builder.add_root(Node::module_id("src/root.ts"));
    let graph = builder.finish(Limits::default());

    assert_eq!(
        mermaid(&graph),
        format!(
            "{}    n0[\"root.ts · modified\"]\n    class n0 modified\n",
            header()
        )
    );
}

#[test]
fn a_long_hostile_label_becomes_one_quoted_bounded_line() {
    let hostile = format!(
        "{}\n{}\r\n\"{}\"",
        "a".repeat(80),
        "b".repeat(79),
        "c".repeat(36)
    );
    assert_eq!(hostile.len(), 200, "the fixture is a 200-byte label");
    let graph = graph_of(&[(&hostile, NodeStatus::Added)], &[]);

    let declared = mermaid(&graph)
        .lines()
        .find(|line| line.contains("n0["))
        .expect("the node is declared")
        .to_owned();
    assert_eq!(
        declared,
        format!("    n0[\"{}... · added\"]", "a".repeat(64))
    );
    assert_eq!(declared.matches('"').count(), 2);
}

#[test]
fn a_label_is_collapsed_to_one_line_and_keeps_its_status() {
    let graph = graph_of(&[("src/one\ttwo\nthree.ts", NodeStatus::Removed)], &[]);

    assert!(mermaid(&graph).contains("n0[\"one two three.ts · removed\"]"));
}

#[test]
fn the_dependency_diff_separates_two_functions_of_one_file() {
    let module = node("src/a.ts", NodeStatus::Modified);
    let first = function_node("src/a.ts", "first", NodeStatus::Added);
    let second = function_node("src/a.ts", "second", NodeStatus::Added);
    let graph = graph_with(
        &[module.clone(), first.clone(), second.clone()],
        &[
            edge_between(
                &module,
                &first,
                EdgeStatus::Added,
                Relation::Contains,
                Resolution::Declaration,
            ),
            edge_between(
                &module,
                &second,
                EdgeStatus::Added,
                Relation::Contains,
                Resolution::Declaration,
            ),
        ],
    );

    assert_eq!(
        dependency_diff(&graph),
        [
            "+ src/a.ts -[contains]-> src/a.ts::first\n",
            "+ src/a.ts -[contains]-> src/a.ts::second\n",
        ].concat()
    );
}

#[test]
fn a_function_label_keeps_the_sanitization_and_budget_a_module_label_gets() {
    let long = format!("Namespace.{}", "a".repeat(80));
    let graph = graph_with(&[function_node("src/a.ts", &long, NodeStatus::Added)], &[]);
    let declared = mermaid(&graph)
        .lines()
        .find(|line| line.contains("n0["))
        .expect("the function is declared")
        .to_owned();
    assert_eq!(
        declared,
        format!("    n0[\"{}... · added\"]", &long[..MAX_LABEL_BYTES])
    );

    let hostile = "Outer.in\"ner\nname";
    let graph = graph_with(
        &[function_node("src/a.ts", hostile, NodeStatus::Unchanged)],
        &[],
    );
    assert!(mermaid(&graph).contains("n0[\"Outer.inner name\"]"));
}

#[test]
fn rendering_the_same_graph_twice_produces_identical_text() {
    let graph = graph_of(
        &[
            ("src/a.ts", NodeStatus::Modified),
            ("src/b.ts", NodeStatus::Removed),
            ("src/c.ts", NodeStatus::Added),
        ],
        &[
            edge(
                "src/a.ts",
                "src/b.ts",
                EdgeStatus::Removed,
                Relation::Imports,
                Resolution::ResolvedSpecifier,
            ),
            edge(
                "src/a.ts",
                "src/c.ts",
                EdgeStatus::Added,
                Relation::TestedBy,
                Resolution::TestImportsModule,
            ),
        ],
    );

    assert_eq!(dependency_diff(&graph), dependency_diff(&graph));
    assert_eq!(mermaid(&graph), mermaid(&graph));
}
