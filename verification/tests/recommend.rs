use diffscope::graph::recommend::{evaluate, Recommendation, Signal};
use diffscope::graph::{Edge, EdgeStatus, Graph, GraphBuilder, Limits, Node, NodeKind, NodeStatus, Relation, Resolution};

fn node(path: &str) -> Node {
    Node {
        id: Node::module_id(path),
        key: String::new(),
        label: Node::basename(path),
        kind: NodeKind::Module,
        path: path.to_owned(),
        status: NodeStatus::Unchanged,
        depth: 1,
    }
}

fn import(from: &str, to: &str, status: EdgeStatus) -> Edge {
    Edge {
        from: Node::module_id(from),
        to: Node::module_id(to),
        relation: Relation::Imports,
        status,
        resolution: Resolution::ResolvedSpecifier,
        evidence: None,
    }
}

/// Build the graph an answer would deliver: ordered, bounded, and keyed by
/// the same code that serves the projection.
fn graph(paths: &[&str], roots: &[&str], edges: &[(&str, &str, EdgeStatus)]) -> Graph {
    let mut builder = GraphBuilder::new();
    for &path in paths {
        builder.add_node(node(path));
    }
    for &root in roots {
        builder.add_root(Node::module_id(root));
    }
    for &(from, to, status) in edges {
        builder.add_edge(import(from, to, status));
    }
    builder.finish(Limits::default())
}

/// Build a graph whose nodes sit at the depths a walk would have reached
/// them at, which is what a level signal measures.
fn graph_at(
    levels: &[(&str, u32)],
    roots: &[&str],
    edges: &[(&str, &str, EdgeStatus)],
) -> Graph {
    let mut builder = GraphBuilder::new();
    for &(path, depth) in levels {
        let mut node = node(path);
        node.depth = depth;
        builder.add_node(node);
    }
    for &root in roots {
        builder.add_root(Node::module_id(root));
    }
    for &(from, to, status) in edges {
        builder.add_edge(import(from, to, status));
    }
    builder.finish(Limits::default())
}

fn codes(recommendation: &Recommendation) -> Vec<&'static str> {
    recommendation
        .reasons
        .iter()
        .map(|reason| reason.code)
        .collect()
}

fn reason<'a>(recommendation: &'a Recommendation, code: &str) -> &'a Signal {
    recommendation
        .reasons
        .iter()
        .find(|reason| reason.code == code)
        .unwrap_or_else(|| panic!("no {code} signal in {:?}", codes(recommendation)))
}

#[test]
fn many_callers_fires_at_three_inbound_relationships_and_not_at_two() {
    let two = graph(
        &["src/root.ts", "src/a.ts", "src/b.ts"],
        &["src/root.ts"],
        &[
            ("src/a.ts", "src/root.ts", EdgeStatus::Unchanged),
            ("src/b.ts", "src/root.ts", EdgeStatus::Unchanged),
        ],
    );
    let quiet = evaluate(&two);
    assert!(!quiet.recommended);
    assert!(quiet.reasons.is_empty());

    let three = graph(
        &["src/root.ts", "src/a.ts", "src/b.ts", "src/c.ts"],
        &["src/root.ts"],
        &[
            ("src/a.ts", "src/root.ts", EdgeStatus::Unchanged),
            ("src/b.ts", "src/root.ts", EdgeStatus::Unchanged),
            ("src/c.ts", "src/root.ts", EdgeStatus::Unchanged),
        ],
    );
    let loud = evaluate(&three);
    assert!(loud.recommended);
    assert_eq!(codes(&loud), ["many_callers"]);
    assert_eq!(reason(&loud, "many_callers").value, 3);
    assert_eq!(
        reason(&loud, "many_callers").message,
        "3 relationships point at the root"
    );
}

#[test]
fn many_dependencies_fires_at_three_outbound_relationships_and_not_at_two() {
    let two = graph(
        &["src/root.ts", "src/a.ts", "src/b.ts"],
        &["src/root.ts"],
        &[
            ("src/root.ts", "src/a.ts", EdgeStatus::Unchanged),
            ("src/root.ts", "src/b.ts", EdgeStatus::Unchanged),
        ],
    );
    let quiet = evaluate(&two);
    assert!(!quiet.recommended);
    assert!(quiet.reasons.is_empty());

    let three = graph(
        &["src/root.ts", "src/a.ts", "src/b.ts", "src/c.ts"],
        &["src/root.ts"],
        &[
            ("src/root.ts", "src/a.ts", EdgeStatus::Unchanged),
            ("src/root.ts", "src/b.ts", EdgeStatus::Unchanged),
            ("src/root.ts", "src/c.ts", EdgeStatus::Unchanged),
        ],
    );
    let loud = evaluate(&three);
    assert!(loud.recommended);
    assert_eq!(codes(&loud), ["many_dependencies"]);
    assert_eq!(reason(&loud, "many_dependencies").value, 3);
    assert_eq!(
        reason(&loud, "many_dependencies").message,
        "the root points at 3 relationships"
    );
}

#[test]
fn converges_and_branches_needs_two_relationships_on_each_side() {
    let fan = graph(
        &["src/root.ts", "src/a.ts", "src/b.ts", "src/c.ts"],
        &["src/root.ts"],
        &[
            ("src/a.ts", "src/root.ts", EdgeStatus::Unchanged),
            ("src/b.ts", "src/root.ts", EdgeStatus::Unchanged),
            ("src/root.ts", "src/c.ts", EdgeStatus::Unchanged),
        ],
    );
    let quiet = evaluate(&fan);
    assert!(!quiet.recommended);
    assert!(quiet.reasons.is_empty());

    let delta = graph(
        &[
            "src/root.ts",
            "src/a.ts",
            "src/b.ts",
            "src/c.ts",
            "src/d.ts",
        ],
        &["src/root.ts"],
        &[
            ("src/a.ts", "src/root.ts", EdgeStatus::Unchanged),
            ("src/b.ts", "src/root.ts", EdgeStatus::Unchanged),
            ("src/root.ts", "src/c.ts", EdgeStatus::Unchanged),
            ("src/root.ts", "src/d.ts", EdgeStatus::Unchanged),
        ],
    );
    let loud = evaluate(&delta);
    assert!(loud.recommended);
    assert_eq!(codes(&loud), ["converges_and_branches"]);
    assert_eq!(reason(&loud, "converges_and_branches").value, 2);
    assert_eq!(
        reason(&loud, "converges_and_branches").message,
        "2 relationships point at the root and 2 leave it"
    );

    // The value is the smaller side, so the signal says how lopsided the
    // shape is without hiding the side that earned it.
    let lopsided = graph(
        &[
            "src/root.ts",
            "src/a.ts",
            "src/b.ts",
            "src/c.ts",
            "src/d.ts",
            "src/e.ts",
        ],
        &["src/root.ts"],
        &[
            ("src/a.ts", "src/root.ts", EdgeStatus::Unchanged),
            ("src/b.ts", "src/root.ts", EdgeStatus::Unchanged),
            ("src/c.ts", "src/root.ts", EdgeStatus::Unchanged),
            ("src/root.ts", "src/d.ts", EdgeStatus::Unchanged),
            ("src/root.ts", "src/e.ts", EdgeStatus::Unchanged),
        ],
    );
    let rec = evaluate(&lopsided);
    assert_eq!(codes(&rec), ["many_callers", "converges_and_branches"]);
    assert_eq!(reason(&rec, "converges_and_branches").value, 2);
    assert_eq!(
        reason(&rec, "converges_and_branches").message,
        "3 relationships point at the root and 2 leave it"
    );
}

#[test]
fn crosses_areas_fires_at_two_areas_and_not_at_one() {
    let one = graph(
        &[
            "packages/core/root.ts",
            "packages/core/a.ts",
            "packages/core/b.ts",
        ],
        &["packages/core/root.ts"],
        &[
            (
                "packages/core/a.ts",
                "packages/core/root.ts",
                EdgeStatus::Unchanged,
            ),
            (
                "packages/core/b.ts",
                "packages/core/root.ts",
                EdgeStatus::Unchanged,
            ),
        ],
    );
    let quiet = evaluate(&one);
    assert!(!quiet.recommended);
    assert!(quiet.reasons.is_empty());

    let two = graph(
        &[
            "packages/core/root.ts",
            "packages/web/a.ts",
            "packages/web/b.ts",
        ],
        &["packages/core/root.ts"],
        &[
            (
                "packages/web/a.ts",
                "packages/core/root.ts",
                EdgeStatus::Unchanged,
            ),
            (
                "packages/web/b.ts",
                "packages/core/root.ts",
                EdgeStatus::Unchanged,
            ),
        ],
    );
    let loud = evaluate(&two);
    assert!(loud.recommended);
    assert_eq!(codes(&loud), ["crosses_areas"]);
    assert_eq!(reason(&loud, "crosses_areas").value, 2);
    assert_eq!(
        reason(&loud, "crosses_areas").message,
        "the graph spans 2 change areas"
    );
}

#[test]
fn cycle_counts_each_node_on_a_cycle_once() {
    // Two cycles share the middle node: the value is the three distinct
    // nodes that lie on one, not the four places that are entered.
    let shared = graph(
        &["src/a.ts", "src/b.ts", "src/c.ts"],
        &[],
        &[
            ("src/a.ts", "src/b.ts", EdgeStatus::Unchanged),
            ("src/b.ts", "src/a.ts", EdgeStatus::Unchanged),
            ("src/b.ts", "src/c.ts", EdgeStatus::Unchanged),
            ("src/c.ts", "src/b.ts", EdgeStatus::Unchanged),
        ],
    );
    let rec = evaluate(&shared);
    assert!(rec.recommended);
    assert_eq!(codes(&rec), ["cycle"]);
    assert_eq!(reason(&rec, "cycle").value, 3);
    assert_eq!(
        reason(&rec, "cycle").message,
        "the graph contains a cycle through 3 nodes"
    );

    // A diamond branches on both levels and closes nothing.
    let diamond = graph(
        &["src/a.ts", "src/b.ts", "src/c.ts", "src/d.ts"],
        &[],
        &[
            ("src/a.ts", "src/b.ts", EdgeStatus::Unchanged),
            ("src/a.ts", "src/c.ts", EdgeStatus::Unchanged),
            ("src/b.ts", "src/d.ts", EdgeStatus::Unchanged),
            ("src/c.ts", "src/d.ts", EdgeStatus::Unchanged),
        ],
    );
    let rec = evaluate(&diamond);
    assert!(!rec.recommended);
    assert!(rec.reasons.is_empty());

    // One relationship that leaves a node and returns to it is a cycle of
    // one, and the message says so in the singular.
    let self_loop = graph(
        &["src/a.ts", "src/b.ts", "src/c.ts", "src/d.ts"],
        &[],
        &[
            ("src/a.ts", "src/a.ts", EdgeStatus::Unchanged),
            ("src/b.ts", "src/c.ts", EdgeStatus::Unchanged),
        ],
    );
    let rec = evaluate(&self_loop);
    assert_eq!(codes(&rec), ["cycle"]);
    assert_eq!(reason(&rec, "cycle").value, 1);
    assert_eq!(
        reason(&rec, "cycle").message,
        "the graph contains a cycle through 1 node"
    );
}

#[test]
fn changed_on_both_sides_needs_a_changed_relationship_entering_and_leaving() {
    let inbound_only = graph(
        &["src/root.ts", "src/a.ts", "src/b.ts"],
        &["src/root.ts"],
        &[
            ("src/a.ts", "src/root.ts", EdgeStatus::Added),
            ("src/b.ts", "src/root.ts", EdgeStatus::Unchanged),
        ],
    );
    let quiet = evaluate(&inbound_only);
    assert!(!quiet.recommended);
    assert!(quiet.reasons.is_empty());

    // A changed relationship on each side, plus one elsewhere: the value is
    // the total the dependency diff would state.
    let both = graph(
        &[
            "src/root.ts",
            "src/a.ts",
            "src/b.ts",
            "src/c.ts",
            "src/d.ts",
            "src/e.ts",
        ],
        &["src/root.ts"],
        &[
            ("src/a.ts", "src/root.ts", EdgeStatus::Added),
            ("src/b.ts", "src/root.ts", EdgeStatus::Unchanged),
            ("src/root.ts", "src/c.ts", EdgeStatus::Removed),
            ("src/d.ts", "src/e.ts", EdgeStatus::Added),
        ],
    );
    let loud = evaluate(&both);
    assert!(loud.recommended);
    assert_eq!(codes(&loud), ["changed_on_both_sides"]);
    assert_eq!(reason(&loud, "changed_on_both_sides").value, 3);
    assert_eq!(
        reason(&loud, "changed_on_both_sides").message,
        "relationships changed on both sides of the root; 3 relationships in total"
    );
}

#[test]
fn multiple_levels_fires_only_when_changed_relationships_sit_at_two_levels() {
    // Every changed relationship sits at the first hop, so the dependency
    // diff states the whole change as one flat list.
    let one_hop = graph_at(
        &[
            ("src/root.ts", 0),
            ("src/a.ts", 1),
            ("src/b.ts", 1),
            ("src/c.ts", 1),
        ],
        &["src/root.ts"],
        &[
            ("src/root.ts", "src/a.ts", EdgeStatus::Added),
            ("src/root.ts", "src/b.ts", EdgeStatus::Unchanged),
            ("src/c.ts", "src/root.ts", EdgeStatus::Unchanged),
        ],
    );
    let quiet = evaluate(&one_hop);
    assert!(!quiet.recommended);
    assert!(quiet.reasons.is_empty());

    // One changed relationship sits at the first hop and one a hop past it,
    // which is a shape a flat list makes a reader reconstruct.
    let two_levels = graph_at(
        &[
            ("src/root.ts", 0),
            ("src/a.ts", 1),
            ("src/b.ts", 2),
            ("src/c.ts", 1),
        ],
        &["src/root.ts"],
        &[
            ("src/root.ts", "src/a.ts", EdgeStatus::Added),
            ("src/a.ts", "src/b.ts", EdgeStatus::Added),
            ("src/c.ts", "src/root.ts", EdgeStatus::Unchanged),
        ],
    );
    let loud = evaluate(&two_levels);
    assert!(loud.recommended);
    assert_eq!(codes(&loud), ["multiple_levels"]);
    assert_eq!(reason(&loud, "multiple_levels").value, 2);
    assert_eq!(
        reason(&loud, "multiple_levels").message,
        "changed relationships appear at 2 hop levels from the root"
    );

    // The negative signal stays authoritative: three nodes in a line earn
    // the levels and still do not earn a picture.
    let small = graph_at(
        &[("src/root.ts", 0), ("src/a.ts", 1), ("src/b.ts", 2)],
        &["src/root.ts"],
        &[
            ("src/root.ts", "src/a.ts", EdgeStatus::Added),
            ("src/a.ts", "src/b.ts", EdgeStatus::Added),
        ],
    );
    let rec = evaluate(&small);
    assert!(!rec.recommended);
    assert_eq!(codes(&rec), ["linear_and_small"]);
}

#[test]
fn linear_and_small_overrides_the_signals_a_three_node_chain_earns() {
    let lone = evaluate(&graph(&["src/only.ts"], &["src/only.ts"], &[]));
    assert!(!lone.recommended);
    assert_eq!(codes(&lone), ["linear_and_small"]);
    assert_eq!(reason(&lone, "linear_and_small").value, 1);
    assert_eq!(
        reason(&lone, "linear_and_small").message,
        "1 node and no branching; a dependency diff is the better answer"
    );

    // The chain spans three areas, so `crosses_areas` is earned; the shape
    // is still a straight line, and the negative signal keeps it.
    let chain = graph(
        &["packages/a/one.ts", "apps/b/two.ts", "crates/c/three.ts"],
        &["apps/b/two.ts"],
        &[
            ("packages/a/one.ts", "apps/b/two.ts", EdgeStatus::Unchanged),
            ("apps/b/two.ts", "crates/c/three.ts", EdgeStatus::Unchanged),
        ],
    );
    let rec = evaluate(&chain);
    assert!(!rec.recommended);
    assert_eq!(codes(&rec), ["linear_and_small"]);
    assert_eq!(reason(&rec, "linear_and_small").value, 3);
    assert_eq!(
        reason(&rec, "linear_and_small").message,
        "3 nodes and no branching; a dependency diff is the better answer"
    );

    // One node past the threshold the same line recommends a picture, so
    // the override is the size, not the signal it suppressed.
    let longer = graph(
        &[
            "packages/a/one.ts",
            "apps/b/two.ts",
            "crates/c/three.ts",
            "services/d/four.ts",
        ],
        &["apps/b/two.ts"],
        &[
            ("packages/a/one.ts", "apps/b/two.ts", EdgeStatus::Unchanged),
            ("apps/b/two.ts", "crates/c/three.ts", EdgeStatus::Unchanged),
            (
                "crates/c/three.ts",
                "services/d/four.ts",
                EdgeStatus::Unchanged,
            ),
        ],
    );
    let rec = evaluate(&longer);
    assert!(rec.recommended);
    assert_eq!(codes(&rec), ["crosses_areas"]);
    assert_eq!(reason(&rec, "crosses_areas").value, 4);
}

#[test]
fn a_graph_with_no_edges_recommends_nothing() {
    let rec = evaluate(&graph(
        &["src/a.ts", "src/b.ts", "src/c.ts", "src/d.ts"],
        &["src/a.ts"],
        &[],
    ));
    assert!(!rec.recommended);
    assert!(rec.reasons.is_empty());
}

#[test]
fn reasons_are_emitted_in_the_fixed_criterion_order() {
    // One graph earns every signal at once: three callers converge on the
    // root, three dependencies branch from it, one added caller closes a
    // cycle through the root that the base did not have, the paths span
    // three areas, and the change altered a relationship on each side.
    let graph = graph(
        &[
            "packages/a/root.ts",
            "packages/b/one.ts",
            "packages/b/two.ts",
            "packages/b/three.ts",
            "packages/c/four.ts",
            "packages/c/five.ts",
            "packages/c/six.ts",
        ],
        &["packages/a/root.ts"],
        &[
            ("packages/b/one.ts", "packages/a/root.ts", EdgeStatus::Added),
            (
                "packages/b/two.ts",
                "packages/a/root.ts",
                EdgeStatus::Unchanged,
            ),
            (
                "packages/b/three.ts",
                "packages/a/root.ts",
                EdgeStatus::Unchanged,
            ),
            (
                "packages/a/root.ts",
                "packages/c/four.ts",
                EdgeStatus::Unchanged,
            ),
            (
                "packages/a/root.ts",
                "packages/c/five.ts",
                EdgeStatus::Unchanged,
            ),
            ("packages/a/root.ts", "packages/c/six.ts", EdgeStatus::Added),
            (
                "packages/c/four.ts",
                "packages/b/one.ts",
                EdgeStatus::Unchanged,
            ),
        ],
    );
    let rec = evaluate(&graph);
    assert!(rec.recommended);
    assert_eq!(
        codes(&rec),
        [
            "many_callers",
            "many_dependencies",
            "converges_and_branches",
            "crosses_areas",
            "cycle",
            "cycle_introduced",
            "changed_on_both_sides",
        ]
    );
    assert_eq!(
        rec.reasons
            .iter()
            .map(|signal| signal.value)
            .collect::<Vec<_>>(),
        [3, 3, 3, 3, 3, 1, 2]
    );
}
