use diffscope::graph::{
    canonical_depth, walk, Direction, Edge, EdgeStatus, GraphBuilder, Limits, Node, NodeKind, NodeStatus, Reached, Relation, Resolution,
    TruncationReason, View, DEFAULT_DEPTH, MAX_DEPTH, MAX_MAX_EDGES, MIN_DEPTH, MIN_MAX_NODES,
};

/// The identities a walk reached, in ascending order.
fn names(reached: &Reached) -> Vec<&str> {
    (0..reached.len()).map(|i| reached.key_at(i)).collect()
}

fn node(path: &str, status: NodeStatus, depth: u32) -> Node {
    Node {
        id: Node::module_id(path),
        key: String::new(),
        label: Node::basename(path),
        kind: NodeKind::Module,
        path: path.to_owned(),
        status,
        depth,
    }
}

fn edge(from: &str, to: &str, status: EdgeStatus) -> Edge {
    Edge {
        from: Node::module_id(from),
        to: Node::module_id(to),
        relation: Relation::Imports,
        status,
        resolution: Resolution::ResolvedSpecifier,
        evidence: None,
    }
}

#[test]
fn edge_status_comes_from_membership_in_the_two_revisions() {
    assert_eq!(
        EdgeStatus::from_membership(false, true),
        Some(EdgeStatus::Added)
    );
    assert_eq!(
        EdgeStatus::from_membership(true, false),
        Some(EdgeStatus::Removed)
    );
    assert_eq!(
        EdgeStatus::from_membership(true, true),
        Some(EdgeStatus::Unchanged)
    );
    assert_eq!(EdgeStatus::from_membership(false, false), None);
}

#[test]
fn a_view_narrows_the_edges_without_rewriting_their_status() {
    assert!(View::Base.includes(EdgeStatus::Removed));
    assert!(!View::Base.includes(EdgeStatus::Added));
    assert!(View::Target.includes(EdgeStatus::Added));
    assert!(!View::Target.includes(EdgeStatus::Removed));
    assert!(View::Delta.includes(EdgeStatus::Removed));
    assert!(View::Delta.includes(EdgeStatus::Added));
}

#[test]
fn only_the_supported_relations_parse() {
    assert_eq!(Relation::parse("imports"), Some(Relation::Imports));
    assert_eq!(Relation::parse("tested_by"), Some(Relation::TestedBy));
    assert_eq!(Relation::parse("calls"), None);
    assert_eq!(Relation::parse("depends_on"), None);
    assert_eq!(Relation::accepted(), "imports, tested_by");
}

#[test]
fn budgets_and_depth_are_clamped_to_what_can_be_delivered() {
    assert_eq!(canonical_depth(None), DEFAULT_DEPTH);
    assert_eq!(canonical_depth(Some(0)), MIN_DEPTH);
    assert_eq!(canonical_depth(Some(9)), MAX_DEPTH);
    let limits = Limits::canonical(Some(1), Some(10_000));
    assert_eq!(limits.max_nodes, MIN_MAX_NODES);
    assert_eq!(limits.max_edges, MAX_MAX_EDGES);
}

#[test]
fn ordering_and_keys_do_not_depend_on_insertion_order() {
    let paths = ["src/b.ts", "src/a.ts", "src/c.ts"];
    let build = |reverse: bool| {
        let mut builder = GraphBuilder::new();
        let mut ordered = paths.to_vec();
        if reverse {
            ordered.reverse();
        }
        for path in ordered {
            builder.add_node(node(path, NodeStatus::Unchanged, 1));
        }
        builder.add_edge(edge("src/a.ts", "src/b.ts", EdgeStatus::Added));
        builder.add_edge(edge("src/c.ts", "src/b.ts", EdgeStatus::Unchanged));
        builder.finish(Limits::default())
    };

    let forward = build(false);
    assert_eq!(forward, build(true));
    assert_eq!(
        forward
            .nodes()
            .iter()
            .map(|node| (node.key.as_str(), node.path.as_str()))
            .collect::<Vec<_>>(),
        vec![("n0", "src/a.ts"), ("n1", "src/b.ts"), ("n2", "src/c.ts")]
    );
}

#[test]
fn truncation_keeps_the_root_then_changed_then_nearest() {
    let mut builder = GraphBuilder::new();
    builder.add_node(node("src/root.ts", NodeStatus::Modified, 0));
    builder.add_root(Node::module_id("src/root.ts"));
    builder.add_node(node("src/added.ts", NodeStatus::Added, 2));
    builder.add_node(node("src/near.ts", NodeStatus::Unchanged, 1));
    builder.add_node(node("src/far.ts", NodeStatus::Unchanged, 3));
    builder.add_edge(edge("src/far.ts", "src/root.ts", EdgeStatus::Unchanged));

    let graph = builder.finish(Limits {
        max_nodes: 3,
        max_edges: 60,
    });

    assert_eq!(
        graph
            .nodes()
            .iter()
            .map(|node| node.path.as_str())
            .collect::<Vec<_>>(),
        vec!["src/added.ts", "src/near.ts", "src/root.ts"]
    );
    assert!(graph.truncated());
    assert_eq!(graph.omitted_nodes(), 1);
    assert_eq!(*graph.reasons(), vec![TruncationReason::MaxNodes]);
    // The dropped node took its edge with it rather than leaving a dangling
    // endpoint.
    assert!(graph.edges().is_empty());
}

#[test]
fn an_edge_budget_is_reported_separately_from_a_node_budget() {
    let mut builder = GraphBuilder::new();
    for path in ["src/a.ts", "src/b.ts", "src/c.ts", "src/d.ts"] {
        builder.add_node(node(path, NodeStatus::Unchanged, 1));
    }
    builder.add_edge(edge("src/a.ts", "src/b.ts", EdgeStatus::Added));
    builder.add_edge(edge("src/b.ts", "src/c.ts", EdgeStatus::Added));
    builder.add_edge(edge("src/c.ts", "src/d.ts", EdgeStatus::Added));
    builder.add_edge(edge("src/d.ts", "src/a.ts", EdgeStatus::Added));

    let graph = builder.finish(Limits {
        max_nodes: 30,
        max_edges: 3,
    });

    assert_eq!(graph.edges().len(), 3);
    assert_eq!(graph.omitted_edges(), 1);
    assert_eq!(*graph.reasons(), vec![TruncationReason::MaxEdges]);
}

#[test]
fn a_view_drops_the_edges_that_revision_does_not_have() {
    let mut builder = GraphBuilder::new();
    builder.add_node(node("src/root.ts", NodeStatus::Modified, 0));
    builder.add_root(Node::module_id("src/root.ts"));
    builder.add_node(node("src/new.ts", NodeStatus::Added, 1));
    builder.add_node(node("src/old.ts", NodeStatus::Removed, 1));
    builder.add_edge(edge("src/root.ts", "src/new.ts", EdgeStatus::Added));
    builder.add_edge(edge("src/root.ts", "src/old.ts", EdgeStatus::Removed));
    builder.apply_view(View::Target);

    let graph = builder.finish(Limits::default());
    assert_eq!(graph.edges().len(), 1);
    assert_eq!(graph.edges()[0].status, EdgeStatus::Added);
    assert_eq!(
        graph
            .nodes()
            .iter()
            .map(|node| node.path.as_str())
            .collect::<Vec<_>>(),
        vec!["src/new.ts", "src/root.ts"]
    );
}

#[test]
fn a_walk_is_bounded_by_depth_and_terminates_through_a_cycle() {
    let edges = [("a", "b"), ("b", "c"), ("c", "a")];
    let neighbors = |id: &str, direction: Direction| match direction {
        Direction::Downstream => edges
            .iter()
            .filter(|(from, _)| *from == id)
            .map(|(_, to)| (*to).to_owned())
            .collect(),
        _ => edges
            .iter()
            .filter(|(_, to)| *to == id)
            .map(|(from, _)| (*from).to_owned())
            .collect(),
    };

    let roots = vec!["a".to_owned()];
    let one_hop = walk(&roots, Direction::Downstream, 1, neighbors);
    assert_eq!(names(&one_hop), vec!["a", "b"]);

    let whole_cycle = walk(&roots, Direction::Downstream, 3, neighbors);
    assert_eq!(whole_cycle.get("a"), Some(&0));
    assert_eq!(whole_cycle.get("c"), Some(&2));

    let upstream = walk(&roots, Direction::Upstream, 1, neighbors);
    assert_eq!(names(&upstream), vec!["a", "c"]);

    let both = walk(&roots, Direction::Both, 1, neighbors);
    assert_eq!(names(&both), vec!["a", "b", "c"]);
}
