//! What a graph holds: its words, its order, its limits, and the ways through
//! it.

use vstd::prelude::*;

use crate::graph::cycles::{beyond, edge_hop, edge_leads, lemma_no_way_is_too_long, loop_members, loop_of, loops_upto, opens_loop};
use crate::graph::reach::{follows, one_hop, within};
use crate::graph::{
    all_nodes, applied_depth, bounded, delivered, edge_order, edge_rank, edge_status_word, has_node, is_node, keep_order, keep_rank, keyed, kept_nodes,
    lemma_edge_order, lemma_keep_order, lemma_node_order, node_kind_word, node_order, node_rank, node_status_word, node_with, relation_named,
    relation_place, relation_word, reported, resolution_confidence, resolution_place, resolution_word, role_word, shows, truncation_word, view_named,
    whole_edges, BuilderView, CompletenessView, Direction, EdgeStatus, EdgeView, GraphView, Group, GroupRole, Limits, NodeKind, NodeStatus, NodeView,
    Relation, Resolution, TruncationReason,
};
use crate::graph::insertion::lemma_once;
use crate::laws::changes::at_most_32_bits;
use crate::laws::listing::least;
use crate::order::{lawful, lemma_arranged_ranked, lemma_strictly_distinct, ranked, strictly};
use crate::text::{before, decimal, Rank};

verus! {

/// The words of a graph.
pub proof fn lemma_graph_words(
    kind: NodeKind,
    status: NodeStatus,
    change: EdgeStatus,
    relation: Relation,
    resolution: Resolution,
    role: GroupRole,
    reason: TruncationReason,
)
    ensures
        node_kind_word(kind) == match kind {
            NodeKind::Module => "module"@,
            NodeKind::Function => "function"@,
            NodeKind::Group => "group"@,
        },
        node_status_word(status) == match status {
            NodeStatus::Added => "added"@,
            NodeStatus::Removed => "removed"@,
            NodeStatus::Modified => "modified"@,
            NodeStatus::Unchanged => "unchanged"@,
        },
        edge_status_word(change) == match change {
            EdgeStatus::Added => "added"@,
            EdgeStatus::Removed => "removed"@,
            EdgeStatus::Unchanged => "unchanged"@,
        },
        relation_word(relation) == match relation {
            Relation::Calls => "calls"@,
            Relation::Imports => "imports"@,
            Relation::ReExports => "re_exports"@,
            Relation::ReferencesType => "references_type"@,
            Relation::Extends => "extends"@,
            Relation::Implements => "implements"@,
            Relation::TestedBy => "tested_by"@,
            Relation::Contains => "contains"@,
            Relation::PossibleCall => "possible_call"@,
        },
        resolution_word(resolution) == match resolution {
            Resolution::ResolvedSpecifier => "resolved_specifier"@,
            Resolution::TestImportsModule => "test_imports_module"@,
            Resolution::TestNameMatchesModule => "test_name_matches_module"@,
            Resolution::ExportClause => "export_clause"@,
            Resolution::Declaration => "declaration"@,
            Resolution::DirectLocalSymbol => "direct_local_symbol"@,
            Resolution::ImportedSymbol => "imported_symbol"@,
            Resolution::ReExportedSymbol => "re_exported_symbol"@,
            Resolution::PropertyNameMatch => "property_name_match"@,
        },
        resolution_confidence(resolution) == match resolution {
            Resolution::ResolvedSpecifier | Resolution::ExportClause | Resolution::Declaration | Resolution::DirectLocalSymbol
            | Resolution::ImportedSymbol => 100u32,
            Resolution::TestImportsModule | Resolution::ReExportedSymbol => 90u32,
            Resolution::TestNameMatchesModule => 80u32,
            Resolution::PropertyNameMatch => 50u32,
        },
        role_word(role) == match role {
            GroupRole::Tests => "tests"@,
            GroupRole::Generated => "generated"@,
            GroupRole::Vendored => "vendored"@,
            GroupRole::Lockfile => "lockfile"@,
            GroupRole::Callers => "callers"@,
            GroupRole::Dependencies => "dependencies"@,
        },
        truncation_word(reason) == match reason {
            TruncationReason::MaxNodes => "max_nodes"@,
            TruncationReason::MaxEdges => "max_edges"@,
        },
{
}

/// A request names one of two relations and one of three views, and nothing
/// else.
pub proof fn lemma_names_are_read(name: Seq<char>)
    ensures
        relation_named(name) == Some(Relation::Imports) <==> name == "imports"@,
        relation_named(name) == Some(Relation::TestedBy) <==> name == "tested_by"@,
        relation_named(name) is None <==> name != "imports"@ && name != "tested_by"@,
        view_named(name) is None <==> name != "delta"@ && name != "base"@ && name != "target"@,
        view_named("delta"@) == Some(crate::graph::View::Delta),
        view_named("base"@) == Some(crate::graph::View::Base),
        view_named("target"@) == Some(crate::graph::View::Target),
{
    reveal_strlit("imports");
    reveal_strlit("tested_by");
    reveal_strlit("delta");
    reveal_strlit("base");
    reveal_strlit("target");
    assert("imports"@.len() != "tested_by"@.len());
    assert("delta"@.len() != "base"@.len());
    assert("delta"@.len() != "target"@.len());
    assert("base"@.len() != "target"@.len());
}

/// The base view shows all but what was added, the target view all but what was
/// removed, and the difference all.
pub proof fn lemma_views_show(status: EdgeStatus)
    ensures
        shows(crate::graph::View::Base, status) <==> status == EdgeStatus::Removed || status == EdgeStatus::Unchanged,
        shows(crate::graph::View::Target, status) <==> status == EdgeStatus::Added || status == EdgeStatus::Unchanged,
        shows(crate::graph::View::Delta, status),
{
}

/// A depth is one to three, and one where none is asked for. A graph has three
/// to a hundred nodes at most, thirty where no number is asked for, and three to
/// two hundred relationships at most, sixty where no number is asked for.
pub proof fn lemma_limits(depth: u32, n: usize)
    ensures
        applied_depth(None) == 1,
        applied_depth(Some(depth)) == if depth == 0 {
            1int
        } else if depth > 3 {
            3int
        } else {
            depth as int
        },
        bounded(None, crate::graph::DEFAULT_MAX_NODES, crate::graph::MIN_MAX_NODES, crate::graph::MAX_MAX_NODES) == 30,
        bounded(Some(n), crate::graph::DEFAULT_MAX_NODES, crate::graph::MIN_MAX_NODES, crate::graph::MAX_MAX_NODES) == if n < 3 {
            3int
        } else if n > 100 {
            100int
        } else {
            n as int
        },
        bounded(None, crate::graph::DEFAULT_MAX_EDGES, crate::graph::MIN_MAX_EDGES, crate::graph::MAX_MAX_EDGES) == 60,
        bounded(Some(n), crate::graph::DEFAULT_MAX_EDGES, crate::graph::MIN_MAX_EDGES, crate::graph::MAX_MAX_EDGES) == if n < 3 {
            3int
        } else if n > 200 {
            200int
        } else {
            n as int
        },
{
}

/// Whether a kind of node comes first.
pub open spec fn kind_first(a: NodeKind, b: NodeKind) -> bool {
    (a == NodeKind::Module && b != NodeKind::Module) || (a == NodeKind::Function && b == NodeKind::Group)
}

/// Nodes come by their kind, modules before functions before groups, then by
/// path, then by label, and then by identity.
pub proof fn lemma_nodes_come_by_kind(a: NodeView, b: NodeView)
    ensures
        node_rank(a, b) == Rank::Before <==> {
            ||| kind_first(a.kind, b.kind)
            ||| a.kind == b.kind && a.path != b.path && before(a.path, b.path)
            ||| a.kind == b.kind && a.path == b.path && a.label != b.label && before(a.label, b.label)
            ||| a.kind == b.kind && a.path == b.path && a.label == b.label && a.id != b.id && before(a.id, b.id)
        },
{
}

/// Relationships come by where they start, then by what they are, then by where
/// they end, and then by how they were found. Two that agree in all four are
/// one.
pub proof fn lemma_edges_come_by_start(a: EdgeView, b: EdgeView)
    ensures
        edge_rank(a, b) == Rank::Same <==> a.from == b.from && a.relation == b.relation && a.to == b.to && a.resolution == b.resolution,
        edge_rank(a, b) == Rank::Before <==> {
            ||| a.from != b.from && before(a.from, b.from)
            ||| a.from == b.from && relation_place(a.relation) < relation_place(b.relation)
            ||| a.from == b.from && a.relation == b.relation && a.to != b.to && before(a.to, b.to)
            ||| a.from == b.from && a.relation == b.relation && a.to == b.to && resolution_place(a.resolution) < resolution_place(b.resolution)
        },
{
}

/// A budget keeps what was asked for first, then what changed, and then what is
/// nearest.
pub proof fn lemma_budget_keeps_first(a: NodeView, b: NodeView, roots: Set<Seq<char>>)
    ensures
        roots.contains(a.id) && !roots.contains(b.id) ==> keep_rank(a, b, roots) == Rank::Before,
        roots.contains(a.id) == roots.contains(b.id) && a.status != NodeStatus::Unchanged && b.status == NodeStatus::Unchanged ==> keep_rank(
            a,
            b,
            roots,
        ) == Rank::Before,
        roots.contains(a.id) == roots.contains(b.id) && (a.status == NodeStatus::Unchanged <==> b.status == NodeStatus::Unchanged) && a.depth < b.depth
            ==> keep_rank(a, b, roots) == Rank::Before,
        roots.contains(a.id) == roots.contains(b.id) && (a.status == NodeStatus::Unchanged <==> b.status == NodeStatus::Unchanged) && a.depth == b.depth
            ==> keep_rank(a, b, roots) == node_rank(a, b),
{
}

/// A node that is added twice stays as it was first added, with the fewest hops
/// it was reached by; the others stay as they are.
pub proof fn lemma_node_is_added_once(b: BuilderView, node: NodeView, id: Seq<char>)
    ensures
        !b.nodes.contains_key(node.id) ==> b.with_node(node).nodes[node.id] == node,
        b.nodes.contains_key(node.id) ==> {
            let kept = b.with_node(node).nodes[node.id];
            let first = b.nodes[node.id];
            &&& kept.depth == least(first.depth as int, node.depth as int)
            &&& kept.id == first.id && kept.label == first.label && kept.kind == first.kind && kept.path == first.path && kept.status == first.status
        },
        id != node.id ==> (b.with_node(node).nodes.contains_key(id) <==> b.nodes.contains_key(id)),
        id != node.id && b.nodes.contains_key(id) ==> b.with_node(node).nodes[id] == b.nodes[id],
        b.with_node(node).edges == b.edges,
        b.with_node(node).roots == b.roots,
{
}

/// A relationship that is added twice stands once, as it was first added.
pub proof fn lemma_edge_is_added_once(b: BuilderView, edge: EdgeView, other: EdgeView)
    ensures
        b.with_edge(edge).nodes == b.nodes,
        other != edge ==> (b.with_edge(edge).edges.contains(other) <==> b.edges.contains(other)),
        b.edges.contains(other) && other.from == edge.from && other.to == edge.to && other.relation == edge.relation && other.resolution
            == edge.resolution ==> b.with_edge(edge) == b,
        (forall|present: EdgeView|
            b.edges.contains(present) ==> !(#[trigger] present.from == edge.from && present.to == edge.to && present.relation == edge.relation
                && present.resolution == edge.resolution)) ==> b.with_edge(edge).edges.contains(edge),
{
    if b.edges.contains(other) && other.from == edge.from && other.to == edge.to && other.relation == edge.relation && other.resolution
        == edge.resolution {
        lemma_edges_come_by_start(other, edge);
    }
    if b.has_edge(edge) {
        let present = choose|present: EdgeView| b.edges.contains(present) && #[trigger] edge_rank(present, edge) == Rank::Same;
        lemma_edges_come_by_start(present, edge);
        assert(present.from == edge.from);
    }
}

/// A view of one revision has the relationships it shows, and the nodes that
/// one of those ends at or that were asked for.
pub proof fn lemma_view_of_revision(b: BuilderView, view: crate::graph::View, edge: EdgeView, id: Seq<char>)
    ensures
        b.seen_in(view).edges.contains(edge) <==> b.edges.contains(edge) && shows(view, edge.status),
        b.seen_in(view).roots == b.roots,
        b.seen_in(view).nodes.contains_key(id) ==> b.nodes.contains_key(id) && b.seen_in(view).nodes[id] == b.nodes[id],
        b.nodes.contains_key(id) && b.roots.contains(id) ==> b.seen_in(view).nodes.contains_key(id),
        b.nodes.contains_key(id) && b.edges.contains(edge) && shows(view, edge.status) && (edge.from == id || edge.to == id)
            ==> b.seen_in(view).nodes.contains_key(id),
        view != crate::graph::View::Delta && b.seen_in(view).nodes.contains_key(id) && !b.roots.contains(id) ==> exists|e: EdgeView| #[trigger]
            b.edges.contains(e) && shows(view, e.status) && (e.from == id || e.to == id),
{
    let edges = b.shown_edges(view);
    assert(edges.contains(edge) <==> b.edges.contains(edge) && shows(view, edge.status));
    if view != crate::graph::View::Delta && b.seen_in(view).nodes.contains_key(id) && !b.roots.contains(id) {
        let e = choose|e: EdgeView| #[trigger] edges.contains(e) && (e.from == id || e.to == id);
        assert(b.edges.contains(e));
    }
}

/// A finite set has a ranking, where no two of its members share a place.
pub proof fn lemma_finite_is_ranked<T>(members: Set<T>, rank: spec_fn(T, T) -> Rank)
    requires
        members.finite(),
        lawful(rank),
        forall|a: T, b: T| members.contains(a) && members.contains(b) && #[trigger] rank(a, b) == Rank::Same ==> a == b,
    ensures
        ranked(members, rank).to_set() == members,
        strictly(ranked(members, rank), rank),
        ranked(members, rank).len() == members.len(),
        ranked(members, rank).no_duplicates(),
{
    let some = lemma_once(members);
    assert forall|a: T, b: T| some.contains(a) && some.contains(b) && #[trigger] rank(a, b) == Rank::Same implies a == b by {
        assert(some.to_set().contains(a) && some.to_set().contains(b));
    }
    lemma_arranged_ranked(some, rank);
    lemma_strictly_distinct(ranked(members, rank), rank);
    ranked(members, rank).unique_seq_to_set();
}

/// A builder that can be delivered: it is sound and finite.
pub open spec fn is_finite(b: BuilderView) -> bool {
    b.sound() && b.nodes.dom().finite() && b.edges.finite()
}

#[verifier::rlimit(60)]
#[verifier::spinoff_prover]
pub(crate) proof fn lemma_all_nodes(b: BuilderView)
    requires
        is_finite(b),
    ensures
        all_nodes(b).finite(),
        all_nodes(b).len() == b.nodes.dom().len(),
        ranked(all_nodes(b), node_order()).to_set() == all_nodes(b),
        ranked(all_nodes(b), node_order()).len() == b.nodes.dom().len(),
        ranked(all_nodes(b), keep_order(b.roots)).to_set() == all_nodes(b),
        ranked(all_nodes(b), keep_order(b.roots)).len() == b.nodes.dom().len(),
        ranked(all_nodes(b), keep_order(b.roots)).no_duplicates(),
{
    let all = all_nodes(b);
    let f = |id: Seq<char>| b.nodes[id];
    b.nodes.dom().lemma_map_finite(f);
    assert(all =~= b.nodes.dom().map(f)) by {
        assert forall|n: NodeView| #[trigger] all.contains(n) <==> b.nodes.dom().map(f).contains(n) by {
            if all.contains(n) {
                assert(b.nodes.dom().contains(n.id) && f(n.id) == n);
            }
            if b.nodes.dom().map(f).contains(n) {
                let id = choose|id: Seq<char>| b.nodes.dom().contains(id) && f(id) == n;
                assert(b.nodes.contains_key(id));
            }
        }
    }
    assert(all.len() == b.nodes.dom().len()) by {
        assert(vstd::relations::injective_on(f, b.nodes.dom())) by {
            assert forall|x: Seq<char>, y: Seq<char>| b.nodes.dom().contains(x) && b.nodes.dom().contains(y) && #[trigger] f(x) == #[trigger] f(
                y,
            ) implies x == y by {
                assert(b.nodes.contains_key(x) && b.nodes.contains_key(y));
            }
        }
        vstd::set_lib::lemma_map_size(b.nodes.dom(), all, f);
    }
    lemma_node_order();
    lemma_keep_order(b.roots);
    assert forall|x: NodeView, y: NodeView| all.contains(x) && all.contains(y) && #[trigger] node_order()(x, y) == Rank::Same implies x == y by {
        assert(node_rank(x, y) == Rank::Same);
    }
    assert forall|x: NodeView, y: NodeView| all.contains(x) && all.contains(y) && #[trigger] keep_order(b.roots)(x, y) == Rank::Same implies x == y by {
        assert(keep_rank(x, y, b.roots) == Rank::Same);
    }
    lemma_finite_is_ranked(all, node_order());
    lemma_finite_is_ranked(all, keep_order(b.roots));
}

proof fn lemma_kept(b: BuilderView, max_nodes: nat)
    requires
        is_finite(b),
    ensures
        kept_nodes(b, max_nodes).subset_of(all_nodes(b)),
        kept_nodes(b, max_nodes).finite(),
        kept_nodes(b, max_nodes).len() == least(b.nodes.dom().len() as int, max_nodes as int),
        ranked(kept_nodes(b, max_nodes), node_order()).to_set() == kept_nodes(b, max_nodes),
        ranked(kept_nodes(b, max_nodes), node_order()).len() == kept_nodes(b, max_nodes).len(),
{
    lemma_all_nodes(b);
    let kept = kept_nodes(b, max_nodes);
    let order = ranked(all_nodes(b), keep_order(b.roots));
    if ranked(all_nodes(b), node_order()).len() > max_nodes {
        let head = order.take(max_nodes as int);
        assert(head.no_duplicates());
        head.unique_seq_to_set();
        assert forall|n: NodeView| #[trigger] kept.contains(n) implies all_nodes(b).contains(n) by {
            let i = choose|i: int| 0 <= i < head.len() && head[i] == n;
            assert(order[i] == n);
            assert(order.to_set().contains(n));
        }
    }
    lemma_node_order();
    assert forall|x: NodeView, y: NodeView| kept.contains(x) && kept.contains(y) && #[trigger] node_order()(x, y) == Rank::Same implies x == y by {
        assert(node_rank(x, y) == Rank::Same);
        assert(all_nodes(b).contains(x) && all_nodes(b).contains(y));
    }
    lemma_finite_is_ranked(kept, node_order());
}

/// A graph is delivered with as many nodes and relationships as its limits
/// allow, each node under the key of its place, and tells how many it leaves
/// out and for which reason.
#[verifier::rlimit(60)]
#[verifier::spinoff_prover]
pub proof fn lemma_graph_is_delivered(b: BuilderView, limits: Limits, i: int)
    requires
        is_finite(b),
    ensures
        ({
            let graph = delivered(b, limits);
            let whole = whole_edges(b, kept_nodes(b, limits.max_nodes as nat));
            &&& graph.nodes.len() == least(b.nodes.dom().len() as int, limits.max_nodes as int)
            &&& graph.edges.len() == least(whole.len() as int, limits.max_edges as int)
            &&& at_most_32_bits((b.nodes.dom().len() - graph.nodes.len()) as nat, graph.omitted_nodes)
            &&& at_most_32_bits((whole.len() - graph.edges.len()) as nat, graph.omitted_edges)
            &&& graph.truncated <==> b.nodes.dom().len() > limits.max_nodes || whole.len() > limits.max_edges
            &&& graph.reasons.contains(TruncationReason::MaxNodes) <==> b.nodes.dom().len() > limits.max_nodes
            &&& graph.reasons.contains(TruncationReason::MaxEdges) <==> whole.len() > limits.max_edges
            &&& 0 <= i < graph.nodes.len() ==> graph.nodes[i].key == "n"@ + decimal(i as nat) && b.nodes.contains_key(graph.nodes[i].id) && {
                let given = b.nodes[graph.nodes[i].id];
                &&& graph.nodes[i].label == given.label
                &&& graph.nodes[i].kind == given.kind
                &&& graph.nodes[i].path == given.path
                &&& graph.nodes[i].status == given.status
                &&& graph.nodes[i].depth == given.depth
            }
            &&& forall|e: EdgeView| #[trigger]
                whole.contains(e) <==> b.edges.contains(e) && has_node(kept_nodes(b, limits.max_nodes as nat), e.from) && has_node(
                    kept_nodes(b, limits.max_nodes as nat),
                    e.to,
                )
        }),
{
    let graph = delivered(b, limits);
    let kept = kept_nodes(b, limits.max_nodes as nat);
    let whole = whole_edges(b, kept);
    lemma_all_nodes(b);
    lemma_kept(b, limits.max_nodes as nat);
    lemma_edge_order();
    assert(whole.subset_of(b.edges));
    vstd::set_lib::lemma_set_subset_finite(b.edges, whole);
    assert forall|x: EdgeView, y: EdgeView| whole.contains(x) && whole.contains(y) && #[trigger] edge_order()(x, y) == Rank::Same implies x == y by {
        assert(edge_rank(x, y) == Rank::Same);
    }
    lemma_finite_is_ranked(whole, edge_order());
    let nodes = ranked(kept, node_order());
    if 0 <= i < graph.nodes.len() {
        assert(nodes.contains(nodes[i]));
        assert(nodes.to_set().contains(nodes[i]));
        assert(all_nodes(b).contains(nodes[i]));
        assert(graph.nodes[i] == keyed(nodes[i], i));
    }
    let by_nodes = b.nodes.dom().len() > limits.max_nodes;
    let by_edges = whole.len() > limits.max_edges;
    if by_nodes {
        assert(graph.reasons[0] == TruncationReason::MaxNodes);
    }
    if by_edges {
        assert(graph.reasons[graph.reasons.len() - 1] == TruncationReason::MaxEdges);
    }
}

/// A report adds what was put into groups to what was left out, and lists the
/// groups that the graph shows.
pub proof fn lemma_report_adds_omissions(graph: GraphView, groups: Seq<Group>, omitted: nat, completeness: CompletenessView, group: Group)
    ensures
        ({
            let out = reported(graph, groups, omitted, completeness);
            &&& out.nodes == graph.nodes && out.edges == graph.edges && out.roots == graph.roots
            &&& out.omitted_edges == graph.omitted_edges
            &&& at_most_32_bits(graph.omitted_nodes as nat + omitted, out.omitted_nodes)
            &&& out.truncated <==> graph.truncated || omitted > 0
            &&& omitted > 0 ==> out.reasons.contains(TruncationReason::MaxNodes)
            &&& omitted == 0 ==> out.reasons == graph.reasons
            &&& out.completeness == completeness
            &&& out.groups.contains(group) <==> groups.contains(group) && is_node(graph, crate::graph::group_identity(group.role))
        }),
{
    crate::order::lemma_picked(groups, crate::graph::has_group_node(graph));
    let out = reported(graph, groups, omitted, completeness);
    if omitted > 0 && !graph.reasons.contains(TruncationReason::MaxNodes) {
        assert(out.reasons[0] == TruncationReason::MaxNodes);
    }
}

/// A node is found by its identity.
pub proof fn lemma_node_is_found(nodes: Seq<NodeView>, id: Seq<char>, k: int)
    ensures
        0 <= k < nodes.len() && nodes[k].id == id && (forall|j: int| 0 <= j < k ==> (#[trigger] nodes[j]).id != id) ==> node_with(nodes, id) == Some(
            nodes[k],
        ),
        (forall|j: int| 0 <= j < nodes.len() ==> (#[trigger] nodes[j]).id != id) ==> node_with(nodes, id) is None,
    decreases nodes.len(),
{
    if nodes.len() > 0 {
        let rest = nodes.drop_first();
        assert(nodes[0].id == nodes[0].id);
        lemma_node_is_found(rest, id, k - 1);
        assert(forall|j: int| 0 <= j < rest.len() ==> #[trigger] rest[j] == nodes[j + 1]);
        if 0 < k < nodes.len() {
            assert(rest[k - 1] == nodes[k]);
        }
    }
}

/// Whether a sequence walks hop by hop from a start to an end.
pub open spec fn walks(path: Seq<Seq<char>>, start: Set<Seq<char>>, hop: spec_fn(Seq<char>, Seq<char>) -> bool, end: Seq<char>) -> bool {
    &&& path.len() > 0
    &&& start.contains(path[0])
    &&& path.last() == end
    &&& forall|i: int| 0 <= i < path.len() - 1 ==> hop(#[trigger] path[i], path[i + 1])
}

/// What lies within a number of hops is what a walk of that many hops or fewer
/// ends at.
pub proof fn lemma_within_is_walked(start: Set<Seq<char>>, hop: spec_fn(Seq<char>, Seq<char>) -> bool, hops: nat, end: Seq<char>)
    ensures
        within(start, hop, hops).contains(end) <==> exists|path: Seq<Seq<char>>| #[trigger] walks(path, start, hop, end) && path.len() <= hops + 1,
    decreases hops,
{
    if within(start, hop, hops).contains(end) {
        if hops == 0 {
            assert(walks(seq![end], start, hop, end));
        } else {
            let fewer = (hops - 1) as nat;
            let nearer = within(start, hop, fewer);
            if nearer.contains(end) {
                lemma_within_is_walked(start, hop, fewer, end);
                let path = choose|path: Seq<Seq<char>>| #[trigger] walks(path, start, hop, end) && path.len() <= fewer + 1;
                assert(walks(path, start, hop, end));
            } else {
                let a = choose|a: Seq<char>| nearer.contains(a) && #[trigger] hop(a, end);
                lemma_within_is_walked(start, hop, fewer, a);
                let path = choose|path: Seq<Seq<char>>| #[trigger] walks(path, start, hop, a) && path.len() <= fewer + 1;
                let longer = path.push(end);
                assert forall|i: int| 0 <= i < longer.len() - 1 implies hop(#[trigger] longer[i], longer[i + 1]) by {
                    if i < path.len() - 1 {
                        assert(longer[i] == path[i] && longer[i + 1] == path[i + 1]);
                    }
                }
                assert(walks(longer, start, hop, end));
            }
        }
    }
    if exists|path: Seq<Seq<char>>| #[trigger] walks(path, start, hop, end) && path.len() <= hops + 1 {
        let path = choose|path: Seq<Seq<char>>| #[trigger] walks(path, start, hop, end) && path.len() <= hops + 1;
        if path.len() == 1 {
            crate::graph::reach::lemma_within_grows(start, hop, 0, hops);
        } else {
            let shorter = path.drop_last();
            let a = shorter.last();
            let n = path.len() as int;
            assert(walks(shorter, start, hop, a)) by {
                assert forall|i: int| 0 <= i < shorter.len() - 1 implies hop(#[trigger] shorter[i], shorter[i + 1]) by {
                    assert(shorter[i] == path[i] && shorter[i + 1] == path[i + 1]);
                }
            }
            lemma_within_is_walked(start, hop, (hops - 1) as nat, a);
            assert(path[n - 2] == a);
            assert(hop(path[n - 2], path[n - 1]));
            assert(one_hop(within(start, hop, (hops - 1) as nat), hop, end));
        }
    }
}

/// A walk in both directions follows steps of either, and a walk in one
/// direction steps of that one.
pub proof fn lemma_directions(one_way: Direction)
    requires
        one_way != Direction::Both,
    ensures
        follows(Direction::Both, one_way),
        follows(Direction::Upstream, one_way) <==> one_way == Direction::Upstream,
        follows(Direction::Downstream, one_way) <==> one_way == Direction::Downstream,
{
}

/// Whether a sequence of nodes goes along relationships that a view shows.
pub open spec fn goes(edges: Seq<EdgeView>, view: crate::graph::View, path: Seq<Seq<char>>, from: Seq<char>, to: Seq<char>) -> bool {
    &&& path.len() > 1
    &&& path[0] == from
    &&& path.last() == to
    &&& forall|i: int| 0 <= i < path.len() - 1 ==> edge_leads(edges, view, #[trigger] path[i], path[i + 1])
}

proof fn lemma_beyond(edges: Seq<EdgeView>, view: crate::graph::View, a: Seq<char>, b: Seq<char>)
    requires
        edges.len() <= u32::MAX,
    ensures
        beyond(edges, view, a).contains(b) <==> exists|path: Seq<Seq<char>>| #[trigger] goes(edges, view, path, a, b),
{
    let start = Set::new(|b: Seq<char>| edge_leads(edges, view, a, b));
    let hop = edge_hop(edges, view);
    let n = edges.len();
    if beyond(edges, view, a).contains(b) {
        lemma_within_is_walked(start, hop, n, b);
        let path = choose|path: Seq<Seq<char>>| #[trigger] walks(path, start, hop, b) && path.len() <= n + 1;
        let whole = seq![a] + path;
        assert forall|i: int| 0 <= i < whole.len() - 1 implies edge_leads(edges, view, #[trigger] whole[i], whole[i + 1]) by {
            if i > 0 {
                assert(whole[i] == path[i - 1] && whole[i + 1] == path[i]);
                assert(hop(path[i - 1], path[i - 1 + 1]));
            } else {
                assert(start.contains(path[0]));
                assert(whole[1] == path[0]);
            }
        }
        assert(whole.last() == path.last());
        assert(goes(edges, view, whole, a, b));
    }
    if exists|path: Seq<Seq<char>>| #[trigger] goes(edges, view, path, a, b) {
        let path = choose|path: Seq<Seq<char>>| #[trigger] goes(edges, view, path, a, b);
        let rest = path.drop_first();
        assert(edge_leads(edges, view, path[0], path[1]));
        assert(rest[0] == path[1]);
        assert(start.contains(rest[0]));
        assert forall|i: int| 0 <= i < rest.len() - 1 implies hop(#[trigger] rest[i], rest[i + 1]) by {
            assert(rest[i] == path[i + 1] && rest[i + 1] == path[i + 2]);
            assert(edge_leads(edges, view, path[i + 1], path[i + 1 + 1]));
        }
        assert(walks(rest, start, hop, b));
        lemma_within_is_walked(start, hop, rest.len(), b);
        lemma_no_way_is_too_long(edges, view, a, rest.len());
    }
}

/// Two nodes are in one loop where a way leads from each to the other.
pub proof fn lemma_loop_is_ways_there_and_back(edges: Seq<EdgeView>, view: crate::graph::View, a: Seq<char>, b: Seq<char>)
    requires
        edges.len() <= u32::MAX,
    ensures
        loop_of(edges, view, a).contains(b) <==> {
            &&& exists|path: Seq<Seq<char>>| #[trigger] goes(edges, view, path, a, b)
            &&& exists|path: Seq<Seq<char>>| #[trigger] goes(edges, view, path, b, a)
        },
{
    lemma_beyond(edges, view, a, b);
    lemma_beyond(edges, view, b, a);
}

/// Every node of a graph that lies on a loop is in one of the loops listed, and
/// each loop listed holds nodes of the graph that lie on one loop.
pub proof fn lemma_loops_are_listed(graph: GraphView, view: crate::graph::View, n: int, i: int)
    requires
        0 <= n <= graph.nodes.len(),
        0 <= i < n,
    ensures
        opens_loop(graph, view, i) ==> loops_upto(graph, view, n).contains(loop_members(graph, view, i)),
        loop_of(graph.edges, view, graph.nodes[i].id).contains(graph.nodes[i].id) && !opens_loop(graph, view, i) ==> exists|j: int|
            0 <= j < i && loop_of(graph.edges, view, graph.nodes[i].id).contains((#[trigger] graph.nodes[j]).id),
    decreases n,
{
    if i < n - 1 {
        lemma_loops_are_listed(graph, view, n - 1, i);
        let all = loops_upto(graph, view, n - 1);
        if opens_loop(graph, view, i) {
            let k = choose|k: int| 0 <= k < all.len() && all[k] == loop_members(graph, view, i);
            assert(loops_upto(graph, view, n)[k] == all[k]);
        }
    } else if opens_loop(graph, view, i) {
        let all = loops_upto(graph, view, n);
        assert(all[all.len() - 1] == loop_members(graph, view, i));
    }
}

/// Each loop listed is opened by a node, the first of its members.
pub proof fn lemma_each_loop_is_opened(graph: GraphView, view: crate::graph::View, n: int, k: int)
    requires
        0 <= n <= graph.nodes.len(),
        0 <= k < loops_upto(graph, view, n).len(),
    ensures
        exists|i: int| 0 <= i < n && #[trigger] opens_loop(graph, view, i) && loops_upto(graph, view, n)[k] == loop_members(graph, view, i),
    decreases n,
{
    let before = loops_upto(graph, view, n - 1);
    if k < before.len() {
        lemma_each_loop_is_opened(graph, view, n - 1, k);
        let i = choose|i: int| 0 <= i < n - 1 && #[trigger] opens_loop(graph, view, i) && before[k] == loop_members(graph, view, i);
        assert(opens_loop(graph, view, i));
    } else {
        assert(opens_loop(graph, view, n - 1));
    }
}

} // verus!
