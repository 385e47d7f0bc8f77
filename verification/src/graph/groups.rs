//! Collapse what a reader does not need one box per, before a budget drops any
//! of it.
//!
//! A module's related tests are context rather than topology, so several of
//! them become one group. Generated, vendored, and lockfile nodes are told from
//! their path alone. Whatever the node budget still cannot fit collapses by
//! direction, so the two sides of the root stay distinguishable.

use vstd::prelude::*;
use vstd::view::View as _;

use crate::analysis::saturated;
use crate::collections::{ascending, lemma_listed, listed, TextSet};
use crate::graph::assembly::{membership, status_for};
use crate::graph::{
    all_nodes, count, edge_rank, edge_views, group_identity, in_base, in_target, left_out, node_views, role_word, BuilderView, Edge, EdgeStatus,
    EdgeView, GraphBuilder, Group, GroupRole, Limits, Node, NodeKind, NodeStatus, NodeView, Relation,
};
use crate::query::classify::{classification, classify, FileClassification};
use crate::query::totals::{area_of, change_area};
use crate::text::{decimal, join3, number_text, same_text, texts, Rank};

verus! {

/// The identity that an end of an edge has once members stand in a group.
pub open spec fn moved(members: Set<Seq<char>>, group: Seq<char>, id: Seq<char>) -> Seq<char> {
    if members.contains(id) {
        group
    } else {
        id
    }
}

/// Whether an edge ends at a group once members stand in it.
pub open spec fn joins_group(members: Set<Seq<char>>, group: Seq<char>, e: EdgeView) -> bool {
    moved(members, group, e.from) == group || moved(members, group, e.to) == group
}

/// Whether two edges state one relationship once members stand in a group.
pub open spec fn same_claim(members: Set<Seq<char>>, group: Seq<char>, a: EdgeView, b: EdgeView) -> bool {
    &&& moved(members, group, a.from) == moved(members, group, b.from)
    &&& moved(members, group, a.to) == moved(members, group, b.to)
    &&& a.relation == b.relation
    &&& a.resolution == b.resolution
}

/// Whether one of some edges that the base revision has states a relationship.
pub open spec fn claimed_in_base(edges: Set<EdgeView>, members: Set<Seq<char>>, group: Seq<char>, e: EdgeView) -> bool {
    exists|p: EdgeView| edges.contains(p) && #[trigger] same_claim(members, group, p, e) && in_base(p.status)
}

/// Whether one of some edges that the target revision has states a relationship.
pub open spec fn claimed_in_target(edges: Set<EdgeView>, members: Set<Seq<char>>, group: Seq<char>, e: EdgeView) -> bool {
    exists|p: EdgeView| edges.contains(p) && #[trigger] same_claim(members, group, p, e) && in_target(p.status)
}

/// What becomes of an edge once members stand in a group: an edge of the group
/// is in a revision that has it for any member, and has no single site.
pub open spec fn image_of(edges: Set<EdgeView>, members: Set<Seq<char>>, group: Seq<char>, e: EdgeView) -> EdgeView {
    if joins_group(members, group, e) {
        EdgeView {
            from: moved(members, group, e.from),
            to: moved(members, group, e.to),
            relation: e.relation,
            status: membership(claimed_in_base(edges, members, group, e), claimed_in_target(edges, members, group, e)),
            resolution: e.resolution,
            evidence: None,
        }
    } else {
        e
    }
}

/// Whether an edge lies within a group once members stand in it.
pub open spec fn is_inside(members: Set<Seq<char>>, group: Seq<char>, e: EdgeView) -> bool {
    moved(members, group, e.from) == group && moved(members, group, e.to) == group
}

/// Whether an edge remains once members stand in a group. One between members
/// does not: a group says nothing about what it collapses.
pub open spec fn remains(edges: Set<EdgeView>, members: Set<Seq<char>>, group: Seq<char>, e: EdgeView) -> bool {
    exists|p: EdgeView| edges.contains(p) && !is_inside(members, group, p) && e == #[trigger] image_of(edges, members, group, p)
}

/// A graph once members stand in a group.
pub open spec fn collapsed(b: BuilderView, members: Set<Seq<char>>, node: NodeView) -> BuilderView {
    BuilderView {
        nodes: b.nodes.remove_keys(members),
        edges: Set::new(|e: EdgeView| remains(b.edges, members, node.id, e)),
        roots: b.roots,
    }.with_node(node)
}

/// The nodes of some identities.
pub open spec fn nodes_of(b: BuilderView, ids: Seq<Seq<char>>) -> Seq<NodeView>
    decreases ids.len(),
{
    if ids.len() == 0 {
        Seq::empty()
    } else {
        let before = nodes_of(b, ids.drop_last());
        if b.nodes.contains_key(ids.last()) {
            before.push(b.nodes[ids.last()])
        } else {
            before
        }
    }
}

/// The value that all have, where all have one.
pub open spec fn shared<T>(values: Seq<T>) -> Option<T> {
    if values.len() > 0 && forall|i: int| 0 <= i < values.len() ==> #[trigger] values[i] == values[0] {
        Some(values[0])
    } else {
        None
    }
}

/// The change areas of nodes.
pub open spec fn areas(nodes: Seq<NodeView>) -> Seq<Seq<char>> {
    nodes.map_values(|n: NodeView| area_of(n.path))
}

/// The statuses of nodes.
pub open spec fn statuses(nodes: Seq<NodeView>) -> Seq<NodeStatus> {
    nodes.map_values(|n: NodeView| n.status)
}

/// The fewest hops by which one of some nodes was reached.
pub open spec fn nearest(nodes: Seq<NodeView>) -> u32
    decreases nodes.len(),
{
    if nodes.len() == 0 {
        0
    } else if nodes.len() == 1 || nodes.last().depth < nearest(nodes.drop_last()) {
        nodes.last().depth
    } else {
        nearest(nodes.drop_last())
    }
}

/// The node of a group: it carries the change area and the status that its
/// members share, and lies as near as the nearest of them. Members of several
/// statuses are a part of the change.
pub open spec fn group_node(b: BuilderView, role: GroupRole, ids: Seq<Seq<char>>) -> NodeView {
    let nodes = nodes_of(b, ids);
    NodeView {
        id: group_identity(role),
        key: Seq::empty(),
        label: decimal(ids.len()) + " "@ + role_word(role),
        kind: NodeKind::Group,
        path: match shared(areas(nodes)) {
            Some(area) => area,
            None => Seq::empty(),
        },
        status: match shared(statuses(nodes)) {
            Some(status) => status,
            None => NodeStatus::Modified,
        },
        depth: nearest(nodes),
    }
}

/// What may stand in a group of given nodes: all but the roots, which the graph
/// is an answer about.
pub open spec fn groupable(b: BuilderView, given: Set<Seq<char>>) -> Seq<Seq<char>> {
    listed(given.difference(b.roots))
}

/// A graph as it is collapsed: what is left of it, the groups that were made,
/// and how many nodes a budget cost.
#[verifier::ext_equal]
pub struct GroupedView {
    pub builder: BuilderView,
    pub groups: Seq<Group>,
    pub omitted: nat,
}

/// A graph with one more group. A single node is left alone: a group of one
/// replaces a named file with a vaguer node and saves no room.
pub open spec fn with_group(g: GroupedView, role: GroupRole, given: Set<Seq<char>>) -> GroupedView {
    let ids = groupable(g.builder, given);
    if ids.len() < 2 {
        g
    } else {
        GroupedView {
            builder: collapsed(g.builder, ids.to_set(), group_node(g.builder, role, ids)),
            groups: g.groups.push(Group { size: saturated(ids.len()), role }),
            omitted: g.omitted,
        }
    }
}

/// How many nodes one more group collapses.
pub open spec fn collapsed_by(g: GroupedView, given: Set<Seq<char>>) -> nat {
    let ids = groupable(g.builder, given);
    if ids.len() < 2 {
        0
    } else {
        ids.len()
    }
}

/// A graph under way to being collapsed.
pub struct Grouped {
    pub builder: GraphBuilder,
    pub groups: Vec<Group>,
    pub omitted: usize,
}

impl vstd::view::View for Grouped {
    type V = GroupedView;

    open spec fn view(&self) -> GroupedView {
        GroupedView { builder: self.builder@, groups: self.groups@, omitted: self.omitted as nat }
    }
}

fn member_nodes(builder: &GraphBuilder, ids: &Vec<String>) -> (r: Vec<Node>)
    ensures
        node_views(r@) == nodes_of(builder@, texts(ids@)),
{
    let ghost names = texts(ids@);
    let mut out: Vec<Node> = Vec::new();
    let mut i: usize = 0;
    assert(node_views(out@) =~= nodes_of(builder@, names.take(0)));
    while i < ids.len()
        invariant
            i <= ids.len(),
            names == texts(ids@),
            node_views(out@) == nodes_of(builder@, names.take(i as int)),
        decreases ids.len() - i,
    {
        let ghost so_far = node_views(out@);
        assert(names.take(i + 1).drop_last() =~= names.take(i as int));
        assert(names.take(i + 1).last() == ids@[i as int]@);
        if let Some(node) = builder.node(ids[i].as_str()) {
            let one = node.copy();
            let ghost v = one@;
            out.push(one);
            assert(node_views(out@) =~= so_far.push(v));
        }
        i = i + 1;
    }
    assert(names.take(i as int) =~= names);
    out
}

fn shared_area(nodes: &Vec<Node>) -> (r: Option<String>)
    ensures
        crate::text::text_option(r) == shared(areas(node_views(nodes@))),
{
    let ghost values = areas(node_views(nodes@));
    if nodes.len() == 0 {
        return None;
    }
    let first = change_area(nodes[0].path.as_str());
    assert(values[0] == first@);
    let mut i: usize = 1;
    while i < nodes.len()
        invariant
            1 <= i <= nodes.len(),
            values == areas(node_views(nodes@)),
            values[0] == first@,
            forall|k: int| 0 <= k < i ==> #[trigger] values[k] == values[0],
        decreases nodes.len() - i,
    {
        let area = change_area(nodes[i].path.as_str());
        assert(values[i as int] == area@);
        if !same_text(area.as_str(), first.as_str()) {
            return None;
        }
        i = i + 1;
    }
    Some(first)
}

fn shared_status(nodes: &Vec<Node>) -> (r: Option<NodeStatus>)
    ensures
        r == shared(statuses(node_views(nodes@))),
{
    let ghost values = statuses(node_views(nodes@));
    if nodes.len() == 0 {
        return None;
    }
    let first = nodes[0].status;
    assert(values[0] == first);
    let mut i: usize = 1;
    while i < nodes.len()
        invariant
            1 <= i <= nodes.len(),
            values == statuses(node_views(nodes@)),
            values[0] == first,
            forall|k: int| 0 <= k < i ==> #[trigger] values[k] == values[0],
        decreases nodes.len() - i,
    {
        assert(values[i as int] == nodes@[i as int].status);
        if nodes[i].status != first {
            return None;
        }
        i = i + 1;
    }
    Some(first)
}

fn nearest_depth(nodes: &Vec<Node>) -> (r: u32)
    ensures
        r == nearest(node_views(nodes@)),
{
    let ghost views = node_views(nodes@);
    let mut least: u32 = 0;
    let mut i: usize = 0;
    assert(nearest(views.take(0)) == 0);
    while i < nodes.len()
        invariant
            i <= nodes.len(),
            views == node_views(nodes@),
            least == nearest(views.take(i as int)),
        decreases nodes.len() - i,
    {
        assert(views.take(i + 1).drop_last() =~= views.take(i as int));
        assert(views.take(i + 1).last() == nodes@[i as int]@);
        if i == 0 || nodes[i].depth < least {
            least = nodes[i].depth;
        }
        i = i + 1;
    }
    assert(views.take(i as int) =~= views);
    least
}

fn make_group_node(builder: &GraphBuilder, role: GroupRole, ids: &Vec<String>) -> (r: Node)
    ensures
        r@ == group_node(builder@, role, texts(ids@)),
{
    let nodes = member_nodes(builder, ids);
    let path = match shared_area(&nodes) {
        Some(area) => area,
        None => String::new(),
    };
    let status = match shared_status(&nodes) {
        Some(status) => status,
        None => NodeStatus::Modified,
    };
    let r = Node {
        id: Node::group_id(role),
        key: String::new(),
        label: join3(number_text(ids.len() as u64).as_str(), " ", role.name()),
        kind: NodeKind::Group,
        path,
        status,
        depth: nearest_depth(&nodes),
    };
    assert(texts(ids@).len() == ids@.len());
    assert(r@ =~= group_node(builder@, role, texts(ids@)));
    r
}

fn move_end(members: &TextSet, group: &str, id: &str) -> (r: String)
    ensures
        r@ == moved(members@, group@, id@),
{
    if members.contains(id) {
        group.to_owned()
    } else {
        id.to_owned()
    }
}

/// Whether the base and the target revision state what an edge states once
/// members stand in a group.
fn claims(edges: &Vec<Edge>, members: &TextSet, group: &str, edge: &Edge) -> (r: (bool, bool))
    ensures
        r.0 == claimed_in_base(edge_views(edges@).to_set(), members@, group@, edge@),
        r.1 == claimed_in_target(edge_views(edges@).to_set(), members@, group@, edge@),
{
    let ghost views = edge_views(edges@);
    let ghost all = views.to_set();
    let ghost e = edge@;
    let from = move_end(members, group, edge.from.as_str());
    let to = move_end(members, group, edge.to.as_str());
    let mut base = false;
    let mut target = false;
    let mut i: usize = 0;
    while i < edges.len()
        invariant
            i <= edges.len(),
            views == edge_views(edges@),
            e == edge@,
            from@ == moved(members@, group@, e.from),
            to@ == moved(members@, group@, e.to),
            base <==> exists|k: int| 0 <= k < i && #[trigger] same_claim(members@, group@, views[k], e) && in_base(views[k].status),
            target <==> exists|k: int| 0 <= k < i && #[trigger] same_claim(members@, group@, views[k], e) && in_target(views[k].status),
        decreases edges.len() - i,
    {
        let p = &edges[i];
        let ghost was_base = base;
        let ghost was_target = target;
        assert(views[i as int] == p@);
        let same = p.relation == edge.relation && p.resolution == edge.resolution && same_text(
            move_end(members, group, p.from.as_str()).as_str(),
            from.as_str(),
        ) && same_text(move_end(members, group, p.to.as_str()).as_str(), to.as_str());
        assert(same == same_claim(members@, group@, views[i as int], e));
        if same {
            match p.status {
                EdgeStatus::Added => {
                    target = true;
                },
                EdgeStatus::Removed => {
                    base = true;
                },
                EdgeStatus::Unchanged => {
                    base = true;
                    target = true;
                },
            }
        }
        proof {
            if was_base {
                let k = choose|k: int| 0 <= k < i && #[trigger] same_claim(members@, group@, views[k], e) && in_base(views[k].status);
                assert(same_claim(members@, group@, views[k], e));
            }
            if was_target {
                let k = choose|k: int| 0 <= k < i && #[trigger] same_claim(members@, group@, views[k], e) && in_target(views[k].status);
                assert(same_claim(members@, group@, views[k], e));
            }
        }
        i = i + 1;
    }
    proof {
        if base {
            let k = choose|k: int| 0 <= k < i && #[trigger] same_claim(members@, group@, views[k], e) && in_base(views[k].status);
            assert(views.contains(views[k]));
            assert(all.contains(views[k]));
        }
        if target {
            let k = choose|k: int| 0 <= k < i && #[trigger] same_claim(members@, group@, views[k], e) && in_target(views[k].status);
            assert(views.contains(views[k]));
            assert(all.contains(views[k]));
        }
        if claimed_in_base(all, members@, group@, e) {
            let p = choose|p: EdgeView| all.contains(p) && #[trigger] same_claim(members@, group@, p, e) && in_base(p.status);
            let k = choose|k: int| 0 <= k < views.len() && views[k] == p;
            assert(same_claim(members@, group@, views[k], e));
        }
        if claimed_in_target(all, members@, group@, e) {
            let p = choose|p: EdgeView| all.contains(p) && #[trigger] same_claim(members@, group@, p, e) && in_target(p.status);
            let k = choose|k: int| 0 <= k < views.len() && views[k] == p;
            assert(same_claim(members@, group@, views[k], e));
        }
    }
    (base, target)
}

fn image(edges: &Vec<Edge>, members: &TextSet, group: &str, edge: &Edge) -> (r: Edge)
    ensures
        r@ == image_of(edge_views(edges@).to_set(), members@, group@, edge@),
{
    let from = move_end(members, group, edge.from.as_str());
    let to = move_end(members, group, edge.to.as_str());
    if same_text(from.as_str(), group) || same_text(to.as_str(), group) {
        let (base, target) = claims(edges, members, group, edge);
        let r = Edge {
            from,
            to,
            relation: edge.relation,
            status: status_for(base, target),
            resolution: edge.resolution,
            evidence: None,
        };
        assert(r@ =~= image_of(edge_views(edges@).to_set(), members@, group@, edge@));
        r
    } else {
        crate::graph::copy_edge(edge)
    }
}

/// Two edges that remain and state the same are the same.
proof fn lemma_image_determined(b: BuilderView, members: Set<Seq<char>>, group: Seq<char>, p: EdgeView, q: EdgeView)
    requires
        b.sound(),
        b.edges.contains(p),
        b.edges.contains(q),
        edge_rank(image_of(b.edges, members, group, p), image_of(b.edges, members, group, q)) == Rank::Same,
    ensures
        image_of(b.edges, members, group, p) == image_of(b.edges, members, group, q),
{
    let x = image_of(b.edges, members, group, p);
    let y = image_of(b.edges, members, group, q);
    crate::graph::lemma_edge_same(x, y);
    if joins_group(members, group, p) {
        assert(joins_group(members, group, q));
        assert forall|e: EdgeView| #[trigger] same_claim(members, group, e, p) == same_claim(members, group, e, q) by {}
        assert(claimed_in_base(b.edges, members, group, p) == claimed_in_base(b.edges, members, group, q)) by {
            if claimed_in_base(b.edges, members, group, p) {
                let e = choose|e: EdgeView| b.edges.contains(e) && #[trigger] same_claim(members, group, e, p) && in_base(e.status);
                assert(same_claim(members, group, e, q));
            }
            if claimed_in_base(b.edges, members, group, q) {
                let e = choose|e: EdgeView| b.edges.contains(e) && #[trigger] same_claim(members, group, e, q) && in_base(e.status);
                assert(same_claim(members, group, e, p));
            }
        }
        assert(claimed_in_target(b.edges, members, group, p) == claimed_in_target(b.edges, members, group, q)) by {
            if claimed_in_target(b.edges, members, group, p) {
                let e = choose|e: EdgeView| b.edges.contains(e) && #[trigger] same_claim(members, group, e, p) && in_target(e.status);
                assert(same_claim(members, group, e, q));
            }
            if claimed_in_target(b.edges, members, group, q) {
                let e = choose|e: EdgeView| b.edges.contains(e) && #[trigger] same_claim(members, group, e, q) && in_target(e.status);
                assert(same_claim(members, group, e, p));
            }
        }
    } else {
        if joins_group(members, group, q) {
            assert(x.from == group || x.to == group);
        }
        assert(edge_rank(p, q) == Rank::Same);
    }
}

/// Add the nodes that stay outside a group.
fn keep_outside(builder: &GraphBuilder, members: &TextSet) -> (out: GraphBuilder)
    requires
        builder.valid(),
    ensures
        out.valid(),
        out@ == (BuilderView { nodes: builder@.nodes.remove_keys(members@), edges: Set::empty(), roots: builder@.roots }),
{
    let ghost b = builder@;
    let mut out = GraphBuilder::new();
    let roots = builder.roots();
    let n: usize = roots.len();
    let ghost names = roots.keys();
    let mut i: usize = 0;
    while i < n
        invariant
            n == names.len(),
            names == roots.keys(),
            i <= n,
            out.valid(),
            out@.nodes == Map::<Seq<char>, NodeView>::empty(),
            out@.edges == Set::<EdgeView>::empty(),
            forall|id: Seq<char>| #[trigger] out@.roots.contains(id) <==> names.take(i as int).contains(id),
        decreases n - i,
    {
        proof {
            assert(names.take(i + 1) =~= names.take(i as int).push(names[i as int]));
            crate::collections::lemma_push_contains(names.take(i as int), names[i as int]);
        }
        out.add_root(roots.key_at(i).to_owned());
        i = i + 1;
    }
    proof {
        assert(names.take(n as int) =~= names);
        assert forall|id: Seq<char>| out@.roots.contains(id) <==> b.roots.contains(id) by {
            assert(names.to_set().contains(id) <==> b.roots.contains(id));
        }
        assert(out@.roots =~= b.roots);
    }
    let nodes = builder.nodes();
    let ghost views = node_views(nodes@);
    proof {
        builder.lemma_sound();
        crate::graph::lemma_node_order();
        crate::order::lemma_strictly_distinct(views, crate::graph::node_order());
        assert forall|k: int| 0 <= k < views.len() implies b.nodes.contains_key((#[trigger] views[k]).id) && b.nodes[views[k].id] == views[k] by {
            assert(views.contains(views[k]));
            assert(views.to_set().contains(views[k]));
            assert(all_nodes(b).contains(views[k]));
        }
    }
    let mut j: usize = 0;
    while j < nodes.len()
        invariant
            j <= nodes.len(),
            views == node_views(nodes@),
            views.no_duplicates(),
            forall|k: int| 0 <= k < views.len() ==> b.nodes.contains_key((#[trigger] views[k]).id) && b.nodes[views[k].id] == views[k],
            out.valid(),
            out@.roots == b.roots,
            out@.edges == Set::<EdgeView>::empty(),
            forall|id: Seq<char>| #[trigger]
                out@.nodes.contains_key(id) <==> !members@.contains(id) && exists|k: int| 0 <= k < j && (#[trigger] views[k]).id == id,
            forall|id: Seq<char>| #[trigger] out@.nodes.contains_key(id) ==> out@.nodes[id] == b.nodes[id],
        decreases nodes.len() - j,
    {
        let ghost before = out@;
        let ghost v = views[j as int];
        assert(v == nodes@[j as int]@);
        if !members.contains(nodes[j].id.as_str()) {
            proof {
                if before.nodes.contains_key(v.id) {
                    let k = choose|k: int| 0 <= k < j && (#[trigger] views[k]).id == v.id;
                    assert(views[k] == b.nodes[v.id]);
                    assert(views[k] == v);
                }
            }
            out.add_node(nodes[j].copy());
            assert(out@.nodes == before.nodes.insert(v.id, v));
        }
        proof {
            assert forall|id: Seq<char>| #[trigger] out@.nodes.contains_key(id) <==> !members@.contains(id) && exists|k: int|
                0 <= k < j + 1 && (#[trigger] views[k]).id == id by {
                if before.nodes.contains_key(id) {
                    let k = choose|k: int| 0 <= k < j && (#[trigger] views[k]).id == id;
                    assert(views[k].id == id);
                }
                if id == v.id {
                    assert(views[j as int].id == id);
                }
            }
        }
        j = j + 1;
    }
    proof {
        let wanted = b.nodes.remove_keys(members@);
        assert forall|id: Seq<char>| out@.nodes.contains_key(id) <==> wanted.contains_key(id) by {
            if b.nodes.contains_key(id) {
                let n = b.nodes[id];
                assert(n.id == id);
                assert(all_nodes(b).contains(n));
                assert(views.to_set().contains(n));
                let k = choose|k: int| 0 <= k < views.len() && views[k] == n;
                assert(views[k].id == id);
            }
            if out@.nodes.contains_key(id) {
                let k = choose|k: int| 0 <= k < views.len() && (#[trigger] views[k]).id == id;
                assert(b.nodes.contains_key(views[k].id));
            }
        }
        assert(out@.nodes =~= wanted);
    }
    out
}

/// Put members into a group.
fn collapse_into(builder: GraphBuilder, members: &TextSet, node: Node) -> (out: GraphBuilder)
    requires
        builder.valid(),
    ensures
        out.valid(),
        out@ == collapsed(builder@, members@, node@),
{
    let ghost b = builder@;
    let ghost group = node.id@;
    let ghost inserted = node@;
    let id = node.id.clone();
    let mut out = keep_outside(&builder, members);
    out.add_node(node);
    let ghost start = out@;
    let edges = builder.edges();
    let ghost views = edge_views(edges@);
    proof {
        builder.lemma_sound();
        assert(views.to_set() == b.edges);
    }
    let mut i: usize = 0;
    while i < edges.len()
        invariant
            i <= edges.len(),
            views == edge_views(edges@),
            views.to_set() == b.edges,
            b.sound(),
            group == id@,
            out.valid(),
            out@.nodes == start.nodes,
            out@.roots == start.roots,
            forall|e: EdgeView| #[trigger]
                out@.edges.contains(e) <==> exists|k: int|
                    0 <= k < i && !is_inside(members@, group, #[trigger] views[k]) && e == image_of(b.edges, members@, group, views[k]),
        decreases edges.len() - i,
    {
        let edge = &edges[i];
        let ghost before = out@;
        let ghost p = views[i as int];
        assert(p == edge@);
        assert(views.contains(p));
        let inside = same_text(move_end(members, id.as_str(), edge.from.as_str()).as_str(), id.as_str()) && same_text(
            move_end(members, id.as_str(), edge.to.as_str()).as_str(),
            id.as_str(),
        );
        if !inside {
            let one = image(edges, members, id.as_str(), edge);
            let ghost e = one@;
            out.add_edge(one);
            proof {
                if before.has_edge(e) {
                    let q = choose|q: EdgeView| before.edges.contains(q) && #[trigger] edge_rank(q, e) == Rank::Same;
                    let k = choose|k: int|
                        0 <= k < i && !is_inside(members@, group, #[trigger] views[k]) && q == image_of(b.edges, members@, group, views[k]);
                    assert(views.contains(views[k]));
                    assert(views.to_set().contains(views[k]) && views.to_set().contains(p));
                    lemma_image_determined(b, members@, group, views[k], p);
                    assert(before.edges.insert(e) =~= before.edges);
                }
                assert(out@.edges =~= before.edges.insert(e));
            }
        }
        proof {
            assert forall|e: EdgeView| #[trigger] out@.edges.contains(e) <==> exists|k: int|
                0 <= k < i + 1 && !is_inside(members@, group, #[trigger] views[k]) && e == image_of(b.edges, members@, group, views[k]) by {
                if before.edges.contains(e) {
                    let k = choose|k: int|
                        0 <= k < i && !is_inside(members@, group, #[trigger] views[k]) && e == image_of(b.edges, members@, group, views[k]);
                    assert(!is_inside(members@, group, views[k]));
                }
                if !inside && e == image_of(b.edges, members@, group, p) {
                    assert(!is_inside(members@, group, views[i as int]));
                }
            }
        }
        i = i + 1;
    }
    proof {
        let wanted = collapsed(b, members@, inserted);
        assert forall|e: EdgeView| out@.edges.contains(e) <==> wanted.edges.contains(e) by {
            if out@.edges.contains(e) {
                let k = choose|k: int|
                    0 <= k < i && !is_inside(members@, group, #[trigger] views[k]) && e == image_of(b.edges, members@, group, views[k]);
                assert(views.contains(views[k]));
                assert(views.to_set().contains(views[k]));
            }
            if remains(b.edges, members@, group, e) {
                let p = choose|p: EdgeView|
                    b.edges.contains(p) && !is_inside(members@, group, p) && e == #[trigger] image_of(b.edges, members@, group, p);
                assert(views.to_set().contains(p));
                let k = choose|k: int| 0 <= k < views.len() && views[k] == p;
                assert(!is_inside(members@, group, views[k]));
            }
        }
        assert(out@.edges =~= wanted.edges);
        assert(out@.nodes =~= wanted.nodes);
        assert(out@ =~= wanted);
    }
    out
}

/// Collapse one set of nodes, naming the change area they share when they share
/// one.
fn collapse(grouped: Grouped, role: GroupRole, given: &TextSet) -> (r: (Grouped, usize))
    requires
        grouped.builder.valid(),
    ensures
        r.0.builder.valid(),
        r.0@ == with_group(grouped@, role, given@),
        r.1 == collapsed_by(grouped@, given@),
{
    let ghost g = grouped@;
    let ids = crate::collections::difference(given, grouped.builder.roots());
    if ids.len() < 2 {
        assert(texts(ids@).len() == ids@.len());
        return (grouped, 0);
    }
    let Grouped { builder, groups, omitted } = grouped;
    let members = TextSet::from_list(&ids);
    let node = make_group_node(&builder, role, &ids);
    let builder = collapse_into(builder, &members, node);
    let mut groups = groups;
    groups.push(Group { size: count(ids.len()), role });
    let r = Grouped { builder, groups, omitted };
    proof {
        assert(texts(ids@).len() == ids@.len());
        assert(r@ =~= with_group(g, role, given@));
    }
    (r, ids.len())
}

/// The nodes that test something in the graph. Membership is the relationship
/// rather than the path: a test that is reached as a plain importer is still a
/// place a reader may want named.
pub open spec fn testers(b: BuilderView) -> Set<Seq<char>> {
    Set::new(|id: Seq<char>| exists|e: EdgeView| #[trigger] b.edges.contains(e) && e.relation == Relation::TestedBy && e.from == id)
}

/// The nodes whose path says that nobody reads them one by one.
pub open spec fn classified(b: BuilderView, role: FileClassification) -> Set<Seq<char>> {
    Set::new(
        |id: Seq<char>|
            b.nodes.contains_key(id) && b.nodes[id].kind != NodeKind::Group && classification(b.nodes[id].path) == role,
    )
}

/// Those of some nodes that point into the graph: they reach the root.
pub open spec fn reaching(b: BuilderView, ids: Set<Seq<char>>) -> Set<Seq<char>> {
    ids.filter(|id: Seq<char>| exists|e: EdgeView| #[trigger] b.edges.contains(e) && e.from == id)
}

fn test_nodes(builder: &GraphBuilder) -> (r: TextSet)
    requires
        builder.valid(),
    ensures
        r@ == testers(builder@),
{
    let edges = builder.edges();
    let ghost views = edge_views(edges@);
    let mut out = TextSet::new();
    let mut i: usize = 0;
    while i < edges.len()
        invariant
            i <= edges.len(),
            views == edge_views(edges@),
            forall|id: Seq<char>| #[trigger]
                out@.contains(id) <==> exists|k: int| 0 <= k < i && (#[trigger] views[k]).relation == Relation::TestedBy && views[k].from == id,
        decreases edges.len() - i,
    {
        let ghost before = out@;
        assert(views[i as int] == edges@[i as int]@);
        if edges[i].relation == Relation::TestedBy {
            out.insert(edges[i].from.clone());
        }
        proof {
            assert forall|id: Seq<char>| #[trigger] out@.contains(id) <==> exists|k: int|
                0 <= k < i + 1 && (#[trigger] views[k]).relation == Relation::TestedBy && views[k].from == id by {
                if before.contains(id) {
                    let k = choose|k: int| 0 <= k < i && (#[trigger] views[k]).relation == Relation::TestedBy && views[k].from == id;
                    assert(views[k].from == id);
                }
                if out@.contains(id) && !before.contains(id) {
                    assert(views[i as int].from == id);
                }
            }
        }
        i = i + 1;
    }
    proof {
        assert forall|id: Seq<char>| out@.contains(id) <==> testers(builder@).contains(id) by {
            if out@.contains(id) {
                let k = choose|k: int| 0 <= k < i && (#[trigger] views[k]).relation == Relation::TestedBy && views[k].from == id;
                assert(views.contains(views[k]));
                assert(views.to_set().contains(views[k]));
                assert(builder@.edges.contains(views[k]));
            }
            if testers(builder@).contains(id) {
                let e = choose|e: EdgeView| #[trigger] builder@.edges.contains(e) && e.relation == Relation::TestedBy && e.from == id;
                assert(views.to_set().contains(e));
                let k = choose|k: int| 0 <= k < views.len() && views[k] == e;
                assert(views[k].from == id);
            }
        }
        assert(out@ =~= testers(builder@));
    }
    out
}

fn classified_nodes(builder: &GraphBuilder, role: FileClassification) -> (r: TextSet)
    requires
        builder.valid(),
    ensures
        r@ == classified(builder@, role),
{
    let ghost b = builder@;
    let nodes = builder.nodes();
    let ghost views = node_views(nodes@);
    let mut out = TextSet::new();
    let mut i: usize = 0;
    while i < nodes.len()
        invariant
            i <= nodes.len(),
            views == node_views(nodes@),
            forall|id: Seq<char>| #[trigger]
                out@.contains(id) <==> exists|k: int|
                    0 <= k < i && (#[trigger] views[k]).id == id && views[k].kind != NodeKind::Group && classification(views[k].path) == role,
        decreases nodes.len() - i,
    {
        let ghost before = out@;
        assert(views[i as int] == nodes@[i as int]@);
        if nodes[i].kind != NodeKind::Group && classify(nodes[i].path.as_str()) == role {
            out.insert(nodes[i].id.clone());
        }
        proof {
            assert forall|id: Seq<char>| #[trigger] out@.contains(id) <==> exists|k: int|
                0 <= k < i + 1 && (#[trigger] views[k]).id == id && views[k].kind != NodeKind::Group && classification(views[k].path) == role by {
                if before.contains(id) {
                    let k = choose|k: int|
                        0 <= k < i && (#[trigger] views[k]).id == id && views[k].kind != NodeKind::Group && classification(views[k].path) == role;
                    assert(views[k].id == id);
                }
                if out@.contains(id) && !before.contains(id) {
                    assert(views[i as int].id == id);
                }
            }
        }
        i = i + 1;
    }
    proof {
        builder.lemma_sound();
        assert forall|id: Seq<char>| out@.contains(id) <==> classified(b, role).contains(id) by {
            if out@.contains(id) {
                let k = choose|k: int|
                    0 <= k < i && (#[trigger] views[k]).id == id && views[k].kind != NodeKind::Group && classification(views[k].path) == role;
                assert(views.contains(views[k]));
                assert(views.to_set().contains(views[k]));
                assert(all_nodes(b).contains(views[k]));
            }
            if classified(b, role).contains(id) {
                let n = b.nodes[id];
                assert(n.id == id);
                assert(all_nodes(b).contains(n));
                assert(views.to_set().contains(n));
                let k = choose|k: int| 0 <= k < views.len() && views[k] == n;
                assert(views[k].id == id);
            }
        }
        assert(out@ =~= classified(b, role));
    }
    out
}

/// Which side of the root each node sits on: what points into the graph, and
/// the rest.
fn sides(builder: &GraphBuilder, ids: &TextSet) -> (r: (TextSet, TextSet))
    requires
        builder.valid(),
    ensures
        r.0@ == reaching(builder@, ids@),
        r.1@ == ids@.difference(reaching(builder@, ids@)),
{
    let edges = builder.edges();
    let ghost views = edge_views(edges@);
    let ghost b = builder@;
    let mut sources = TextSet::new();
    let mut i: usize = 0;
    while i < edges.len()
        invariant
            i <= edges.len(),
            views == edge_views(edges@),
            forall|id: Seq<char>| #[trigger] sources@.contains(id) <==> exists|k: int| 0 <= k < i && (#[trigger] views[k]).from == id,
        decreases edges.len() - i,
    {
        let ghost before = sources@;
        assert(views[i as int] == edges@[i as int]@);
        sources.insert(edges[i].from.clone());
        proof {
            assert forall|id: Seq<char>| #[trigger] sources@.contains(id) <==> exists|k: int| 0 <= k < i + 1 && (#[trigger] views[k]).from == id by {
                if before.contains(id) {
                    let k = choose|k: int| 0 <= k < i && (#[trigger] views[k]).from == id;
                    assert(views[k].from == id);
                }
                if id == views[i as int].from {
                    assert(views[i as int].from == id);
                }
            }
        }
        i = i + 1;
    }
    let dependencies = TextSet::from_list(&crate::collections::difference(ids, &sources));
    let callers = TextSet::from_list(&crate::collections::difference(ids, &dependencies));
    proof {
        assert forall|id: Seq<char>| sources@.contains(id) <==> exists|e: EdgeView| #[trigger] b.edges.contains(e) && e.from == id by {
            if sources@.contains(id) {
                let k = choose|k: int| 0 <= k < i && (#[trigger] views[k]).from == id;
                assert(views.contains(views[k]));
                assert(views.to_set().contains(views[k]));
                assert(b.edges.contains(views[k]));
            }
            if exists|e: EdgeView| #[trigger] b.edges.contains(e) && e.from == id {
                let e = choose|e: EdgeView| #[trigger] b.edges.contains(e) && e.from == id;
                assert(views.to_set().contains(e));
                let k = choose|k: int| 0 <= k < views.len() && views[k] == e;
                assert(views[k].from == id);
            }
        }
        assert(callers@ =~= reaching(b, ids@));
        assert(dependencies@ =~= ids@.difference(reaching(b, ids@)));
    }
    (callers, dependencies)
}

/// How many group nodes a side costs: one, or none when it has nothing to
/// collapse.
pub open spec fn groups_needed_by(side: Set<Seq<char>>) -> nat {
    if listed(side).len() > 1 {
        1
    } else {
        0
    }
}

fn groups_needed(side: &TextSet) -> (r: usize)
    ensures
        r == groups_needed_by(side@),
{
    let n: usize = side.len();
    proof {
        lemma_listed(side.keys());
    }
    if n > 1 {
        1
    } else {
        0
    }
}

/// A budget with some slots spent already.
pub open spec fn budget_less(limits: Limits, reserve: nat) -> nat {
    if limits.max_nodes < reserve {
        0
    } else {
        (limits.max_nodes - reserve) as nat
    }
}

/// A graph whose overflow is collapsed, with at least some slots spent on the
/// groups: the smallest reservation whose own groups fit inside it is applied.
pub open spec fn overflow_collapsed(g: GroupedView, limits: Limits, reserve: nat) -> GroupedView
    decreases 2 - reserve,
{
    let over = left_out(g.builder, budget_less(limits, reserve));
    let callers = reaching(g.builder, over);
    let dependencies = over.difference(callers);
    if reserve < 2 && groups_needed_by(callers) + groups_needed_by(dependencies) > reserve {
        overflow_collapsed(g, limits, reserve + 1)
    } else {
        let first = with_group(g, GroupRole::Callers, callers);
        let second = with_group(first, GroupRole::Dependencies, dependencies);
        GroupedView { omitted: g.omitted + collapsed_by(g, callers) + collapsed_by(first, dependencies), ..second }
    }
}

/// Collapse whatever the node budget cannot fit, by the side of the root it sits
/// on.
fn collapse_overflow(grouped: Grouped, limits: Limits) -> (r: Grouped)
    requires
        grouped.builder.valid(),
        grouped.omitted == 0,
    ensures
        r.builder.valid(),
        r@.builder == overflow_collapsed(grouped@, limits, 0).builder,
        r@.groups == overflow_collapsed(grouped@, limits, 0).groups,
        r@.omitted == countable_nat(overflow_collapsed(grouped@, limits, 0).omitted),
{
    let ghost g = grouped@;
    let mut reserve: usize = 0;
    loop
        invariant
            reserve <= 2,
            grouped.builder.valid(),
            grouped.omitted == 0,
            g == grouped@,
            overflow_collapsed(g, limits, reserve as nat) == overflow_collapsed(g, limits, 0),
        ensures
            overflow_collapsed(g, limits, 0) == ({
                let over = left_out(g.builder, budget_less(limits, reserve as nat));
                let callers = reaching(g.builder, over);
                let dependencies = over.difference(callers);
                let first = with_group(g, GroupRole::Callers, callers);
                let second = with_group(first, GroupRole::Dependencies, dependencies);
                GroupedView { omitted: g.omitted + collapsed_by(g, callers) + collapsed_by(first, dependencies), ..second }
            }),
        decreases 2 - reserve,
    {
        let budget: usize = if limits.max_nodes < reserve {
            0
        } else {
            limits.max_nodes - reserve
        };
        let over = grouped.builder.overflow(budget);
        let (callers, dependencies) = sides(&grouped.builder, &over);
        if reserve >= 2 || groups_needed(&callers) + groups_needed(&dependencies) <= reserve {
            break;
        }
        reserve = reserve + 1;
    }
    let budget: usize = if limits.max_nodes < reserve {
        0
    } else {
        limits.max_nodes - reserve
    };
    let over = grouped.builder.overflow(budget);
    let (callers, dependencies) = sides(&grouped.builder, &over);
    let (first, one) = collapse(grouped, GroupRole::Callers, &callers);
    let (second, two) = collapse(first, GroupRole::Dependencies, &dependencies);
    let Grouped { builder, groups, omitted: _ } = second;
    let omitted: usize = if one > usize::MAX - two {
        usize::MAX
    } else {
        one + two
    };
    Grouped { builder, groups, omitted }
}

/// A number as far as it can be counted.
pub open spec fn countable_nat(n: nat) -> nat {
    if n > usize::MAX {
        usize::MAX as nat
    } else {
        n
    }
}

/// A graph with everything collapsed that is, before its budget is applied:
/// tests, then what nobody reads one by one, then what does not fit.
pub open spec fn grouped_graph(b: BuilderView, limits: Limits) -> GroupedView {
    let whole = GroupedView { builder: b, groups: Seq::empty(), omitted: 0 };
    let tested = with_group(whole, GroupRole::Tests, testers(b));
    let generated = with_group(tested, GroupRole::Generated, classified(tested.builder, FileClassification::Generated));
    let vendored = with_group(generated, GroupRole::Vendored, classified(generated.builder, FileClassification::Vendored));
    let locked = with_group(vendored, GroupRole::Lockfile, classified(vendored.builder, FileClassification::Lockfile));
    let out = overflow_collapsed(locked, limits, 0);
    GroupedView { omitted: countable_nat(out.omitted), ..out }
}

/// Collapse what a reader does not need one box per.
///
/// A group is never dropped in favour of a node it replaced: this comes before
/// the budget is applied.
pub fn collapse_groups(builder: GraphBuilder, limits: Limits) -> (r: Grouped)
    requires
        builder.valid(),
    ensures
        r.builder.valid(),
        r@ == grouped_graph(builder@, limits),
{
    let ghost b = builder@;
    let tests = test_nodes(&builder);
    let whole = Grouped { builder, groups: Vec::new(), omitted: 0 };
    assert(whole@ =~= GroupedView { builder: b, groups: Seq::empty(), omitted: 0 });
    let (tested, _) = collapse(whole, GroupRole::Tests, &tests);
    let members = classified_nodes(&tested.builder, FileClassification::Generated);
    let (generated, _) = collapse(tested, GroupRole::Generated, &members);
    let members = classified_nodes(&generated.builder, FileClassification::Vendored);
    let (vendored, _) = collapse(generated, GroupRole::Vendored, &members);
    let members = classified_nodes(&vendored.builder, FileClassification::Lockfile);
    let (locked, _) = collapse(vendored, GroupRole::Lockfile, &members);
    assert(locked.omitted == 0) by {
        assert(locked@.omitted == 0);
    }
    let r = collapse_overflow(locked, limits);
    assert(r@ =~= grouped_graph(b, limits));
    r
}

/// A root is never a member of a group: whatever is collapsed, its node stays.
pub proof fn lemma_roots_are_never_grouped(g: GroupedView, role: GroupRole, given: Set<Seq<char>>, id: Seq<char>)
    requires
        g.builder.roots.contains(id),
        g.builder.nodes.contains_key(id),
        exists|keys: Seq<Seq<char>>| #[trigger] ascending(keys) && keys.to_set() == given.difference(g.builder.roots),
    ensures
        with_group(g, role, given).builder.nodes.contains_key(id),
        with_group(g, role, given).builder.roots == g.builder.roots,
{
    let keys = choose|keys: Seq<Seq<char>>| #[trigger] ascending(keys) && keys.to_set() == given.difference(g.builder.roots);
    lemma_listed(keys);
    assert(!keys.to_set().contains(id));
}

/// Once members stand in a group, no relationship ends at one of them, and none
/// leads from the group to itself.
pub proof fn lemma_members_are_gone(b: BuilderView, members: Set<Seq<char>>, node: NodeView, e: EdgeView)
    requires
        !members.contains(node.id),
        collapsed(b, members, node).edges.contains(e),
    ensures
        !members.contains(e.from),
        !members.contains(e.to),
        !(e.from == node.id && e.to == node.id),
{
    let p = choose|p: EdgeView|
        b.edges.contains(p) && !is_inside(members, node.id, p) && e == #[trigger] image_of(b.edges, members, node.id, p);
    assert(remains(b.edges, members, node.id, e));
}

/// A relationship of a group is in a revision where one of those it stands for
/// is: a group says no less of either revision than its members did.
pub proof fn lemma_group_keeps_what_revisions_have(b: BuilderView, members: Set<Seq<char>>, node: NodeView, p: EdgeView)
    requires
        b.edges.contains(p),
        !is_inside(members, node.id, p),
        joins_group(members, node.id, p),
    ensures
        ({
            let e = image_of(b.edges, members, node.id, p);
            &&& collapsed(b, members, node).edges.contains(e)
            &&& in_base(p.status) ==> in_base(e.status)
            &&& in_target(p.status) ==> in_target(e.status)
        }),
{
    assert(same_claim(members, node.id, p, p));
    assert(remains(b.edges, members, node.id, image_of(b.edges, members, node.id, p)));
}

} // verus!
