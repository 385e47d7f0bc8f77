//! What stands together in one node of a graph.

use vstd::prelude::*;

use crate::collections::listed;
use crate::graph::groups::{
    classified, collapsed, collapsed_by, group_node, groupable, image_of, is_inside, joins_group, nearest, nodes_of, overflow_collapsed, reaching, remains,
    testers, with_group, GroupedView,
};
use crate::graph::{
    all_nodes, group_identity, has_node, kept_nodes, left_out, BuilderView, EdgeStatus, EdgeView, Group, GroupRole, Limits, NodeKind, NodeView,
    Relation,
};
use crate::laws::graph::is_finite;
use crate::laws::words::lemma_finite_is_listed;
use crate::query::classify::{classification, FileClassification};
use crate::text::decimal;

verus! {

/// Fewer than two nodes besides those asked for make no group; two or more
/// make one, which takes their place under the name of its role and tells how
/// many they are.
pub proof fn lemma_group_takes_their_place(g: GroupedView, role: GroupRole, given: Set<Seq<char>>, id: Seq<char>)
    requires
        given.finite(),
    ensures
        ({
            let members = given.difference(g.builder.roots);
            let out = with_group(g, role, given);
            let group = group_identity(role);
            &&& members.len() < 2 ==> out == g && collapsed_by(g, given) == 0
            &&& members.len() >= 2 ==> {
                &&& collapsed_by(g, given) == members.len()
                &&& out.groups.len() == g.groups.len() + 1
                &&& out.groups.last().role == role
                &&& members.len() <= u32::MAX ==> out.groups.last().size == members.len()
                &&& out.omitted == g.omitted
                &&& out.builder.roots == g.builder.roots
                &&& out.builder.nodes.contains_key(group)
                &&& id != group && members.contains(id) ==> !out.builder.nodes.contains_key(id)
                &&& id != group && !members.contains(id) ==> (out.builder.nodes.contains_key(id) <==> g.builder.nodes.contains_key(id))
                &&& id != group && !members.contains(id) && g.builder.nodes.contains_key(id) ==> out.builder.nodes[id] == g.builder.nodes[id]
            }
        }),
{
    let members = given.difference(g.builder.roots);
    vstd::set_lib::lemma_set_subset_finite(given, members);
    lemma_finite_is_listed(members);
    let ids = groupable(g.builder, given);
    assert(ids.to_set() == members);
}

/// A group is a node of its own kind, named by the number of its members and
/// its role.
pub proof fn lemma_group_is_named(b: BuilderView, role: GroupRole, ids: Seq<Seq<char>>)
    ensures
        ({
            let node = group_node(b, role, ids);
            let word = match role {
                GroupRole::Tests => "tests"@,
                GroupRole::Generated => "generated"@,
                GroupRole::Vendored => "vendored"@,
                GroupRole::Lockfile => "lockfile"@,
                GroupRole::Callers => "callers"@,
                GroupRole::Dependencies => "dependencies"@,
            };
            &&& node.kind == NodeKind::Group
            &&& node.id == "group:"@ + word
            &&& node.label == decimal(ids.len()) + " "@ + word
        }),
{
}

proof fn lemma_nodes_of(b: BuilderView, ids: Seq<Seq<char>>, n: NodeView)
    ensures
        nodes_of(b, ids).contains(n) <==> exists|i: int| 0 <= i < ids.len() && b.nodes.contains_key(#[trigger] ids[i]) && b.nodes[ids[i]] == n,
    decreases ids.len(),
{
    let k = ids.len() as int;
    if k > 0 {
        let fewer = ids.drop_last();
        lemma_nodes_of(b, fewer, n);
        let before = nodes_of(b, fewer);
        if b.nodes.contains_key(ids.last()) {
            crate::collections::lemma_push_contains(before, b.nodes[ids.last()]);
            assert(nodes_of(b, ids).contains(n) <==> before.contains(n) || n == b.nodes[ids.last()]);
        }
        assert(ids[k - 1] == ids.last());
        if before.contains(n) {
            let i = choose|i: int| 0 <= i < fewer.len() && b.nodes.contains_key(#[trigger] fewer[i]) && b.nodes[fewer[i]] == n;
            assert(ids[i] == fewer[i]);
        }
        if exists|i: int| 0 <= i < ids.len() && b.nodes.contains_key(#[trigger] ids[i]) && b.nodes[ids[i]] == n {
            let i = choose|i: int| 0 <= i < ids.len() && b.nodes.contains_key(#[trigger] ids[i]) && b.nodes[ids[i]] == n;
            if i < k - 1 {
                assert(fewer[i] == ids[i]);
            }
        }
    } else {
        assert(!nodes_of(b, ids).contains(n));
    }
}

proof fn lemma_nearest(nodes: Seq<NodeView>, i: int)
    requires
        0 <= i < nodes.len(),
    ensures
        nearest(nodes) <= nodes[i].depth,
        exists|k: int| 0 <= k < nodes.len() && nearest(nodes) == (#[trigger] nodes[k]).depth,
    decreases nodes.len(),
{
    let n = nodes.len() as int;
    if n > 1 {
        let fewer = nodes.drop_last();
        lemma_nearest(
            fewer,
            if i < n - 1 {
                i
            } else {
                0
            },
        );
        let k = choose|k: int| 0 <= k < fewer.len() && nearest(fewer) == (#[trigger] fewer[k]).depth;
        assert(nodes[k] == fewer[k]);
        if i < n - 1 {
            assert(nodes[i] == fewer[i]);
        }
        assert(nodes[n - 1] == nodes.last());
    } else {
        assert(nodes[0] == nodes.last());
    }
}

/// A group is as near as its nearest member.
pub proof fn lemma_group_is_as_near_as_nearest(b: BuilderView, role: GroupRole, ids: Seq<Seq<char>>, i: int)
    requires
        0 <= i < ids.len(),
        b.nodes.contains_key(ids[i]),
    ensures
        group_node(b, role, ids).depth <= b.nodes[ids[i]].depth,
        exists|k: int| 0 <= k < ids.len() && b.nodes.contains_key(#[trigger] ids[k]) && group_node(b, role, ids).depth == b.nodes[ids[k]].depth,
{
    let nodes = nodes_of(b, ids);
    let own = b.nodes[ids[i]];
    lemma_nodes_of(b, ids, own);
    let at = choose|at: int| 0 <= at < nodes.len() && nodes[at] == own;
    lemma_nearest(nodes, at);
    let k = choose|k: int| 0 <= k < nodes.len() && nearest(nodes) == (#[trigger] nodes[k]).depth;
    lemma_nodes_of(b, ids, nodes[k]);
    assert(nodes.contains(nodes[k]));
}

/// A relationship between others stays as it is; one that ends at a member ends
/// at the group instead, and one within the group goes.
pub proof fn lemma_relationships_follow(b: BuilderView, members: Set<Seq<char>>, node: NodeView, p: EdgeView)
    requires
        b.edges.contains(p),
        !members.contains(node.id),
        p.from != node.id,
        p.to != node.id,
    ensures
        ({
            let out = collapsed(b, members, node);
            &&& !members.contains(p.from) && !members.contains(p.to) ==> out.edges.contains(p)
            &&& members.contains(p.from) && !members.contains(p.to) ==> exists|e: EdgeView| #[trigger]
                out.edges.contains(e) && e.from == node.id && e.to == p.to && e.relation == p.relation && e.resolution == p.resolution
            &&& !members.contains(p.from) && members.contains(p.to) ==> exists|e: EdgeView| #[trigger]
                out.edges.contains(e) && e.from == p.from && e.to == node.id && e.relation == p.relation && e.resolution == p.resolution
        }),
{
    let out = collapsed(b, members, node);
    let e = image_of(b.edges, members, node.id, p);
    if !is_inside(members, node.id, p) {
        assert(remains(b.edges, members, node.id, e));
        assert(out.edges.contains(e));
    }
}

/// A relationship of a group was added where all it stands for were added,
/// removed where all were removed, and is unchanged else.
pub proof fn lemma_group_relationship_changes_with_all(b: BuilderView, members: Set<Seq<char>>, group: Seq<char>, p: EdgeView)
    requires
        b.edges.contains(p),
        joins_group(members, group, p),
    ensures
        ({
            let e = image_of(b.edges, members, group, p);
            &&& e.status == EdgeStatus::Added <==> forall|q: EdgeView|
                b.edges.contains(q) && #[trigger] crate::graph::groups::same_claim(members, group, q, p) ==> q.status == EdgeStatus::Added
            &&& e.status == EdgeStatus::Removed <==> forall|q: EdgeView|
                b.edges.contains(q) && #[trigger] crate::graph::groups::same_claim(members, group, q, p) ==> q.status == EdgeStatus::Removed
            &&& e.evidence is None
        }),
{
    let e = image_of(b.edges, members, group, p);
    assert(crate::graph::groups::same_claim(members, group, p, p));
}

/// What stands for tests are the nodes that a test relationship starts from,
/// and what stands for a role are the nodes whose file has it.
pub proof fn lemma_who_is_grouped(b: BuilderView, e: EdgeView, role: FileClassification, id: Seq<char>, ids: Set<Seq<char>>)
    ensures
        b.edges.contains(e) && e.relation == Relation::TestedBy ==> testers(b).contains(e.from),
        testers(b).contains(id) ==> exists|t: EdgeView| #[trigger] b.edges.contains(t) && t.relation == Relation::TestedBy && t.from == id,
        classified(b, role).contains(id) <==> b.nodes.contains_key(id) && b.nodes[id].kind != NodeKind::Group && classification(b.nodes[id].path) == role,
        b.edges.contains(e) && ids.contains(e.from) ==> reaching(b, ids).contains(e.from),
        reaching(b, ids).contains(id) ==> ids.contains(id) && exists|t: EdgeView| #[trigger] b.edges.contains(t) && t.from == id,
{
}

/// Where all nodes fit, none is put into a group for want of room, and none is
/// omitted.
pub proof fn lemma_what_fits_stays(g: GroupedView, limits: Limits)
    requires
        is_finite(g.builder),
        g.builder.nodes.dom().len() <= limits.max_nodes,
    ensures
        overflow_collapsed(g, limits, 0) == g,
{
    let b = g.builder;
    let n = limits.max_nodes as nat;
    crate::laws::graph::lemma_all_nodes(b);
    assert(left_out(b, n) =~= Set::empty()) by {
        assert forall|id: Seq<char>| !#[trigger] left_out(b, n).contains(id) by {
            if b.nodes.contains_key(id) {
                assert(all_nodes(b).contains(b.nodes[id]));
                assert(kept_nodes(b, n).contains(b.nodes[id]));
                assert(has_node(kept_nodes(b, n), id));
            }
        }
    }
    let none = Set::<Seq<char>>::empty();
    lemma_finite_is_listed(none);
    assert(reaching(b, none) =~= none);
    assert(none.difference(none) =~= none);
    assert(none.difference(b.roots) =~= none);
    assert(listed(none).len() == 0);
}

} // verus!
