//! Loops in a graph.

use vstd::prelude::*;

use crate::analysis::saturated;
use crate::collections::{listed, TextSet};
use crate::graph::reach::{hops_along, walk_along, within, Reached};
use crate::graph::{count, edge_views, node_views, shows, Direction, Edge, EdgeView, Graph, GraphView};
use crate::text::{same_text, texts};

verus! {

/// Nodes that all reach each other along edges.
#[derive(Debug, PartialEq, Eq)]
pub struct Cycle {
    /// The identities of the nodes, in ascending order.
    pub members: Vec<String>,
}

impl Cycle {
    /// How many nodes the loop runs through.
    #[must_use]
    pub fn size(&self) -> (r: u32)
        ensures
            r == saturated(self.members@.len()),
    {
        count(self.members.len())
    }
}

/// Whether an edge that a view shows leads from one identity to another.
pub open spec fn edge_leads(edges: Seq<EdgeView>, view: crate::graph::View, a: Seq<char>, b: Seq<char>) -> bool {
    exists|i: int| 0 <= i < edges.len() && shows(view, (#[trigger] edges[i]).status) && edges[i].from == a && edges[i].to == b
}

/// The hops along the edges that a view shows.
pub open spec fn edge_hop(edges: Seq<EdgeView>, view: crate::graph::View) -> spec_fn(Seq<char>, Seq<char>) -> bool {
    |a: Seq<char>, b: Seq<char>| edge_leads(edges, view, a, b)
}

/// What an identity reaches along at least one edge. No way needs more edges
/// than there are.
pub open spec fn beyond(edges: Seq<EdgeView>, view: crate::graph::View, a: Seq<char>) -> Set<Seq<char>> {
    within(
        Set::new(|b: Seq<char>| edge_leads(edges, view, a, b)),
        edge_hop(edges, view),
        saturated(edges.len()) as nat,
    )
}

/// The loop that an identity is on: what it reaches that reaches it.
pub open spec fn loop_of(edges: Seq<EdgeView>, view: crate::graph::View, a: Seq<char>) -> Set<Seq<char>> {
    Set::new(|b: Seq<char>| beyond(edges, view, a).contains(b) && beyond(edges, view, b).contains(a))
}

/// Whether a node is the first of a graph that is on its loop.
pub open spec fn opens_loop(graph: GraphView, view: crate::graph::View, i: int) -> bool {
    &&& loop_of(graph.edges, view, graph.nodes[i].id).contains(graph.nodes[i].id)
    &&& forall|j: int| 0 <= j < i ==> !loop_of(graph.edges, view, graph.nodes[i].id).contains((#[trigger] graph.nodes[j]).id)
}

/// The members of the loop of a node, as far as they are nodes of the graph.
pub open spec fn loop_members(graph: GraphView, view: crate::graph::View, i: int) -> Set<Seq<char>> {
    loop_of(graph.edges, view, graph.nodes[i].id).filter(|id: Seq<char>| crate::graph::is_node(graph, id))
}

/// The loops of a graph in a view, each with its members, in the order of their
/// first nodes.
pub open spec fn loops_upto(graph: GraphView, view: crate::graph::View, n: int) -> Seq<Set<Seq<char>>>
    decreases n,
{
    if n <= 0 {
        Seq::empty()
    } else if opens_loop(graph, view, n - 1) {
        loops_upto(graph, view, n - 1).push(loop_members(graph, view, n - 1))
    } else {
        loops_upto(graph, view, n - 1)
    }
}

/// The loops of a graph in a view.
pub open spec fn loops(graph: GraphView, view: crate::graph::View) -> Seq<Set<Seq<char>>> {
    loops_upto(graph, view, graph.nodes.len() as int)
}

/// Whether cycles list the members of loops.
pub open spec fn are_loops(cycles: Seq<Cycle>, expected: Seq<Set<Seq<char>>>) -> bool {
    &&& cycles.len() == expected.len()
    &&& forall|i: int| 0 <= i < cycles.len() ==> texts((#[trigger] cycles[i]).members@) == listed(expected[i]) && texts(
        cycles[i].members@,
    ).to_set() == expected[i] && crate::collections::ascending(texts(cycles[i].members@))
}

/// What an edge that a view shows leads to from an identity.
fn successors(edges: &Vec<Edge>, view: crate::graph::View, id: &str) -> (r: Vec<String>)
    ensures
        forall|b: Seq<char>| #[trigger] texts(r@).contains(b) <==> edge_leads(edge_views(edges@), view, id@, b),
{
    let ghost views = edge_views(edges@);
    let mut out: Vec<String> = Vec::new();
    let mut i: usize = 0;
    assert(texts(out@) =~= Seq::<Seq<char>>::empty());
    while i < edges.len()
        invariant
            i <= edges.len(),
            views == edge_views(edges@),
            forall|b: Seq<char>| #[trigger]
                texts(out@).contains(b) <==> exists|k: int|
                    0 <= k < i && shows(view, (#[trigger] views[k]).status) && views[k].from == id@ && views[k].to == b,
        decreases edges.len() - i,
    {
        let ghost held = texts(out@);
        assert(views[i as int] == edges@[i as int]@);
        let found = view.includes(edges[i].status) && same_text(edges[i].from.as_str(), id);
        if found {
            out.push(edges[i].to.clone());
            proof {
                assert(texts(out@) =~= held.push(views[i as int].to));
                crate::collections::lemma_push_contains(held, views[i as int].to);
            }
        }
        proof {
            assert forall|b: Seq<char>| #[trigger] texts(out@).contains(b) <==> exists|k: int|
                0 <= k < i + 1 && shows(view, (#[trigger] views[k]).status) && views[k].from == id@ && views[k].to == b by {
                if held.contains(b) {
                    let k = choose|k: int| 0 <= k < i && shows(view, (#[trigger] views[k]).status) && views[k].from == id@ && views[k].to == b;
                    assert(views[k].to == b);
                }
                if found && b == views[i as int].to {
                    assert(views[i as int].to == b);
                }
            }
        }
        i = i + 1;
    }
    out
}

/// What an identity reaches along at least one edge.
fn reach_from(edges: &Vec<Edge>, view: crate::graph::View, id: &str) -> (r: Reached)
    ensures
        forall|b: Seq<char>| #[trigger] r@.contains_key(b) <==> beyond(edge_views(edges@), view, id@).contains(b),
{
    let ghost views = edge_views(edges@);
    let start = successors(edges, view, id);
    let neighbors = |from: &str, _way: Direction| -> (out: Vec<String>)
        ensures
            forall|b: Seq<char>| #[trigger] texts(out@).contains(b) <==> edge_leads(edge_views(edges@), view, from@, b),
    {
        successors(edges, view, from)
    };
    let ghost way = |d: Direction, a: Seq<char>, b: Seq<char>| edge_leads(views, view, a, b);
    let reached = walk_along(&start, Direction::Downstream, count(edges.len()), neighbors, Ghost(way));
    proof {
        assert(hops_along(way, Direction::Downstream) =~= edge_hop(views, view));
        assert(texts(start@).to_set() =~= Set::new(|b: Seq<char>| edge_leads(views, view, id@, b)));
    }
    reached
}

/// What each node of a graph reaches.
fn reaches(graph: &Graph, view: crate::graph::View) -> (r: Vec<Reached>)
    ensures
        r@.len() == graph@.nodes.len(),
        forall|i: int, b: Seq<char>|
            0 <= i < r@.len() ==> (#[trigger] r@[i]@.contains_key(b) <==> beyond(graph@.edges, view, graph@.nodes[i].id).contains(b)),
{
    let nodes = graph.nodes();
    let edges = graph.edges();
    let ghost views = graph@.nodes;
    let mut out: Vec<Reached> = Vec::new();
    let mut i: usize = 0;
    while i < nodes.len()
        invariant
            i <= nodes.len(),
            views == node_views(nodes@),
            edge_views(edges@) == graph@.edges,
            out@.len() == i,
            forall|k: int, b: Seq<char>|
                0 <= k < i ==> (#[trigger] out@[k]@.contains_key(b) <==> beyond(graph@.edges, view, views[k].id).contains(b)),
        decreases nodes.len() - i,
    {
        assert(views[i as int] == nodes@[i as int]@);
        out.push(reach_from(edges, view, nodes[i].id.as_str()));
        i = i + 1;
    }
    out
}

/// The loops of a graph along the edges that a view shows.
fn find_loops(graph: &Graph, view: crate::graph::View) -> (r: Vec<Cycle>)
    ensures
        are_loops(r@, loops(graph@, view)),
{
    let reach = reaches(graph, view);
    let nodes = graph.nodes();
    let ghost g = graph@;
    let mut out: Vec<Cycle> = Vec::new();
    let mut i: usize = 0;
    while i < nodes.len()
        invariant
            i <= nodes.len(),
            g == graph@,
            g.nodes == node_views(nodes@),
            reach@.len() == nodes.len(),
            forall|k: int, b: Seq<char>|
                0 <= k < reach@.len() ==> (#[trigger] reach@[k]@.contains_key(b) <==> beyond(g.edges, view, g.nodes[k].id).contains(b)),
            are_loops(out@, loops_upto(g, view, i as int)),
        decreases nodes.len() - i,
    {
        let ghost here = g.nodes[i as int].id;
        let ghost around = loop_of(g.edges, view, here);
        assert(g.nodes[i as int] == nodes@[i as int]@);
        let mut members = TextSet::new();
        let mut first = reach[i].contains_key(nodes[i].id.as_str());
        let mut j: usize = 0;
        while j < nodes.len()
            invariant
                j <= nodes.len(),
                i < nodes.len(),
                g.nodes == node_views(nodes@),
                here == g.nodes[i as int].id,
                here == nodes@[i as int].id@,
                around == loop_of(g.edges, view, here),
                reach@.len() == nodes.len(),
                forall|k: int, b: Seq<char>|
                    0 <= k < reach@.len() ==> (#[trigger] reach@[k]@.contains_key(b) <==> beyond(g.edges, view, g.nodes[k].id).contains(b)),
                first <==> around.contains(here) && forall|k: int| 0 <= k < i && k < j ==> !around.contains((#[trigger] g.nodes[k]).id),
                forall|id: Seq<char>| #[trigger]
                    members@.contains(id) <==> around.contains(id) && exists|k: int| 0 <= k < j && (#[trigger] g.nodes[k]).id == id,
            decreases nodes.len() - j,
        {
            let ghost held = members@;
            let ghost there = g.nodes[j as int].id;
            assert(g.nodes[j as int] == nodes@[j as int]@);
            assert(around.contains(there) <==> reach@[i as int]@.contains_key(there) && reach@[j as int]@.contains_key(here));
            if reach[i].contains_key(nodes[j].id.as_str()) && reach[j].contains_key(nodes[i].id.as_str()) {
                members.insert(nodes[j].id.clone());
                if j < i {
                    assert(around.contains(g.nodes[j as int].id));
                    first = false;
                }
            }
            proof {
                assert forall|id: Seq<char>| #[trigger] members@.contains(id) <==> around.contains(id) && exists|k: int|
                    0 <= k < j + 1 && (#[trigger] g.nodes[k]).id == id by {
                    if held.contains(id) {
                        let k = choose|k: int| 0 <= k < j && (#[trigger] g.nodes[k]).id == id;
                        assert(g.nodes[k].id == id);
                    }
                    if id == there {
                        assert(g.nodes[j as int].id == id);
                    }
                }
            }
            j = j + 1;
        }
        assert(first == opens_loop(g, view, i as int));
        if first {
            let ghost expected = loop_members(g, view, i as int);
            proof {
                assert(members@ =~= expected) by {
                    assert forall|id: Seq<char>| members@.contains(id) <==> expected.contains(id) by {
                        assert(crate::graph::is_node(g, id) <==> exists|k: int| 0 <= k < nodes@.len() && (#[trigger] g.nodes[k]).id == id);
                    }
                }
            }
            let list = members.to_vec();
            proof {
                crate::collections::lemma_listed(members.keys());
            }
            let ghost so_far = out@;
            out.push(Cycle { members: list });
            assert(are_loops(out@, loops_upto(g, view, i as int).push(expected))) by {
                assert forall|k: int| 0 <= k < out@.len() implies texts((#[trigger] out@[k]).members@) == listed(
                    loops_upto(g, view, i as int).push(expected)[k],
                ) && texts(out@[k].members@).to_set() == loops_upto(g, view, i as int).push(expected)[k]
                    && crate::collections::ascending(texts(out@[k].members@)) by {
                    if k < so_far.len() {
                        assert(out@[k] == so_far[k]);
                    }
                }
            }
        }
        i = i + 1;
    }
    out
}

impl Graph {
    /// The loops of the graph, whichever revision closes them.
    #[must_use]
    pub fn cycles(&self) -> (r: Vec<Cycle>)
        ensures
            are_loops(r@, loops(self@, crate::graph::View::Delta)),
    {
        find_loops(self, crate::graph::View::Delta)
    }

    /// The loops along the edges that a view shows.
    #[must_use]
    pub fn cycles_in(&self, view: crate::graph::View) -> (r: Vec<Cycle>)
        ensures
            are_loops(r@, loops(self@, view)),
    {
        find_loops(self, view)
    }
}

/// The identities that edges lead to.
spec fn ends(edges: Seq<EdgeView>) -> Seq<Seq<char>> {
    edges.map_values(|e: EdgeView| e.to)
}

spec fn starts_at(edges: Seq<EdgeView>, view: crate::graph::View, a: Seq<char>) -> Set<Seq<char>> {
    Set::new(|b: Seq<char>| edge_leads(edges, view, a, b))
}

proof fn lemma_reach_is_ends(edges: Seq<EdgeView>, view: crate::graph::View, a: Seq<char>, n: nat)
    ensures
        within(starts_at(edges, view, a), edge_hop(edges, view), n).subset_of(ends(edges).to_set()),
    decreases n,
{
    let hop = edge_hop(edges, view);
    let all = ends(edges);
    assert forall|x: Seq<char>, b: Seq<char>| #[trigger] edge_leads(edges, view, x, b) implies all.to_set().contains(b) by {
        let i = choose|i: int| 0 <= i < edges.len() && shows(view, (#[trigger] edges[i]).status) && edges[i].from == x && edges[i].to == b;
        assert(all[i] == b);
        assert(all.contains(b));
    }
    if n > 0 {
        lemma_reach_is_ends(edges, view, a, (n - 1) as nat);
        let nearer = within(starts_at(edges, view, a), hop, (n - 1) as nat);
        assert forall|b: Seq<char>| within(starts_at(edges, view, a), hop, n).contains(b) implies all.to_set().contains(b) by {
            if !nearer.contains(b) {
                let x = choose|x: Seq<char>| nearer.contains(x) && #[trigger] hop(x, b);
                assert(edge_leads(edges, view, x, b));
            }
        }
    }
}

proof fn lemma_reach_grows(edges: Seq<EdgeView>, view: crate::graph::View, a: Seq<char>, n: nat)
    requires
        forall|m: nat| m < n ==> #[trigger] within(starts_at(edges, view, a), edge_hop(edges, view), m + 1) != within(
            starts_at(edges, view, a),
            edge_hop(edges, view),
            m,
        ),
    ensures
        within(starts_at(edges, view, a), edge_hop(edges, view), n).finite(),
        within(starts_at(edges, view, a), edge_hop(edges, view), n).len() >= n,
    decreases n,
{
    let start = starts_at(edges, view, a);
    let hop = edge_hop(edges, view);
    lemma_reach_is_ends(edges, view, a, n);
    let now = within(start, hop, n);
    vstd::set_lib::lemma_set_subset_finite(ends(edges).to_set(), now);
    if n > 0 {
        let m = (n - 1) as nat;
        let before = within(start, hop, m);
        assert forall|k: nat| k < m implies #[trigger] within(start, hop, k + 1) != within(start, hop, k) by {}
        lemma_reach_grows(edges, view, a, m);
        assert(within(start, hop, m + 1) != before);
        crate::graph::reach::lemma_within_grows(start, hop, m, n);
        if now.subset_of(before) {
            assert(now =~= before);
        }
        let extra = choose|x: Seq<char>| now.contains(x) && !before.contains(x);
        assert(before.insert(extra).subset_of(now));
        vstd::set_lib::lemma_len_subset(before.insert(extra), now);
    }
}

/// However long the way, what it reaches is found: no way along edges leads
/// further than one of as many edges as there are.
pub proof fn lemma_no_way_is_too_long(edges: Seq<EdgeView>, view: crate::graph::View, a: Seq<char>, n: nat)
    requires
        edges.len() <= u32::MAX,
    ensures
        within(Set::new(|b: Seq<char>| edge_leads(edges, view, a, b)), edge_hop(edges, view), n).subset_of(beyond(edges, view, a)),
{
    let start = starts_at(edges, view, a);
    let hop = edge_hop(edges, view);
    let bound = edges.len();
    assert(start =~= Set::new(|b: Seq<char>| edge_leads(edges, view, a, b)));
    if n <= bound {
        crate::graph::reach::lemma_within_grows(start, hop, n, bound);
    } else if exists|m: nat| m <= bound && #[trigger] within(start, hop, m + 1) == within(start, hop, m) {
        let m = choose|m: nat| m <= bound && #[trigger] within(start, hop, m + 1) == within(start, hop, m);
        crate::graph::reach::lemma_settles(start, hop, m, n);
        crate::graph::reach::lemma_settles(start, hop, m, bound);
    } else {
        lemma_reach_grows(edges, view, a, bound + 1);
        lemma_reach_is_ends(edges, view, a, bound + 1);
        ends(edges).lemma_cardinality_of_set();
        vstd::set_lib::lemma_len_subset(within(start, hop, bound + 1), ends(edges).to_set());
    }
}

} // verus!
