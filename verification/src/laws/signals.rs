//! When a graph is recommended, and for which reasons.

use vstd::prelude::*;

use crate::graph::cycles::{loop_members, loops, opens_loop};
use crate::graph::recommend::{
    area_signals, areas_spanned, change_signals, changed_levels, counted_text, cycle_signals, inward, is_recommended, level_of, loop_total, not_among,
    outward, reasons_for, root_signals, tally, touched, touched_inward, touched_outward, SignalView,
};
use crate::graph::{EdgeStatus, EdgeView, GraphView, NodeView};
use crate::laws::counting::{how_many, lemma_how_many_same};
use crate::laws::words::lemma_finite_is_listed;
use crate::collections::listed;
use crate::order::picked;
use crate::query::totals::area_of;
use crate::text::decimal;

verus! {

proof fn lemma_tally(edges: Seq<EdgeView>, keep: spec_fn(EdgeView) -> bool)
    ensures
        picked(edges, keep).len() == how_many(edges.len() as int, |i: int| keep(edges[i])),
    decreases edges.len(),
{
    let n = edges.len() as int;
    if n > 0 {
        let fewer = edges.drop_last();
        lemma_tally(fewer, keep);
        lemma_how_many_same(n - 1, |i: int| keep(edges[i]), |i: int| keep(fewer[i]));
    }
}

/// How many relationships end at what was asked for.
pub open spec fn arriving(graph: GraphView) -> nat {
    how_many(graph.edges.len() as int, |i: int| graph.roots.contains(graph.edges[i].to))
}

/// How many relationships start at what was asked for.
pub open spec fn leaving(graph: GraphView) -> nat {
    how_many(graph.edges.len() as int, |i: int| graph.roots.contains(graph.edges[i].from))
}

proof fn lemma_at_most(n: int, holds: spec_fn(int) -> bool)
    requires
        0 <= n,
    ensures
        how_many(n, holds) <= n,
    decreases n,
{
    if n > 0 {
        lemma_at_most(n - 1, holds);
    }
}

proof fn lemma_sides(graph: GraphView)
    requires
        graph.edges.len() <= u32::MAX,
    ensures
        tally(graph, inward(graph)) == arriving(graph),
        tally(graph, outward(graph)) == leaving(graph),
{
    let n = graph.edges.len() as int;
    lemma_tally(graph.edges, inward(graph));
    lemma_tally(graph.edges, outward(graph));
    lemma_how_many_same(n, |i: int| inward(graph)(graph.edges[i]), |i: int| graph.roots.contains(graph.edges[i].to));
    lemma_how_many_same(n, |i: int| outward(graph)(graph.edges[i]), |i: int| graph.roots.contains(graph.edges[i].from));
    lemma_at_most(n, |i: int| graph.roots.contains(graph.edges[i].to));
    lemma_at_most(n, |i: int| graph.roots.contains(graph.edges[i].from));
}

/// Whether reasons give a code with a value.
pub open spec fn cites(reasons: Seq<SignalView>, code: Seq<char>, value: int) -> bool {
    exists|i: int| 0 <= i < reasons.len() && (#[trigger] reasons[i]).code == code && reasons[i].value == value
}

/// Three relationships or more at one side of the root are a reason, and two or
/// more at both sides. Nothing else about the root is.
pub proof fn lemma_root_reasons(graph: GraphView)
    requires
        graph.edges.len() <= u32::MAX,
    ensures
        arriving(graph) >= 3 ==> cites(root_signals(graph), "many_callers"@, arriving(graph) as int),
        leaving(graph) >= 3 ==> cites(root_signals(graph), "many_dependencies"@, leaving(graph) as int),
        arriving(graph) >= 2 && leaving(graph) >= 2 ==> cites(
            root_signals(graph),
            "converges_and_branches"@,
            crate::laws::listing::least(arriving(graph) as int, leaving(graph) as int),
        ),
        root_signals(graph).len() == (if arriving(graph) >= 3 {
            1nat
        } else {
            0nat
        }) + (if leaving(graph) >= 3 {
            1nat
        } else {
            0nat
        }) + (if arriving(graph) >= 2 && leaving(graph) >= 2 {
            1nat
        } else {
            0nat
        }),
{
    lemma_sides(graph);
    let all = root_signals(graph);
    let first = if arriving(graph) >= 3 {
        1int
    } else {
        0int
    };
    let second = if leaving(graph) >= 3 {
        1int
    } else {
        0int
    };
    if arriving(graph) >= 3 {
        assert(all[0].code == "many_callers"@ && all[0].value == arriving(graph));
    }
    if leaving(graph) >= 3 {
        assert(all[first].code == "many_dependencies"@ && all[first].value == leaving(graph));
    }
    if arriving(graph) >= 2 && leaving(graph) >= 2 {
        assert(all[first + second].code == "converges_and_branches"@);
    }
}

/// Whether a relationship changed.
pub open spec fn changed(graph: GraphView, i: int) -> bool {
    0 <= i < graph.edges.len() && (graph.edges[i].status == EdgeStatus::Added || graph.edges[i].status == EdgeStatus::Removed)
}

proof fn lemma_some_picked(edges: Seq<EdgeView>, keep: spec_fn(EdgeView) -> bool)
    ensures
        picked(edges, keep).len() > 0 <==> exists|i: int| 0 <= i < edges.len() && keep(#[trigger] edges[i]),
    decreases edges.len(),
{
    let n = edges.len() as int;
    if n > 0 {
        let fewer = edges.drop_last();
        lemma_some_picked(fewer, keep);
        if keep(edges.last()) {
            assert(keep(edges[n - 1]));
        }
        if exists|i: int| 0 <= i < fewer.len() && keep(#[trigger] fewer[i]) {
            let i = choose|i: int| 0 <= i < fewer.len() && keep(#[trigger] fewer[i]);
            assert(keep(edges[i]));
        }
        if exists|i: int| 0 <= i < edges.len() && keep(#[trigger] edges[i]) {
            let i = choose|i: int| 0 <= i < edges.len() && keep(#[trigger] edges[i]);
            if i < n - 1 {
                assert(keep(fewer[i]));
            }
        }
    }
}

proof fn lemma_levels(graph: GraphView, edges: Seq<EdgeView>, level: u32)
    ensures
        changed_levels(graph, edges).no_duplicates(),
        changed_levels(graph, edges).contains(level) <==> exists|i: int|
            0 <= i < edges.len() && (#[trigger] edges[i]).status != EdgeStatus::Unchanged && level_of(graph.nodes, edges[i]) == level,
    decreases edges.len(),
{
    let n = edges.len() as int;
    if n > 0 {
        let fewer = edges.drop_last();
        let own = level_of(graph.nodes, edges.last());
        lemma_levels(graph, fewer, level);
        lemma_levels(graph, fewer, own);
        let before = changed_levels(graph, fewer);
        crate::collections::lemma_push_contains(before, own);
        let all = changed_levels(graph, edges);
        assert(all.contains(level) <==> before.contains(level) || (edges.last().status != EdgeStatus::Unchanged && own == level));
        assert(edges[n - 1] == edges.last());
        if before.contains(level) {
            let i = choose|i: int|
                0 <= i < fewer.len() && (#[trigger] fewer[i]).status != EdgeStatus::Unchanged && level_of(graph.nodes, fewer[i]) == level;
            assert(edges[i] == fewer[i]);
        }
        if exists|i: int| 0 <= i < edges.len() && (#[trigger] edges[i]).status != EdgeStatus::Unchanged && level_of(graph.nodes, edges[i]) == level {
            let i = choose|i: int|
                0 <= i < edges.len() && (#[trigger] edges[i]).status != EdgeStatus::Unchanged && level_of(graph.nodes, edges[i]) == level;
            if i < n - 1 {
                assert(fewer[i] == edges[i]);
            }
        }
    } else {
        assert(!changed_levels(graph, edges).contains(level));
    }
}

proof fn lemma_levels_bounded(graph: GraphView, edges: Seq<EdgeView>)
    ensures
        changed_levels(graph, edges).len() <= edges.len(),
    decreases edges.len(),
{
    if edges.len() > 0 {
        lemma_levels_bounded(graph, edges.drop_last());
    }
}

/// Changes at both sides of the root are a reason, and changes at two distances
/// from it. Nothing else about the changes is.
#[verifier::rlimit(60)]
#[verifier::spinoff_prover]
pub proof fn lemma_change_reasons(graph: GraphView)
    requires
        graph.edges.len() <= u32::MAX,
    ensures
        ({
            let both = (exists|i: int| #[trigger] changed(graph, i) && graph.roots.contains(graph.edges[i].to)) && (exists|i: int| #[trigger]
                changed(graph, i) && graph.roots.contains(graph.edges[i].from));
            let levels = exists|i: int, j: int| #[trigger]
                changed(graph, i) && #[trigger] changed(graph, j) && level_of(graph.nodes, graph.edges[i]) != level_of(graph.nodes, graph.edges[j]);
            &&& change_signals(graph).len() == (if both {
                1nat
            } else {
                0nat
            }) + (if levels {
                1nat
            } else {
                0nat
            })
            &&& both ==> change_signals(graph)[0].code == "changed_on_both_sides"@ && change_signals(graph)[0].value == how_many(
                graph.edges.len() as int,
                |i: int| changed(graph, i),
            )
            &&& levels ==> change_signals(graph).last().code == "multiple_levels"@ && change_signals(graph).last().value >= 2
        }),
{
    let edges = graph.edges;
    let n = edges.len() as int;
    lemma_some_picked(edges, touched_inward(graph));
    lemma_some_picked(edges, touched_outward(graph));
    lemma_tally(edges, touched());
    lemma_how_many_same(n, |i: int| touched()(edges[i]), |i: int| changed(graph, i));
    lemma_at_most(n, |i: int| changed(graph, i));
    lemma_levels_bounded(graph, edges);
    crate::order::lemma_picked(edges, touched_inward(graph));
    crate::order::lemma_picked(edges, touched_outward(graph));
    let both = (exists|i: int| #[trigger] changed(graph, i) && graph.roots.contains(graph.edges[i].to)) && (exists|i: int| #[trigger]
        changed(graph, i) && graph.roots.contains(graph.edges[i].from));
    if both {
        let i = choose|i: int| #[trigger] changed(graph, i) && graph.roots.contains(graph.edges[i].to);
        assert(touched_inward(graph)(edges[i]));
        let j = choose|i: int| #[trigger] changed(graph, i) && graph.roots.contains(graph.edges[i].from);
        assert(touched_outward(graph)(edges[j]));
    }
    if tally(graph, touched_inward(graph)) > 0 && tally(graph, touched_outward(graph)) > 0 {
        let i = choose|i: int| 0 <= i < edges.len() && touched_inward(graph)(#[trigger] edges[i]);
        assert(changed(graph, i));
        let j = choose|i: int| 0 <= i < edges.len() && touched_outward(graph)(#[trigger] edges[i]);
        assert(changed(graph, j));
    }
    let found = changed_levels(graph, edges);
    let levels = exists|i: int, j: int| #[trigger]
        changed(graph, i) && #[trigger] changed(graph, j) && level_of(graph.nodes, graph.edges[i]) != level_of(graph.nodes, graph.edges[j]);
    if levels {
        let (i, j) = choose|i: int, j: int| #[trigger]
            changed(graph, i) && #[trigger] changed(graph, j) && level_of(graph.nodes, graph.edges[i]) != level_of(graph.nodes, graph.edges[j]);
        lemma_levels(graph, edges, level_of(graph.nodes, edges[i]));
        lemma_levels(graph, edges, level_of(graph.nodes, edges[j]));
        assert(edges[i].status != EdgeStatus::Unchanged && edges[j].status != EdgeStatus::Unchanged);
        assert(found.contains(level_of(graph.nodes, edges[i])) && found.contains(level_of(graph.nodes, edges[j])));
        let a = choose|a: int| 0 <= a < found.len() && found[a] == level_of(graph.nodes, edges[i]);
        let b = choose|b: int| 0 <= b < found.len() && found[b] == level_of(graph.nodes, edges[j]);
        assert(a != b);
        assert(found.len() >= 2);
    }
    if found.len() >= 2 {
        lemma_levels(graph, edges, found[0]);
        lemma_levels(graph, edges, found[1]);
        assert(found.contains(found[0]) && found.contains(found[1]));
        let i = choose|i: int|
            0 <= i < edges.len() && (#[trigger] edges[i]).status != EdgeStatus::Unchanged && level_of(graph.nodes, edges[i]) == found[0];
        let j = choose|i: int|
            0 <= i < edges.len() && (#[trigger] edges[i]).status != EdgeStatus::Unchanged && level_of(graph.nodes, edges[i]) == found[1];
        assert(changed(graph, i) && changed(graph, j));
        assert(found[0] != found[1]);
    }
}

proof fn lemma_areas_finite(nodes: Seq<NodeView>)
    ensures
        areas_spanned(nodes).finite(),
        areas_spanned(nodes).len() <= nodes.len(),
{
    let names = nodes.map_values(|n: NodeView| area_of(n.path));
    assert(names.to_set() =~= areas_spanned(nodes)) by {
        assert forall|area: Seq<char>| #[trigger] names.to_set().contains(area) <==> areas_spanned(nodes).contains(area) by {
            if names.to_set().contains(area) {
                let i = choose|i: int| 0 <= i < names.len() && names[i] == area;
                assert(area_of(nodes[i].path) == area);
            }
            if areas_spanned(nodes).contains(area) {
                let i = choose|i: int| 0 <= i < nodes.len() && area_of((#[trigger] nodes[i]).path) == area;
                assert(names[i] == area);
            }
        }
    }
    vstd::seq_lib::seq_to_set_is_finite(names);
    names.lemma_cardinality_of_set();
}

/// Two nodes of different areas are a reason.
pub proof fn lemma_area_reasons(graph: GraphView)
    requires
        graph.nodes.len() <= u32::MAX,
    ensures
        ({
            let two = exists|i: int, j: int|
                0 <= i < graph.nodes.len() && 0 <= j < graph.nodes.len() && area_of((#[trigger] graph.nodes[i]).path) != area_of(
                    (#[trigger] graph.nodes[j]).path,
                );
            &&& two ==> area_signals(graph).len() == 1 && area_signals(graph)[0].code == "crosses_areas"@ && area_signals(graph)[0].value == areas_spanned(
                graph.nodes,
            ).len()
            &&& !two ==> area_signals(graph).len() == 0
        }),
{
    let nodes = graph.nodes;
    let areas = areas_spanned(nodes);
    lemma_areas_finite(nodes);
    lemma_finite_is_listed(areas);
    let names = listed(areas);
    if exists|i: int, j: int|
        0 <= i < nodes.len() && 0 <= j < nodes.len() && area_of((#[trigger] nodes[i]).path) != area_of((#[trigger] nodes[j]).path) {
        let (i, j) = choose|i: int, j: int|
            0 <= i < nodes.len() && 0 <= j < nodes.len() && area_of((#[trigger] nodes[i]).path) != area_of((#[trigger] nodes[j]).path);
        assert(areas.contains(area_of(nodes[i].path)) && areas.contains(area_of(nodes[j].path)));
        assert(names.to_set().contains(area_of(nodes[i].path)) && names.to_set().contains(area_of(nodes[j].path)));
        let a = choose|a: int| 0 <= a < names.len() && names[a] == area_of(nodes[i].path);
        let b = choose|b: int| 0 <= b < names.len() && names[b] == area_of(nodes[j].path);
        assert(a != b);
    }
    if names.len() >= 2 {
        assert(names.to_set().contains(names[0]) && names.to_set().contains(names[1])) by {
            assert(names.contains(names[0]) && names.contains(names[1]));
        }
        assert(areas.contains(names[0]) && areas.contains(names[1]));
        let i = choose|i: int| 0 <= i < nodes.len() && area_of((#[trigger] nodes[i]).path) == names[0];
        let j = choose|i: int| 0 <= i < nodes.len() && area_of((#[trigger] nodes[i]).path) == names[1];
        assert(names[0] != names[1]);
        assert(area_of(nodes[i].path) != area_of(nodes[j].path));
    }
}

proof fn lemma_members_finite(graph: GraphView, view: crate::graph::View, i: int)
    ensures
        loop_members(graph, view, i).finite(),
{
    let ids = graph.nodes.map_values(|n: NodeView| n.id);
    vstd::seq_lib::seq_to_set_is_finite(ids);
    assert(loop_members(graph, view, i).subset_of(ids.to_set())) by {
        assert forall|id: Seq<char>| #[trigger] loop_members(graph, view, i).contains(id) implies ids.to_set().contains(id) by {
            let k = choose|k: int| 0 <= k < graph.nodes.len() && (#[trigger] graph.nodes[k]).id == id;
            assert(ids[k] == id);
            assert(ids.contains(id));
        }
    }
    vstd::set_lib::lemma_set_subset_finite(ids.to_set(), loop_members(graph, view, i));
}

proof fn lemma_loop_total(graph: GraphView, view: crate::graph::View, n: int)
    requires
        0 <= n <= graph.nodes.len(),
    ensures
        loop_total(crate::graph::cycles::loops_upto(graph, view, n)) > 0 <==> exists|i: int| 0 <= i < n && #[trigger] opens_loop(graph, view, i),
    decreases n,
{
    if n > 0 {
        lemma_loop_total(graph, view, n - 1);
        if opens_loop(graph, view, n - 1) {
            let before = crate::graph::cycles::loops_upto(graph, view, n - 1);
            let members = loop_members(graph, view, n - 1);
            assert(before.push(members).drop_last() =~= before);
            lemma_members_finite(graph, view, n - 1);
            lemma_finite_is_listed(members);
            let own = graph.nodes[n - 1].id;
            assert(crate::graph::is_node(graph, own));
            assert(members.contains(own));
            assert(listed(members).to_set().contains(own));
            assert(listed(members).len() > 0);
        }
    }
}

/// A loop is a reason, and a loop that the target has and the base has not is
/// another.
pub proof fn lemma_cycle_reasons(graph: GraphView)
    ensures
        ({
            let looped = exists|i: int| 0 <= i < graph.nodes.len() && #[trigger] opens_loop(graph, crate::graph::View::Delta, i);
            let closed = exists|k: int|
                0 <= k < loops(graph, crate::graph::View::Target).len() && !loops(graph, crate::graph::View::Base).contains(
                    #[trigger] loops(graph, crate::graph::View::Target)[k],
                );
            &&& cycle_signals(graph).len() == (if looped {
                1nat
            } else {
                0nat
            }) + (if closed {
                1nat
            } else {
                0nat
            })
            &&& looped ==> cycle_signals(graph)[0].code == "cycle"@
            &&& closed ==> cycle_signals(graph).last().code == "cycle_introduced"@
        }),
{
    lemma_loop_total(graph, crate::graph::View::Delta, graph.nodes.len() as int);
    let target = loops(graph, crate::graph::View::Target);
    let base = loops(graph, crate::graph::View::Base);
    let keep = not_among(base);
    crate::order::lemma_picked(target, keep);
    let new = picked(target, keep);
    let closed = exists|k: int| 0 <= k < target.len() && !base.contains(#[trigger] target[k]);
    if closed {
        let k = choose|k: int| 0 <= k < target.len() && !base.contains(#[trigger] target[k]);
        assert(target.contains(target[k]) && keep(target[k]));
        assert(new.contains(target[k]));
        assert(new.len() > 0);
    }
    if new.len() > 0 {
        assert(new.contains(new[0]));
        assert(target.contains(new[0]) && keep(new[0]));
        let k = choose|k: int| 0 <= k < target.len() && target[k] == new[0];
        assert(!base.contains(target[k]));
    }
}

/// A graph of three nodes or fewer, of whose relationships no two start or end
/// at one node, is not recommended, and the reason says so. Any other is
/// recommended where some reason for it is found.
pub proof fn lemma_recommended_unless_small(graph: GraphView)
    ensures
        ({
            let branched = exists|i: int, j: int|
                0 <= i < j < graph.edges.len() && ((#[trigger] graph.edges[i]).from == (#[trigger] graph.edges[j]).from || graph.edges[i].to
                    == graph.edges[j].to);
            let small = graph.nodes.len() <= 3 && !branched;
            &&& small ==> !is_recommended(graph) && reasons_for(graph).len() == 1 && reasons_for(graph)[0].code == "linear_and_small"@
                && reasons_for(graph)[0].value == graph.nodes.len()
            &&& !small ==> reasons_for(graph) == root_signals(graph) + area_signals(graph) + cycle_signals(graph) + change_signals(graph)
            &&& !small ==> (is_recommended(graph) <==> root_signals(graph).len() > 0 || area_signals(graph).len() > 0 || cycle_signals(graph).len() > 0
                || change_signals(graph).len() > 0)
        }),
{
}

/// A count is written with its noun, in the plural unless it is one.
pub proof fn lemma_counts_are_worded(value: u32, noun: Seq<char>)
    ensures
        value == 1 ==> counted_text(value, noun) == "1 "@ + noun,
        value != 1 ==> counted_text(value, noun) == decimal(value as nat) + " "@ + noun + "s"@,
{
}

} // verus!
