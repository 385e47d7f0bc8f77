//! Whether a graph is worth drawing, and why.
//!
//! A diagram earns its place when a reader would otherwise have to reconstruct
//! a shape from a list. Where the line falls is decided by fixed thresholds
//! over quantities the graph already carries, and every threshold that is met
//! contributes one [`Signal`]: a list of reasons can be checked against the
//! delivered graph, where a score could not.
//!
//! Signals are evaluated over the delivered graph, which is the graph the
//! reader actually receives, and the reasons come out in one fixed order.
//!
//! One negative signal overrides the positive ones: a graph of fewer than four
//! nodes that does not branch is a shape a dependency diff states as exactly as
//! a picture would.

use vstd::prelude::*;

use crate::analysis::saturated;
use crate::collections::{lemma_listed, listed, TextSet};
use crate::graph::cycles::{are_loops, loops, Cycle};
use crate::graph::{count, edge_views, node_views, node_with, EdgeStatus, EdgeView, Graph, GraphView, NodeView};
use crate::order::picked;
use crate::query::totals::{area_of, change_area, more};
use crate::text::{decimal, join2, join3, join4, number_text, same_text, texts};

verus! {

/// Relationships on one side of the root that make that side worth showing.
pub const MANY: u32 = 3;

/// Relationships on each side of the root that make it a meeting point and a
/// fork at once.
pub const BOTH_SIDES: u32 = 2;

/// Change areas a graph must span to describe a change rather than a file.
pub const AREAS: u32 = 2;

/// Node count at which a graph is no longer small enough to be a list.
pub const SMALL_GRAPH_NODES: u32 = 4;

/// Distinct hop levels changed relationships must sit at for the dependency
/// diff to stop reading as one neighborhood.
pub const LEVELS: u32 = 2;

/// One criterion's contribution, in structured form.
#[derive(Debug, Clone, PartialEq, Eq)]
pub struct Signal {
    /// Stable `snake_case` identifier of the criterion that produced this
    /// signal.
    pub code: &'static str,
    /// The criterion's explanation, with the values it measured.
    pub message: String,
    /// The measured quantity behind the signal.
    pub value: u32,
}

/// A signal by what it holds.
#[verifier::ext_equal]
pub struct SignalView {
    pub code: Seq<char>,
    pub message: Seq<char>,
    pub value: u32,
}

impl vstd::view::View for Signal {
    type V = SignalView;

    open spec fn view(&self) -> SignalView {
        SignalView { code: self.code@, message: self.message@, value: self.value }
    }
}

/// Signals by what they hold.
pub open spec fn signal_views(signals: Seq<Signal>) -> Seq<SignalView> {
    Seq::new(signals.len(), |i: int| signals[i]@)
}

/// What to do with one delivered graph, and the signals that decided it.
#[derive(Debug, Clone, PartialEq, Eq)]
pub struct Recommendation {
    /// Whether a diagram is worth rendering.
    pub recommended: bool,
    /// Signals in the fixed criterion order, or exactly the negative one when
    /// it applies.
    pub reasons: Vec<Signal>,
}

/// A count with its noun, in the plural unless it is one.
pub open spec fn counted_text(value: u32, noun: Seq<char>) -> Seq<char> {
    if value == 1 {
        "1 "@ + noun
    } else {
        decimal(value as nat) + " "@ + noun + "s"@
    }
}

fn counted(value: u32, noun: &str) -> (r: String)
    ensures
        r@ == counted_text(value, noun@),
{
    if value == 1 {
        join2("1 ", noun)
    } else {
        join4(number_text(value as u64).as_str(), " ", noun, "s")
    }
}

/// Whether a relationship changed.
pub open spec fn is_touched(edge: EdgeView) -> bool {
    edge.status != EdgeStatus::Unchanged
}

/// The condition of pointing at a root.
pub open spec fn inward(graph: GraphView) -> spec_fn(EdgeView) -> bool {
    |edge: EdgeView| graph.roots.contains(edge.to)
}

/// The condition of leaving a root.
pub open spec fn outward(graph: GraphView) -> spec_fn(EdgeView) -> bool {
    |edge: EdgeView| graph.roots.contains(edge.from)
}

/// The condition of having changed.
pub open spec fn touched() -> spec_fn(EdgeView) -> bool {
    |edge: EdgeView| is_touched(edge)
}

/// The condition of pointing at a root and having changed.
pub open spec fn touched_inward(graph: GraphView) -> spec_fn(EdgeView) -> bool {
    |edge: EdgeView| is_touched(edge) && graph.roots.contains(edge.to)
}

/// The condition of leaving a root and having changed.
pub open spec fn touched_outward(graph: GraphView) -> spec_fn(EdgeView) -> bool {
    |edge: EdgeView| is_touched(edge) && graph.roots.contains(edge.from)
}

/// How many edges satisfy a condition.
pub open spec fn tally(graph: GraphView, keep: spec_fn(EdgeView) -> bool) -> u32 {
    saturated(picked(graph.edges, keep).len())
}

/// Whether any node forks or merges: two relationships leave it, or two enter
/// it.
pub open spec fn is_branched(edges: Seq<EdgeView>) -> bool {
    exists|i: int, j: int| 0 <= i < j < edges.len() && ((#[trigger] edges[i]).from == (#[trigger] edges[j]).from || edges[i].to == edges[j].to)
}

fn branches(graph: &Graph) -> (r: bool)
    ensures
        r == is_branched(graph@.edges),
{
    let edges = graph.edges();
    let ghost views = graph@.edges;
    let mut sources = TextSet::new();
    let mut targets = TextSet::new();
    let mut i: usize = 0;
    while i < edges.len()
        invariant
            i <= edges.len(),
            views == edge_views(edges@),
            views == graph@.edges,
            forall|id: Seq<char>| #[trigger] sources@.contains(id) <==> exists|k: int| 0 <= k < i && (#[trigger] views[k]).from == id,
            forall|id: Seq<char>| #[trigger] targets@.contains(id) <==> exists|k: int| 0 <= k < i && (#[trigger] views[k]).to == id,
            forall|a: int, b: int| 0 <= a < b < i ==> (#[trigger] views[a]).from != (#[trigger] views[b]).from && views[a].to != views[b].to,
        decreases edges.len() - i,
    {
        let ghost here = views[i as int];
        assert(here == edges@[i as int]@);
        let ghost old_sources = sources@;
        let ghost old_targets = targets@;
        if sources.contains(edges[i].from.as_str()) {
            let ghost k = choose|k: int| 0 <= k < i && (#[trigger] views[k]).from == here.from;
            assert(views[k].from == views[i as int].from);
            return true;
        }
        if targets.contains(edges[i].to.as_str()) {
            let ghost k = choose|k: int| 0 <= k < i && (#[trigger] views[k]).to == here.to;
            assert(views[k].to == views[i as int].to);
            return true;
        }
        sources.insert(edges[i].from.clone());
        targets.insert(edges[i].to.clone());
        proof {
            assert forall|id: Seq<char>| #[trigger] sources@.contains(id) <==> exists|k: int| 0 <= k < i + 1 && (#[trigger] views[k]).from == id by {
                if old_sources.contains(id) {
                    let k = choose|k: int| 0 <= k < i && (#[trigger] views[k]).from == id;
                    assert(views[k].from == id);
                }
                if id == here.from {
                    assert(views[i as int].from == id);
                }
            }
            assert forall|id: Seq<char>| #[trigger] targets@.contains(id) <==> exists|k: int| 0 <= k < i + 1 && (#[trigger] views[k]).to == id by {
                if old_targets.contains(id) {
                    let k = choose|k: int| 0 <= k < i && (#[trigger] views[k]).to == id;
                    assert(views[k].to == id);
                }
                if id == here.to {
                    assert(views[i as int].to == id);
                }
            }
            assert forall|a: int, b: int| 0 <= a < b < i + 1 implies (#[trigger] views[a]).from != (#[trigger] views[b]).from && views[a].to
                != views[b].to by {
                if b == i {
                    if views[a].from == here.from {
                        assert(old_sources.contains(here.from));
                    }
                    if views[a].to == here.to {
                        assert(old_targets.contains(here.to));
                    }
                }
            }
        }
        i = i + 1;
    }
    false
}

/// The hops from the root to an identity.
pub open spec fn depth_of(nodes: Seq<NodeView>, id: Seq<char>) -> u32 {
    match node_with(nodes, id) {
        Some(node) => node.depth,
        None => 0,
    }
}

/// The level a relationship sits at: the deeper of its two ends.
pub open spec fn level_of(nodes: Seq<NodeView>, edge: EdgeView) -> u32 {
    let from = depth_of(nodes, edge.from);
    let to = depth_of(nodes, edge.to);
    if from > to {
        from
    } else {
        to
    }
}

/// The distinct levels that changed relationships sit at, each once, in the
/// order of edges.
pub open spec fn changed_levels(graph: GraphView, edges: Seq<EdgeView>) -> Seq<u32>
    decreases edges.len(),
{
    if edges.len() == 0 {
        Seq::empty()
    } else {
        let before = changed_levels(graph, edges.drop_last());
        let level = level_of(graph.nodes, edges.last());
        if is_touched(edges.last()) && !before.contains(level) {
            before.push(level)
        } else {
            before
        }
    }
}

fn depth(graph: &Graph, id: &str) -> (r: u32)
    ensures
        r == depth_of(graph@.nodes, id@),
{
    match graph.node(id) {
        Some(node) => node.depth,
        None => 0,
    }
}

fn holds_number(items: &Vec<u32>, wanted: u32) -> (r: bool)
    ensures
        r == items@.contains(wanted),
{
    let mut i: usize = 0;
    while i < items.len()
        invariant
            i <= items.len(),
            forall|k: int| 0 <= k < i ==> #[trigger] items@[k] != wanted,
        decreases items.len() - i,
    {
        if items[i] == wanted {
            return true;
        }
        i = i + 1;
    }
    false
}

fn count_levels(graph: &Graph) -> (r: u32)
    ensures
        r == saturated(changed_levels(graph@, graph@.edges).len()),
{
    let edges = graph.edges();
    let ghost views = graph@.edges;
    let mut levels: Vec<u32> = Vec::new();
    let mut i: usize = 0;
    assert(views.take(0) =~= Seq::<EdgeView>::empty());
    while i < edges.len()
        invariant
            i <= edges.len(),
            views == edge_views(edges@),
            levels@ == changed_levels(graph@, views.take(i as int)),
        decreases edges.len() - i,
    {
        let edge = &edges[i];
        assert(views.take(i + 1).drop_last() =~= views.take(i as int));
        assert(views.take(i + 1).last() == edge@);
        if edge.status != EdgeStatus::Unchanged {
            let from = depth(graph, edge.from.as_str());
            let to = depth(graph, edge.to.as_str());
            let level: u32 = if from > to {
                from
            } else {
                to
            };
            if !holds_number(&levels, level) {
                levels.push(level);
            }
        }
        i = i + 1;
    }
    assert(views.take(i as int) =~= views);
    count(levels.len())
}

/// The areas that the nodes of a graph lie in.
pub open spec fn areas_spanned(nodes: Seq<NodeView>) -> Set<Seq<char>> {
    Set::new(|area: Seq<char>| exists|i: int| 0 <= i < nodes.len() && area_of((#[trigger] nodes[i]).path) == area)
}

fn area_count(graph: &Graph) -> (r: u32)
    ensures
        r == saturated(listed(areas_spanned(graph@.nodes)).len()),
{
    let nodes = graph.nodes();
    let ghost views = graph@.nodes;
    let mut areas = TextSet::new();
    let mut i: usize = 0;
    while i < nodes.len()
        invariant
            i <= nodes.len(),
            views == node_views(nodes@),
            forall|area: Seq<char>| #[trigger] areas@.contains(area) <==> exists|k: int| 0 <= k < i && area_of((#[trigger] views[k]).path) == area,
        decreases nodes.len() - i,
    {
        let ghost held = areas@;
        assert(views[i as int] == nodes@[i as int]@);
        areas.insert(change_area(nodes[i].path.as_str()));
        proof {
            assert forall|area: Seq<char>| #[trigger] areas@.contains(area) <==> exists|k: int|
                0 <= k < i + 1 && area_of((#[trigger] views[k]).path) == area by {
                if held.contains(area) {
                    let k = choose|k: int| 0 <= k < i && area_of((#[trigger] views[k]).path) == area;
                    assert(area_of(views[k].path) == area);
                }
                if area == area_of(views[i as int].path) {
                    assert(area_of(views[i as int].path) == area);
                }
            }
        }
        i = i + 1;
    }
    let n: usize = areas.len();
    proof {
        lemma_listed(areas.keys());
        assert(areas.keys().to_set() =~= areas_spanned(views));
    }
    count(n)
}

/// How many nodes loops run through, all loops together.
pub open spec fn loop_total(all: Seq<Set<Seq<char>>>) -> nat
    decreases all.len(),
{
    if all.len() == 0 {
        0
    } else {
        loop_total(all.drop_last()) + listed(all.last()).len()
    }
}

fn total_size(cycles: &Vec<Cycle>, Ghost(all): Ghost<Seq<Set<Seq<char>>>>) -> (r: u32)
    requires
        are_loops(cycles@, all),
    ensures
        r == saturated(loop_total(all)),
{
    let mut total: u32 = 0;
    let mut i: usize = 0;
    assert(all.take(0) =~= Seq::<Set<Seq<char>>>::empty());
    while i < cycles.len()
        invariant
            i <= cycles.len(),
            are_loops(cycles@, all),
            total == saturated(loop_total(all.take(i as int))),
        decreases cycles.len() - i,
    {
        proof {
            assert(all.take(i + 1).drop_last() =~= all.take(i as int));
            assert(texts(cycles@[i as int].members@) == listed(all[i as int]));
        }
        let size: u32 = cycles[i].size();
        total = more(total, size, Ghost(loop_total(all.take(i as int))), Ghost(listed(all[i as int]).len()));
        i = i + 1;
    }
    assert(all.take(i as int) =~= all);
    total
}

/// The condition of not being among some loops.
pub open spec fn not_among(all: Seq<Set<Seq<char>>>) -> spec_fn(Set<Seq<char>>) -> bool {
    |one: Set<Seq<char>>| !all.contains(one)
}

/// How many loops the target closes and the base did not, a loop being its
/// exact set of nodes.
pub open spec fn closed_loops(graph: GraphView) -> u32 {
    saturated(picked(loops(graph, crate::graph::View::Target), not_among(loops(graph, crate::graph::View::Base))).len())
}

fn same_texts(a: &Vec<String>, b: &Vec<String>) -> (r: bool)
    ensures
        r == (texts(a@) == texts(b@)),
{
    if a.len() != b.len() {
        assert(texts(a@).len() != texts(b@).len());
        return false;
    }
    let mut i: usize = 0;
    while i < a.len()
        invariant
            i <= a.len() == b.len(),
            forall|k: int| 0 <= k < i ==> (#[trigger] a@[k])@ == b@[k]@,
        decreases a.len() - i,
    {
        if !same_text(a[i].as_str(), b[i].as_str()) {
            assert(texts(a@)[i as int] != texts(b@)[i as int]);
            return false;
        }
        i = i + 1;
    }
    assert(texts(a@) =~= texts(b@));
    true
}

fn is_among(cycles: &Vec<Cycle>, one: &Cycle, Ghost(all): Ghost<Seq<Set<Seq<char>>>>, Ghost(members): Ghost<Set<Seq<char>>>) -> (r: bool)
    requires
        are_loops(cycles@, all),
        texts(one.members@) == listed(members),
        texts(one.members@).to_set() == members,
    ensures
        r == all.contains(members),
{
    let mut i: usize = 0;
    while i < cycles.len()
        invariant
            i <= cycles.len(),
            are_loops(cycles@, all),
            texts(one.members@) == listed(members),
            texts(one.members@).to_set() == members,
            forall|k: int| 0 <= k < i ==> #[trigger] all[k] != members,
        decreases cycles.len() - i,
    {
        assert(texts(cycles@[i as int].members@) == listed(all[i as int]));
        assert(texts(cycles@[i as int].members@).to_set() == all[i as int]);
        if same_texts(&cycles[i].members, &one.members) {
            assert(all[i as int] == members);
            return true;
        }
        i = i + 1;
    }
    false
}

fn introduced_cycles(graph: &Graph) -> (r: u32)
    ensures
        r == closed_loops(graph@),
{
    let before = graph.cycles_in(crate::graph::View::Base);
    let after = graph.cycles_in(crate::graph::View::Target);
    let ghost old_loops = loops(graph@, crate::graph::View::Base);
    let ghost new_loops = loops(graph@, crate::graph::View::Target);
    let ghost keep = not_among(old_loops);
    let mut n: usize = 0;
    let mut i: usize = 0;
    while i < after.len()
        invariant
            i <= after.len(),
            are_loops(before@, old_loops),
            are_loops(after@, new_loops),
            keep == not_among(old_loops),
            n <= i,
            n == picked(new_loops.take(i as int), keep).len(),
        decreases after.len() - i,
    {
        assert(new_loops.take(i + 1).drop_last() =~= new_loops.take(i as int));
        assert(texts(after@[i as int].members@) == listed(new_loops[i as int]));
        if !is_among(&before, &after[i], Ghost(old_loops), Ghost(new_loops[i as int])) {
            n = n + 1;
        }
        i = i + 1;
    }
    assert(new_loops.take(i as int) =~= new_loops);
    count(n)
}

/// One signal where a condition holds, and none otherwise.
pub open spec fn signal_if(applies: bool, code: Seq<char>, message: Seq<char>, value: u32) -> Seq<SignalView> {
    if applies {
        seq![SignalView { code, message, value }]
    } else {
        Seq::empty()
    }
}

fn push_signal(out: &mut Vec<Signal>, code: &'static str, message: String, value: u32)
    ensures
        signal_views(final(out)@) == signal_views(old(out)@) + signal_if(true, code@, message@, value),
{
    let ghost so_far = signal_views(out@);
    out.push(Signal { code, message, value });
    assert(signal_views(out@) =~= so_far + signal_if(true, code@, message@, value));
}

/// The smaller of two numbers.
pub open spec fn least(a: u32, b: u32) -> u32 {
    if a < b {
        a
    } else {
        b
    }
}

/// What the relationships at the root are worth saying.
pub open spec fn root_signals(graph: GraphView) -> Seq<SignalView> {
    let inbound = tally(graph, inward(graph));
    let outbound = tally(graph, outward(graph));
    signal_if(inbound >= MANY, "many_callers"@, decimal(inbound as nat) + " relationships point at the root"@, inbound) + signal_if(
        outbound >= MANY,
        "many_dependencies"@,
        "the root points at "@ + decimal(outbound as nat) + " relationships"@,
        outbound,
    ) + signal_if(
        inbound >= BOTH_SIDES && outbound >= BOTH_SIDES,
        "converges_and_branches"@,
        decimal(inbound as nat) + " relationships point at the root and "@ + decimal(outbound as nat) + " leave it"@,
        least(inbound, outbound),
    )
}

/// What the areas of a graph are worth saying.
pub open spec fn area_signals(graph: GraphView) -> Seq<SignalView> {
    let areas = saturated(listed(areas_spanned(graph.nodes)).len());
    signal_if(areas >= AREAS, "crosses_areas"@, "the graph spans "@ + decimal(areas as nat) + " change areas"@, areas)
}

/// What the loops of a graph are worth saying: that it loops at all, and that
/// the change is what closed one.
pub open spec fn cycle_signals(graph: GraphView) -> Seq<SignalView> {
    let cyclic = saturated(loop_total(loops(graph, crate::graph::View::Delta)));
    let introduced = closed_loops(graph);
    signal_if(cyclic > 0, "cycle"@, "the graph contains a cycle through "@ + counted_text(cyclic, "node"@), cyclic) + signal_if(
        introduced > 0,
        "cycle_introduced"@,
        "the change closes "@ + counted_text(introduced, "cycle"@) + "; the target loops where the base did not"@,
        introduced,
    )
}

/// What the changed relationships of a graph are worth saying.
pub open spec fn change_signals(graph: GraphView) -> Seq<SignalView> {
    let changed = tally(graph, touched());
    let levels = saturated(changed_levels(graph, graph.edges).len());
    signal_if(
        tally(graph, touched_inward(graph)) > 0 && tally(graph, touched_outward(graph)) > 0,
        "changed_on_both_sides"@,
        "relationships changed on both sides of the root; "@ + counted_text(changed, "relationship"@) + " in total"@,
        changed,
    ) + signal_if(
        levels >= LEVELS,
        "multiple_levels"@,
        "changed relationships appear at "@ + counted_text(levels, "hop level"@) + " from the root"@,
        levels,
    )
}

/// Every positive signal of a graph, in the fixed criterion order.
pub open spec fn positive_signals(graph: GraphView) -> Seq<SignalView> {
    root_signals(graph) + area_signals(graph) + cycle_signals(graph) + change_signals(graph)
}

/// Whether a graph is a shape that a list states as exactly as a picture.
pub open spec fn is_linear_and_small(graph: GraphView) -> bool {
    saturated(graph.nodes.len()) < SMALL_GRAPH_NODES && !is_branched(graph.edges)
}

/// The negative signal of a graph.
pub open spec fn negative_signal(graph: GraphView) -> SignalView {
    let nodes = saturated(graph.nodes.len());
    SignalView {
        code: "linear_and_small"@,
        message: counted_text(nodes, "node"@) + " and no branching; a dependency diff is the better answer"@,
        value: nodes,
    }
}

/// The reasons of a recommendation: exactly the negative signal where it
/// applies, else every positive one.
pub open spec fn reasons_for(graph: GraphView) -> Seq<SignalView> {
    if is_linear_and_small(graph) {
        seq![negative_signal(graph)]
    } else {
        positive_signals(graph)
    }
}

/// A graph is recommended when a positive signal applies and the negative one
/// does not.
pub open spec fn is_recommended(graph: GraphView) -> bool {
    !is_linear_and_small(graph) && positive_signals(graph).len() > 0
}

/// How many edges satisfy each condition on roots and changes.
struct RootTally {
    inbound: u32,
    outbound: u32,
    changed: u32,
    changed_inbound: u32,
    changed_outbound: u32,
}

fn tally_roots(graph: &Graph) -> (r: RootTally)
    ensures
        r.inbound == tally(graph@, inward(graph@)),
        r.outbound == tally(graph@, outward(graph@)),
        r.changed == tally(graph@, touched()),
        r.changed_inbound == tally(graph@, touched_inward(graph@)),
        r.changed_outbound == tally(graph@, touched_outward(graph@)),
{
    let edges = graph.edges();
    let ghost g = graph@;
    let ghost views = g.edges;
    let mut inbound: usize = 0;
    let mut outbound: usize = 0;
    let mut changed: usize = 0;
    let mut changed_inbound: usize = 0;
    let mut changed_outbound: usize = 0;
    let mut i: usize = 0;
    while i < edges.len()
        invariant
            i <= edges.len(),
            g == graph@,
            views == edge_views(edges@),
            inbound <= i && outbound <= i && changed <= i && changed_inbound <= i && changed_outbound <= i,
            inbound == picked(views.take(i as int), inward(g)).len(),
            outbound == picked(views.take(i as int), outward(g)).len(),
            changed == picked(views.take(i as int), touched()).len(),
            changed_inbound == picked(views.take(i as int), touched_inward(g)).len(),
            changed_outbound == picked(views.take(i as int), touched_outward(g)).len(),
        decreases edges.len() - i,
    {
        let edge = &edges[i];
        assert(views.take(i + 1).drop_last() =~= views.take(i as int));
        assert(views.take(i + 1).last() == edge@);
        let is_changed = edge.status != EdgeStatus::Unchanged;
        if is_changed {
            changed = changed + 1;
        }
        if graph.is_root(edge.to.as_str()) {
            inbound = inbound + 1;
            if is_changed {
                changed_inbound = changed_inbound + 1;
            }
        }
        if graph.is_root(edge.from.as_str()) {
            outbound = outbound + 1;
            if is_changed {
                changed_outbound = changed_outbound + 1;
            }
        }
        i = i + 1;
    }
    assert(views.take(i as int) =~= views);
    RootTally {
        inbound: count(inbound),
        outbound: count(outbound),
        changed: count(changed),
        changed_inbound: count(changed_inbound),
        changed_outbound: count(changed_outbound),
    }
}

fn push_root_signals(out: &mut Vec<Signal>, graph: &Graph, tallies: &RootTally)
    requires
        tallies.inbound == tally(graph@, inward(graph@)),
        tallies.outbound == tally(graph@, outward(graph@)),
    ensures
        signal_views(final(out)@) == signal_views(old(out)@) + root_signals(graph@),
{
    let ghost given = signal_views(out@);
    let inbound: u32 = tallies.inbound;
    let outbound: u32 = tallies.outbound;
    let inbound_text = number_text(inbound as u64);
    let outbound_text = number_text(outbound as u64);
    if inbound >= MANY {
        push_signal(out, "many_callers", join2(inbound_text.as_str(), " relationships point at the root"), inbound);
    }
    if outbound >= MANY {
        push_signal(out, "many_dependencies", join3("the root points at ", outbound_text.as_str(), " relationships"), outbound);
    }
    if inbound >= BOTH_SIDES && outbound >= BOTH_SIDES {
        push_signal(
            out,
            "converges_and_branches",
            join4(inbound_text.as_str(), " relationships point at the root and ", outbound_text.as_str(), " leave it"),
            if inbound < outbound {
                inbound
            } else {
                outbound
            },
        );
    }
    assert(signal_views(out@) =~= given + root_signals(graph@));
}

fn push_cycle_signals(out: &mut Vec<Signal>, graph: &Graph)
    ensures
        signal_views(final(out)@) == signal_views(old(out)@) + cycle_signals(graph@),
{
    let ghost given = signal_views(out@);
    let cycles = graph.cycles();
    let cyclic = total_size(&cycles, Ghost(loops(graph@, crate::graph::View::Delta)));
    if cyclic > 0 {
        push_signal(out, "cycle", join2("the graph contains a cycle through ", counted(cyclic, "node").as_str()), cyclic);
    }
    let introduced = introduced_cycles(graph);
    if introduced > 0 {
        push_signal(
            out,
            "cycle_introduced",
            join3("the change closes ", counted(introduced, "cycle").as_str(), "; the target loops where the base did not"),
            introduced,
        );
    }
    assert(signal_views(out@) =~= given + cycle_signals(graph@));
}

fn push_change_signals(out: &mut Vec<Signal>, graph: &Graph, tallies: &RootTally)
    requires
        tallies.changed == tally(graph@, touched()),
        tallies.changed_inbound == tally(graph@, touched_inward(graph@)),
        tallies.changed_outbound == tally(graph@, touched_outward(graph@)),
    ensures
        signal_views(final(out)@) == signal_views(old(out)@) + change_signals(graph@),
{
    let ghost given = signal_views(out@);
    if tallies.changed_inbound > 0 && tallies.changed_outbound > 0 {
        push_signal(
            out,
            "changed_on_both_sides",
            join3("relationships changed on both sides of the root; ", counted(tallies.changed, "relationship").as_str(), " in total"),
            tallies.changed,
        );
    }
    let levels = count_levels(graph);
    if levels >= LEVELS {
        push_signal(
            out,
            "multiple_levels",
            join3("changed relationships appear at ", counted(levels, "hop level").as_str(), " from the root"),
            levels,
        );
    }
    assert(signal_views(out@) =~= given + change_signals(graph@));
}

/// Decide whether a diagram is worth rendering for this graph.
///
/// A graph is recommended when at least one positive signal applies and the
/// negative signal does not. "The root" is whatever the walk started from, so a
/// graph whose walk would have started nowhere withholds the root-side signals
/// instead of guessing which node was meant.
#[must_use]
pub fn evaluate(graph: &Graph) -> (r: Recommendation)
    ensures
        r.recommended == is_recommended(graph@),
        signal_views(r.reasons@) == reasons_for(graph@),
{
    let mut reasons: Vec<Signal> = Vec::new();
    assert(signal_views(reasons@) =~= Seq::<SignalView>::empty());
    let nodes = count(graph.nodes().len());
    assert(graph@.nodes.len() == graph.nodes@.len());
    if nodes < SMALL_GRAPH_NODES && !branches(graph) {
        push_signal(
            &mut reasons,
            "linear_and_small",
            join2(counted(nodes, "node").as_str(), " and no branching; a dependency diff is the better answer"),
            nodes,
        );
        assert(signal_views(reasons@) =~= reasons_for(graph@));
        return Recommendation { recommended: false, reasons };
    }
    let tallies = tally_roots(graph);
    push_root_signals(&mut reasons, graph, &tallies);
    let areas = area_count(graph);
    if areas >= AREAS {
        push_signal(
            &mut reasons,
            "crosses_areas",
            join3("the graph spans ", number_text(areas as u64).as_str(), " change areas"),
            areas,
        );
    }
    assert(signal_views(reasons@) =~= root_signals(graph@) + area_signals(graph@));
    push_cycle_signals(&mut reasons, graph);
    push_change_signals(&mut reasons, graph, &tallies);
    assert(signal_views(reasons@) =~= positive_signals(graph@));
    let recommended = reasons.len() > 0;
    assert(recommended == (signal_views(reasons@).len() > 0));
    Recommendation { recommended, reasons }
}

/// A graph without roots earns no signal about them.
pub proof fn lemma_rootless_graph_withholds(graph: GraphView)
    requires
        graph.roots.len() == 0,
    ensures
        root_signals(graph).len() == 0,
{
    lemma_none_picked(graph.edges, inward(graph));
    lemma_none_picked(graph.edges, outward(graph));
}

proof fn lemma_none_picked(edges: Seq<EdgeView>, keep: spec_fn(EdgeView) -> bool)
    requires
        forall|e: EdgeView| !#[trigger] keep(e),
    ensures
        picked(edges, keep).len() == 0,
    decreases edges.len(),
{
    if edges.len() > 0 {
        lemma_none_picked(edges.drop_last(), keep);
    }
}

} // verus!
