//! The order in which a graph is put together does not matter.
//!
//! A graph grows by nodes, roots and relationships as a walk discovers them.
//! What is delivered in the end depends on which they were, and not on which
//! came first.

use vstd::prelude::*;

use crate::graph::{
    all_nodes, delivered, delivers_nodes, edge_rank, has_node, kept_nodes, lemma_edge_order_immaterial, lemma_kept_subset, lemma_node_order,
    lemma_node_order_immaterial, lemma_picked_ranked, node_order, node_rank, BuilderView, EdgeView, GraphView, Limits, NodeView,
};
use crate::order::{lemma_arranged_ranked, lemma_picked, lemma_picked_strictly, picked, ranked, strictly};
use crate::text::{decimal, Rank};

verus! {

/// One thing added to a graph under construction.
#[verifier::ext_equal]
pub enum Insertion {
    Node(NodeView),
    Root(Seq<char>),
    Edge(EdgeView),
}

/// A graph under construction with one more thing added.
pub open spec fn after(builder: BuilderView, step: Insertion) -> BuilderView {
    match step {
        Insertion::Node(node) => builder.with_node(node),
        Insertion::Root(id) => BuilderView { roots: builder.roots.insert(id), ..builder },
        Insertion::Edge(edge) => builder.with_edge(edge),
    }
}

/// What adding some things, one after the other, to an empty graph gives.
pub open spec fn built(steps: Seq<Insertion>) -> BuilderView
    decreases steps.len(),
{
    if steps.len() == 0 {
        BuilderView::empty()
    } else {
        after(built(steps.drop_last()), steps.last())
    }
}

/// Whether two insertions do not contradict each other: nodes of one identity
/// are described alike but for their hops, and relationships with the same
/// ends, relation and resolution are the same one.
pub open spec fn agree(a: Insertion, b: Insertion) -> bool {
    match (a, b) {
        (Insertion::Node(a), Insertion::Node(b)) => a.id == b.id ==> a == (NodeView { depth: a.depth, ..b }),
        (Insertion::Edge(a), Insertion::Edge(b)) => edge_rank(a, b) == Rank::Same ==> a == b,
        _ => true,
    }
}

/// Whether no two of some insertions contradict each other.
pub open spec fn consistent(steps: Seq<Insertion>) -> bool {
    forall|i: int, j: int| 0 <= i < steps.len() && 0 <= j < steps.len() ==> agree(#[trigger] steps[i], #[trigger] steps[j])
}

proof fn lemma_swap(builder: BuilderView, a: Insertion, b: Insertion)
    requires
        agree(a, b),
    ensures
        after(after(builder, a), b) == after(after(builder, b), a),
{
    match (a, b) {
        (Insertion::Node(a), Insertion::Node(b)) => {
            lemma_node_order_immaterial(builder, a, b);
        },
        (Insertion::Edge(a), Insertion::Edge(b)) => {
            lemma_edge_order_immaterial(builder, a, b);
        },
        (Insertion::Edge(edge), other) => {
            let grown = after(builder, other);
            assert(grown.edges == builder.edges);
            assert(grown.has_edge(edge) == builder.has_edge(edge));
        },
        (other, Insertion::Edge(edge)) => {
            let grown = after(builder, other);
            assert(grown.edges == builder.edges);
            assert(grown.has_edge(edge) == builder.has_edge(edge));
        },
        _ => {
            assert(after(after(builder, a), b).roots =~= after(after(builder, b), a).roots);
        },
    }
}

/// What is added somewhere may as well be added last.
proof fn lemma_last(steps: Seq<Insertion>, k: int)
    requires
        consistent(steps),
        0 <= k < steps.len(),
    ensures
        built(steps) == after(built(steps.remove(k)), steps[k]),
        consistent(steps.remove(k)),
    decreases steps.len(),
{
    let rest = steps.remove(k);
    assert forall|i: int, j: int| 0 <= i < rest.len() && 0 <= j < rest.len() implies agree(#[trigger] rest[i], #[trigger] rest[j]) by {
        let p = if i < k { i } else { i + 1 };
        let q = if j < k { j } else { j + 1 };
        assert(rest[i] == steps[p] && rest[j] == steps[q]);
    }
    if k == steps.len() - 1 {
        assert(rest =~= steps.drop_last());
    } else {
        let shorter = steps.drop_last();
        assert(consistent(shorter)) by {
            assert forall|i: int, j: int| 0 <= i < shorter.len() && 0 <= j < shorter.len() implies agree(
                #[trigger] shorter[i],
                #[trigger] shorter[j],
            ) by {
                assert(shorter[i] == steps[i] && shorter[j] == steps[j]);
            }
        }
        lemma_last(shorter, k);
        assert(rest.drop_last() =~= shorter.remove(k));
        assert(rest.last() == steps.last());
        assert(shorter[k] == steps[k]);
        assert(agree(steps[k], steps[steps.len() - 1]));
        lemma_swap(built(shorter.remove(k)), steps[k], steps.last());
    }
}

/// The same things added in any two orders give the same graph under
/// construction.
proof fn lemma_same_built(first: Seq<Insertion>, second: Seq<Insertion>)
    requires
        first.to_multiset() == second.to_multiset(),
        consistent(first),
        consistent(second),
    ensures
        built(first) == built(second),
    decreases first.len(),
{
    first.to_multiset_ensures();
    second.to_multiset_ensures();
    assert(first.len() == second.len());
    if first.len() > 0 {
        let last = first.len() - 1;
        let step = first[last];
        assert(first.contains(step));
        assert(first.to_multiset().count(step) > 0);
        assert(second.contains(step));
        let k = choose|k: int| 0 <= k < second.len() && second[k] == step;
        lemma_last(first, last);
        lemma_last(second, k);
        assert(first.remove(last).to_multiset() =~= second.remove(k).to_multiset());
        lemma_same_built(first.remove(last), second.remove(k));
    }
}

/// Insertions that are consistent in one order are so in any other.
proof fn lemma_same_consistent(first: Seq<Insertion>, second: Seq<Insertion>)
    requires
        first.to_multiset() == second.to_multiset(),
        consistent(first),
    ensures
        consistent(second),
{
    first.to_multiset_ensures();
    second.to_multiset_ensures();
    assert forall|i: int, j: int| 0 <= i < second.len() && 0 <= j < second.len() implies agree(#[trigger] second[i], #[trigger] second[j]) by {
        let a = second[i];
        let b = second[j];
        assert(second.contains(a) && second.contains(b));
        assert(second.to_multiset().count(a) > 0 && second.to_multiset().count(b) > 0);
        assert(first.contains(a) && first.contains(b));
        let p = choose|p: int| 0 <= p < first.len() && first[p] == a;
        let q = choose|q: int| 0 <= q < first.len() && first[q] == b;
        assert(agree(first[p], first[q]));
    }
}

/// The members of a finite set, each once.
pub(crate) proof fn lemma_once<A>(members: Set<A>) -> (s: Seq<A>)
    requires
        members.finite(),
    ensures
        s.no_duplicates(),
        s.to_set() == members,
    decreases members.len(),
{
    if members.len() == 0 {
        assert(Seq::<A>::empty().to_set() =~= members);
        Seq::empty()
    } else {
        let one = members.choose();
        let rest = lemma_once(members.remove(one));
        let s = rest.push(one);
        assert(!rest.contains(one)) by {
            assert(!rest.to_set().contains(one));
        }
        assert forall|x: A| s.to_set().contains(x) <==> members.contains(x) by {
            assert(rest.contains(x) <==> rest.to_set().contains(x));
            if rest.contains(x) {
                let i = choose|i: int| 0 <= i < rest.len() && rest[i] == x;
                assert(s[i] == x);
            }
            if x == one {
                assert(s[rest.len() as int] == x);
            }
        }
        assert(s.to_set() =~= members);
        s
    }
}

/// What is built holds finitely many nodes, each under its identity, and no
/// relationship twice.
proof fn lemma_built(steps: Seq<Insertion>)
    ensures
        built(steps).nodes.dom().finite(),
        built(steps).sound(),
    decreases steps.len(),
{
    if steps.len() > 0 {
        let before = built(steps.drop_last());
        lemma_built(steps.drop_last());
        match steps.last() {
            Insertion::Edge(edge) => {
                let grown = before.with_edge(edge);
                assert forall|a: EdgeView, b: EdgeView|
                    grown.edges.contains(a) && grown.edges.contains(b) && #[trigger] edge_rank(a, b) == Rank::Same implies a == b by {
                    crate::graph::lemma_edge_same(a, b);
                    crate::graph::lemma_edge_same(b, a);
                    if !before.edges.contains(a) && before.edges.contains(b) {
                        assert(edge_rank(b, a) == Rank::Same);
                    }
                }
            },
            _ => {},
        }
    }
}

/// What is delivered of a graph lists the nodes that its budget keeps.
proof fn lemma_delivers_nodes(builder: BuilderView, limits: Limits)
    requires
        builder.nodes.dom().finite(),
        builder.sound(),
    ensures
        delivers_nodes(builder, limits, delivered(builder, limits)),
{
    let ids = lemma_once(builder.nodes.dom());
    let nodes = Seq::new(ids.len(), |i: int| builder.nodes[ids[i]]);
    assert forall|i: int| 0 <= i < ids.len() implies builder.nodes.contains_key(ids[i]) && (#[trigger] nodes[i]).id == ids[i] by {
        assert(ids.to_set().contains(ids[i]));
    }
    assert forall|n: NodeView| #[trigger] nodes.to_set().contains(n) <==> all_nodes(builder).contains(n) by {
        if all_nodes(builder).contains(n) {
            assert(ids.to_set().contains(n.id));
            let i = choose|i: int| 0 <= i < ids.len() && ids[i] == n.id;
            assert(nodes[i] == n);
        }
        if nodes.to_set().contains(n) {
            let i = choose|i: int| 0 <= i < nodes.len() && nodes[i] == n;
            assert(nodes[i].id == ids[i]);
        }
    }
    assert(nodes.to_set() =~= all_nodes(builder));
    lemma_node_order();
    assert forall|a: NodeView, b: NodeView| nodes.contains(a) && nodes.contains(b) && #[trigger] node_order()(a, b) == Rank::Same implies a == b by {
        assert(node_rank(a, b) == Rank::Same);
        assert(nodes.to_set().contains(a) && nodes.to_set().contains(b));
    }
    lemma_arranged_ranked(nodes, node_order());
    let views = ranked(all_nodes(builder), node_order());
    let kept = kept_nodes(builder, limits.max_nodes as nat);
    lemma_kept_subset(builder, limits.max_nodes as nat, views);
    let keep = |n: NodeView| has_node(kept, n.id);
    assert forall|n: NodeView| #[trigger] kept.contains(n) <==> views.contains(n) && keep(n) by {
        if kept.contains(n) {
            assert(views.to_set().contains(n));
        }
        if views.contains(n) && keep(n) {
            let m = choose|m: NodeView| #[trigger] kept.contains(m) && m.id == n.id;
            assert(all_nodes(builder).contains(m));
            assert(views.to_set().contains(n));
        }
    }
    lemma_picked_ranked(views, keep, node_order(), kept);
    lemma_picked_strictly(views, keep, node_order());
    lemma_picked(views, keep);
    assert(picked(views, keep).to_set() =~= kept);
}

/// Two graphs given the same nodes, roots and relationships, in any two orders
/// and however these are mixed, are delivered alike.
///
/// The nodes of what is delivered stand by kind, path and label, and their keys
/// count them from `n0` on.
pub proof fn lemma_insertion_order_immaterial(first: Seq<Insertion>, second: Seq<Insertion>, limits: Limits)
    requires
        first.to_multiset() == second.to_multiset(),
        consistent(first),
    ensures
        built(first) == built(second),
        delivered(built(first), limits) == delivered(built(second), limits),
        strictly(delivered(built(first), limits).nodes, node_order()),
        forall|i: int|
            0 <= i < delivered(built(first), limits).nodes.len() ==> (#[trigger] delivered(built(first), limits).nodes[i]).key == "n"@ + decimal(
                i as nat,
            ),
{
    lemma_same_consistent(first, second);
    lemma_same_built(first, second);
    lemma_built(first);
    lemma_delivers_nodes(built(first), limits);
    let graph: GraphView = delivered(built(first), limits);
    let listing = ranked(kept_nodes(built(first), limits.max_nodes as nat), node_order());
    assert forall|i: int, j: int| 0 <= i < j < graph.nodes.len() implies node_order()(#[trigger] graph.nodes[i], #[trigger] graph.nodes[j])
        == Rank::Before by {
        assert(node_order()(listing[i], listing[j]) == Rank::Before);
    }
}

} // verus!
