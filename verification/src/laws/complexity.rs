//! What makes a function complex.

use vstd::prelude::*;

use crate::languages::syntax::{lemma_shallower, parent, NodeView};
use crate::languages::typescript::{
    cognitive, cyclomatic, effort_points, effort_total, is_decision, is_function, is_short_operator, nesting, path_points, path_total, short_circuits,
    subtree_end,
};
use crate::laws::counting::{
    how_many, lemma_counts_settle, lemma_how_many_more, lemma_how_many_none, lemma_how_many_same, sum,
};

verus! {

/// Whether a node stands around another: what follows it, up to the other, is
/// deeper than it.
pub open spec fn encloses(nodes: Seq<NodeView>, outer: int, inner: int) -> bool {
    0 <= outer < inner < nodes.len() && forall|k: int| outer < k <= inner ==> (#[trigger] nodes[k]).depth > nodes[outer].depth
}

/// Whether a node stands in a function and not in another function within it.
/// One that begins where its parent does is no function of its own.
pub open spec fn belongs(nodes: Seq<NodeView>, function: int, i: int, is_one: spec_fn(Seq<char>) -> bool) -> bool {
    encloses(nodes, function, i) && forall|g: int|
        #![trigger nodes[g]]
        encloses(nodes, function, g) && (g == i || encloses(nodes, g, i)) && is_one(nodes[g].kind) ==> parent(nodes, g) is Some && nodes[parent(
            nodes,
            g,
        )->0].start_byte == nodes[g].start_byte
}

/// How many decisions stand around a node within a function.
pub open spec fn depth_of(nodes: Seq<NodeView>, function: int, i: int, decides: spec_fn(Seq<char>) -> bool) -> nat {
    how_many(nodes.len() as int, around(nodes, function, i, decides))
}

/// The condition of being a decision around a node within a function.
pub open spec fn around(nodes: Seq<NodeView>, function: int, i: int, decides: spec_fn(Seq<char>) -> bool) -> spec_fn(int) -> bool {
    |a: int| encloses(nodes, function, a) && encloses(nodes, a, i) && decides(nodes[a].kind)
}

/// Whether a node is written with an operator of some kinds.
pub open spec fn joins(nodes: Seq<NodeView>, i: int, operators: spec_fn(Seq<char>) -> bool) -> bool {
    nodes[i].kind == "binary_expression"@ && exists|c: int|
        0 <= c < nodes.len() && #[trigger] parent(nodes, c) == Some(i) && operators(nodes[c].kind)
}

/// What stands around a node is its parent and what stands around that.
proof fn lemma_encloses(nodes: Seq<NodeView>, a: int, i: int)
    requires
        0 <= i < nodes.len(),
    ensures
        parent(nodes, i) is None ==> !encloses(nodes, a, i),
        parent(nodes, i) matches Some(p) ==> 0 <= p < i && encloses(nodes, p, i) && (encloses(nodes, a, i) <==> a == p || encloses(nodes, a, p)),
{
    lemma_shallower(nodes, i - 1, nodes[i].depth);
    match parent(nodes, i) {
        None => {
            if encloses(nodes, a, i) {
                assert(nodes[i].depth > nodes[a].depth);
                assert(nodes[a].depth >= nodes[i].depth);
            }
        },
        Some(p) => {
            assert forall|k: int| p < k <= i implies (#[trigger] nodes[k]).depth > nodes[p].depth by {}
            assert(encloses(nodes, p, i));
            if encloses(nodes, a, i) {
                assert(nodes[i].depth > nodes[a].depth);
                if a > p {
                    assert(nodes[a].depth >= nodes[i].depth);
                }
                if a < p {
                    assert forall|k: int| a < k <= p implies (#[trigger] nodes[k]).depth > nodes[a].depth by {}
                }
            }
            if encloses(nodes, a, p) {
                assert(nodes[p].depth > nodes[a].depth);
                assert forall|k: int| a < k <= i implies (#[trigger] nodes[k]).depth > nodes[a].depth by {
                    if k > p {
                        assert(nodes[k].depth > nodes[p].depth);
                    }
                }
            }
        },
    }
}

/// The levels that are counted are those of what belongs to a function.
pub(crate) proof fn lemma_nesting(
    nodes: Seq<NodeView>,
    function: int,
    i: int,
    decides: spec_fn(Seq<char>) -> bool,
    is_one: spec_fn(Seq<char>) -> bool,
)
    requires
        0 <= function < nodes.len(),
        0 <= i < nodes.len(),
        forall|kind: Seq<char>| #[trigger] decides(kind) == is_decision(kind),
        forall|kind: Seq<char>| #[trigger] is_one(kind) == is_function(kind),
    ensures
        nesting(nodes, function, i) is Some <==> belongs(nodes, function, i, is_one),
        nesting(nodes, function, i) is Some ==> nesting(nodes, function, i) == Some(depth_of(nodes, function, i, decides)),
    decreases i,
{
    let n = nodes.len() as int;
    lemma_encloses(nodes, function, i);
    match parent(nodes, i) {
        None => {},
        Some(p) => {
            if p < function {
                assert(!encloses(nodes, function, i)) by {
                    if encloses(nodes, function, i) {
                        assert(encloses(nodes, function, p));
                    }
                }
            } else {
                let here = around(nodes, function, i, decides);
                let inner = is_function(nodes[i].kind) && nodes[i].start_byte != nodes[p].start_byte;
                assert(is_one(nodes[i].kind) == is_function(nodes[i].kind));
                assert(decides(nodes[p].kind) == is_decision(nodes[p].kind));
                if p == function {
                    assert forall|a: int| 0 <= a < n implies !#[trigger] here(a) by {
                        lemma_encloses(nodes, a, i);
                    }
                    lemma_how_many_none(n, here);
                    assert(belongs(nodes, function, i, is_one) <==> !inner) by {
                        if !inner {
                            assert forall|g: int|
                                #![trigger nodes[g]]
                                encloses(nodes, function, g) && (g == i || encloses(nodes, g, i)) && is_one(nodes[g].kind) implies parent(nodes, g)
                                is Some && nodes[parent(nodes, g)->0].start_byte == nodes[g].start_byte by {
                                lemma_encloses(nodes, g, i);
                            }
                        } else {
                            assert(is_one(nodes[i].kind));
                        }
                    }
                } else {
                    lemma_nesting(nodes, function, p, decides, is_one);
                    let above = around(nodes, function, p, decides);
                    assert forall|a: int| 0 <= a < n && a != p implies #[trigger] above(a) == here(a) by {
                        lemma_encloses(nodes, a, i);
                    }
                    if encloses(nodes, function, i) {
                        assert(encloses(nodes, function, p));
                        assert(!above(p));
                        if is_decision(nodes[p].kind) {
                            lemma_how_many_more(n, above, here, p);
                        } else {
                            assert(!here(p));
                            lemma_how_many_same(n, above, here);
                        }
                    }
                    assert(belongs(nodes, function, i, is_one) <==> belongs(nodes, function, p, is_one) && !inner) by {
                        if belongs(nodes, function, i, is_one) {
                            assert(nodes[i].kind == nodes[i].kind);
                            assert forall|g: int|
                                #![trigger nodes[g]]
                                encloses(nodes, function, g) && (g == p || encloses(nodes, g, p)) && is_one(nodes[g].kind) implies parent(nodes, g)
                                is Some && nodes[parent(nodes, g)->0].start_byte == nodes[g].start_byte by {
                                lemma_encloses(nodes, g, i);
                            }
                        }
                        if belongs(nodes, function, p, is_one) && !inner {
                            assert forall|g: int|
                                #![trigger nodes[g]]
                                encloses(nodes, function, g) && (g == i || encloses(nodes, g, i)) && is_one(nodes[g].kind) implies parent(nodes, g)
                                is Some && nodes[parent(nodes, g)->0].start_byte == nodes[g].start_byte by {
                                lemma_encloses(nodes, g, i);
                            }
                        }
                    }
                }
            }
        },
    }
}

/// Where the nodes of a function end.
pub(crate) proof fn lemma_subtree(nodes: Seq<NodeView>, function: int, j: int)
    requires
        0 <= function < j <= nodes.len(),
        forall|k: int| function < k < j ==> (#[trigger] nodes[k]).depth > nodes[function].depth,
    ensures
        j <= subtree_end(nodes, function, j) <= nodes.len(),
        forall|i: int| subtree_end(nodes, function, j) <= i ==> !#[trigger] encloses(nodes, function, i),
    decreases nodes.len() - j,
{
    if j < nodes.len() && nodes[j].depth > nodes[function].depth {
        lemma_subtree(nodes, function, j + 1);
    } else {
        assert forall|i: int| j <= i implies !#[trigger] encloses(nodes, function, i) by {
            if encloses(nodes, function, i) {
                assert(nodes[j].depth > nodes[function].depth);
            }
        }
    }
}

/// The totals up to a node are counts and sums.
proof fn lemma_totals(nodes: Seq<NodeView>, function: int, to: int, counted: spec_fn(int) -> bool, weight: spec_fn(int) -> nat)
    requires
        0 <= function < nodes.len(),
        to <= nodes.len(),
        forall|i: int| 0 <= i <= function ==> !#[trigger] counted(i) && weight(i) == 0,
        forall|i: int|
            function < i < nodes.len() ==> (#[trigger] counted(i) <==> path_points(nodes, function, i) == 1) && weight(i) == effort_points(nodes, function, i),
    ensures
        path_total(nodes, function, to) == how_many(to, counted),
        effort_total(nodes, function, to) == sum(to, weight),
    decreases to - function,
{
    if to <= function + 1 {
        if to > 0 {
            lemma_counts_settle(0, to, counted, weight);
        }
    } else {
        lemma_totals(nodes, function, to - 1, counted, weight);
        assert(counted(to - 1) <==> path_points(nodes, function, to - 1) == 1);
    }
}

/// The cyclomatic complexity of a function is one more than the decisions and
/// short-circuiting operators written in it: `if`, `for`, `for`-`in` and
/// `for`-`of`, `while`, `do`, `catch`, `?:`, `case`, `&&`, `||` and `??`. Its
/// cognitive complexity counts each decision once and once more for every
/// decision around it, and each such operator once. What a function inside it
/// holds is counted for that one alone.
pub proof fn lemma_complexity_counts_decisions(
    nodes: Seq<NodeView>,
    function: int,
    decides: spec_fn(Seq<char>) -> bool,
    operators: spec_fn(Seq<char>) -> bool,
    is_one: spec_fn(Seq<char>) -> bool,
)
    requires
        0 <= function < nodes.len(),
        forall|kind: Seq<char>| #[trigger]
            decides(kind) <==> {
                ||| kind == "if_statement"@
                ||| kind == "for_statement"@
                ||| kind == "for_in_statement"@
                ||| kind == "while_statement"@
                ||| kind == "do_statement"@
                ||| kind == "catch_clause"@
                ||| kind == "ternary_expression"@
                ||| kind == "switch_case"@
            },
        forall|kind: Seq<char>| #[trigger] operators(kind) <==> kind == "&&"@ || kind == "||"@ || kind == "??"@,
        forall|kind: Seq<char>| #[trigger]
            is_one(kind) <==> {
                ||| kind == "function_declaration"@
                ||| kind == "generator_function_declaration"@
                ||| kind == "function_expression"@
                ||| kind == "generator_function"@
                ||| kind == "method_definition"@
                ||| kind == "abstract_method_signature"@
                ||| kind == "method_signature"@
                ||| kind == "arrow_function"@
            },
    ensures
        cyclomatic(nodes, function) == 1 + how_many(
            nodes.len() as int,
            |i: int| belongs(nodes, function, i, is_one) && (decides(nodes[i].kind) || joins(nodes, i, operators)),
        ),
        cognitive(nodes, function) == sum(
            nodes.len() as int,
            |i: int|
                if !belongs(nodes, function, i, is_one) {
                    0
                } else if decides(nodes[i].kind) {
                    1 + depth_of(nodes, function, i, decides)
                } else if joins(nodes, i, operators) {
                    1
                } else {
                    0
                },
        ),
{
    let n = nodes.len() as int;
    let counted = |i: int| belongs(nodes, function, i, is_one) && (decides(nodes[i].kind) || joins(nodes, i, operators));
    let weight = |i: int|
        if !belongs(nodes, function, i, is_one) {
            0nat
        } else if decides(nodes[i].kind) {
            1 + depth_of(nodes, function, i, decides)
        } else if joins(nodes, i, operators) {
            1
        } else {
            0
        };
    assert forall|i: int| function < i < n implies (#[trigger] counted(i) <==> path_points(nodes, function, i) == 1) && weight(i) == effort_points(
        nodes,
        function,
        i,
    ) by {
        lemma_nesting(nodes, function, i, decides, is_one);
        assert(joins(nodes, i, operators) == short_circuits(nodes, i)) by {
            if joins(nodes, i, operators) {
                let c = choose|c: int| 0 <= c < nodes.len() && #[trigger] parent(nodes, c) == Some(i) && operators(nodes[c].kind);
                assert(is_short_operator(nodes[c].kind));
            }
            if short_circuits(nodes, i) {
                let c = choose|c: int| 0 <= c < nodes.len() && #[trigger] parent(nodes, c) == Some(i) && is_short_operator(nodes[c].kind);
                assert(operators(nodes[c].kind));
            }
        }
        assert(decides(nodes[i].kind) == is_decision(nodes[i].kind));
    }
    let end = subtree_end(nodes, function, function + 1);
    lemma_subtree(nodes, function, function + 1);
    lemma_totals(nodes, function, end, counted, weight);
    assert forall|i: int| end <= i < n implies !#[trigger] counted(i) && weight(i) == 0 by {
        assert(!encloses(nodes, function, i));
    }
    lemma_counts_settle(end, n, counted, weight);
}

} // verus!
