//! Dependency-diff and Mermaid renderings of one graph.
//!
//! The model decides what a graph contains; these functions only decide how to
//! say it, so that one graph renders the same way every time. The dependency
//! diff is the compact rendering: one line per relationship, with no topology
//! to reconstruct. Whether to draw at all is decided in
//! [`crate::graph::recommend`].

use vstd::prelude::*;
use vstd::utf8::{encode_scalar, encode_utf8};

use crate::collections::{listed, TextSet};
use crate::graph::cycles::{are_loops, loops};
use crate::graph::{
    edge_views, node_status_word, node_views, node_with, relation_word, resolution_confidence, Edge, EdgeStatus, EdgeView, Graph, GraphView, Node, NodeKind,
    NodeStatus, NodeView, Relation,
};
use crate::order::picked;
use crate::text::{chars_of, decimal, interposed, join3, join_all, number_text, text_of, texts, words, words_of};

verus! {

/// Longest label a diagram line may carry before it is truncated.
pub const MAX_LABEL_BYTES: usize = 64;

/// What a truncated label ends with.
pub const TRUNCATION_MARKER: &'static str = "...";

/// The style of a status.
pub open spec fn style_of(status: NodeStatus) -> Seq<char> {
    match status {
        NodeStatus::Added => "fill:#e6ffed,stroke:#22863a"@,
        NodeStatus::Removed => "fill:#ffeef0,stroke:#cb2431"@,
        NodeStatus::Modified => "fill:#fff5b1,stroke:#b08800"@,
        NodeStatus::Unchanged => "fill:#f6f8fa,stroke:#d1d5db"@,
    }
}

/// The fixed style a node status is drawn with: green for what the change adds,
/// red for what it removes, amber for what it changes in place, grey for what
/// it leaves alone.
#[must_use]
pub fn style(status: NodeStatus) -> (r: &'static str)
    ensures
        r@ == style_of(status),
{
    match status {
        NodeStatus::Added => "fill:#e6ffed,stroke:#22863a",
        NodeStatus::Removed => "fill:#ffeef0,stroke:#cb2431",
        NodeStatus::Modified => "fill:#fff5b1,stroke:#b08800",
        NodeStatus::Unchanged => "fill:#f6f8fa,stroke:#d1d5db",
    }
}

/// The marker of an edge status.
pub open spec fn marker_of(status: EdgeStatus) -> Seq<char> {
    match status {
        EdgeStatus::Removed => "-"@,
        EdgeStatus::Added => "+"@,
        EdgeStatus::Unchanged => " "@,
    }
}

/// The place in the repository that a node stands for: the path of a module,
/// and the path and qualified name of a function. A group stands for several
/// places and is named by what it collapses.
pub open spec fn place_of(node: NodeView) -> Seq<char> {
    match node.kind {
        NodeKind::Function => node.path + "::"@ + node.label,
        NodeKind::Module => node.path,
        NodeKind::Group => node.label,
    }
}

fn endpoint(node: &Node) -> (r: String)
    ensures
        r@ == place_of(node@),
{
    match node.kind {
        NodeKind::Function => join3(node.path.as_str(), "::", node.label.as_str()),
        NodeKind::Module => node.path.clone(),
        NodeKind::Group => node.label.clone(),
    }
}

/// The arrow of a relationship in a dependency diff: an import goes unnamed,
/// any other relation is named.
pub open spec fn diff_arrow(relation: Relation) -> Seq<char> {
    match relation {
        Relation::Imports => " -> "@,
        other => " -["@ + relation_word(other) + "]-> "@,
    }
}

/// One dependency-diff line: the marker, both endpoints, and the relation when
/// it is not the common one.
pub open spec fn diff_line(edge: EdgeView, from: NodeView, to: NodeView) -> Seq<char> {
    marker_of(edge.status) + " "@ + place_of(from) + diff_arrow(edge.relation) + place_of(to) + "\n"@
}

/// The lines of edges. An edge whose end is no node has none.
pub open spec fn diff_lines(nodes: Seq<NodeView>, edges: Seq<EdgeView>) -> Seq<char>
    decreases edges.len(),
{
    if edges.len() == 0 {
        Seq::empty()
    } else {
        let edge = edges.last();
        let before = diff_lines(nodes, edges.drop_last());
        match (node_with(nodes, edge.from), node_with(nodes, edge.to)) {
            (Some(from), Some(to)) => before + diff_line(edge, from, to),
            _ => before,
        }
    }
}

fn edge_line(edge: &Edge, from: &Node, to: &Node) -> (r: String)
    ensures
        r@ == diff_line(edge@, from@, to@),
{
    let mut out = (match edge.status {
        EdgeStatus::Removed => "-",
        EdgeStatus::Added => "+",
        EdgeStatus::Unchanged => " ",
    }).to_owned();
    out.append(" ");
    out.append(endpoint(from).as_str());
    let arrow = match edge.relation {
        Relation::Imports => " -> ".to_owned(),
        other => join3(" -[", other.name(), "]-> "),
    };
    out.append(arrow.as_str());
    out.append(endpoint(to).as_str());
    out.append("\n");
    out
}

/// Render the graph as a dependency diff: one line per edge, marked by status.
///
/// Endpoints are places in the repository rather than labels, so two files
/// sharing a basename are two different files. Lines follow the graph's edge
/// order. The result keeps the trailing newline of its last line and an empty
/// graph renders as nothing at all.
#[must_use]
pub fn dependency_diff(graph: &Graph) -> (r: String)
    ensures
        r@ == diff_lines(graph@.nodes, graph@.edges),
{
    let edges = graph.edges();
    let ghost views = graph@.edges;
    let ghost nodes = graph@.nodes;
    let mut out = String::new();
    let mut i: usize = 0;
    assert(out@ =~= diff_lines(nodes, views.take(0)));
    while i < edges.len()
        invariant
            i <= edges.len(),
            views == edge_views(edges@),
            nodes == graph@.nodes,
            out@ == diff_lines(nodes, views.take(i as int)),
        decreases edges.len() - i,
    {
        let edge = &edges[i];
        assert(views.take(i + 1).drop_last() =~= views.take(i as int));
        assert(views.take(i + 1).last() == edge@);
        match (graph.node(edge.from.as_str()), graph.node(edge.to.as_str())) {
            (Some(from), Some(to)) => {
                out.append(edge_line(edge, from, to).as_str());
            },
            _ => {},
        }
        i = i + 1;
    }
    assert(views.take(i as int) =~= views);
    out
}

/// Whether a character is a control character.
pub open spec fn is_control(c: char) -> bool {
    c as u32 <= 0x1f || 0x7f <= c as u32 <= 0x9f
}

/// A label without quotes, with a space for every control character.
pub open spec fn cleaned(label: Seq<char>) -> Seq<char>
    decreases label.len(),
{
    if label.len() == 0 {
        Seq::empty()
    } else {
        let before = cleaned(label.drop_last());
        if label.last() == '"' {
            before
        } else if is_control(label.last()) {
            before.push(' ')
        } else {
            before.push(label.last())
        }
    }
}

fn clean(label: &str) -> (r: String)
    ensures
        r@ == cleaned(label@),
{
    let chars = chars_of(label);
    let mut out = String::new();
    let mut i: usize = 0;
    assert(out@ =~= cleaned(label@.take(0)));
    while i < chars.len()
        invariant
            i <= chars.len(),
            chars@ == label@,
            out@ == cleaned(label@.take(i as int)),
        decreases chars.len() - i,
    {
        let c = chars[i];
        assert(label@.take(i + 1).drop_last() =~= label@.take(i as int));
        if c != '"' {
            let code: u32 = c as u32;
            if code <= 0x1f || (0x7f <= code && code <= 0x9f) {
                out.push(' ');
            } else {
                out.push(c);
            }
        }
        i = i + 1;
    }
    assert(label@.take(i as int) =~= label@);
    out
}

/// How many characters at the start of a text fit into a number of bytes.
pub open spec fn fitting(s: Seq<char>, budget: nat) -> nat
    decreases s.len(),
{
    if s.len() == 0 || encode_scalar(s[0] as u32).len() > budget {
        0
    } else {
        1 + fitting(s.drop_first(), (budget - encode_scalar(s[0] as u32).len()) as nat)
    }
}

/// A text cut to the diagram's budget on a character boundary.
pub open spec fn bounded_text(s: Seq<char>) -> Seq<char> {
    if encode_utf8(s).len() <= MAX_LABEL_BYTES {
        s
    } else {
        s.take(fitting(s, MAX_LABEL_BYTES as nat) as int) + TRUNCATION_MARKER@
    }
}

/// The number of bytes that a character is encoded in.
fn width(c: char) -> (r: usize)
    ensures
        r == encode_scalar(c as u32).len(),
        1 <= r <= 4,
{
    let code: u32 = c as u32;
    if code < 0x80 {
        1
    } else if code < 0x800 {
        2
    } else if code < 0x10000 {
        3
    } else {
        4
    }
}

fn truncate(text: String) -> (r: String)
    ensures
        r@ == bounded_text(text@),
{
    if text.as_str().as_bytes().len() <= MAX_LABEL_BYTES {
        return text;
    }
    let chars = chars_of(text.as_str());
    let ghost s = text@;
    let mut left: usize = MAX_LABEL_BYTES;
    let mut n: usize = 0;
    assert(s.skip(0) =~= s);
    while n < chars.len() && width(chars[n]) <= left
        invariant
            n <= chars.len(),
            chars@ == s,
            n + fitting(s.skip(n as int), left as nat) == fitting(s, MAX_LABEL_BYTES as nat),
        decreases chars.len() - n,
    {
        let ghost rest = s.skip(n as int);
        assert(rest[0] == s[n as int]);
        assert(rest.drop_first() =~= s.skip(n + 1));
        left = left - width(chars[n]);
        n = n + 1;
    }
    proof {
        let rest = s.skip(n as int);
        if n < chars.len() {
            assert(rest[0] == s[n as int]);
        }
        assert(fitting(rest, left as nat) == 0);
        assert(s.take(n as int) =~= s.subrange(0, n as int));
    }
    let mut out = text_of(&chars, 0, n);
    out.append(TRUNCATION_MARKER);
    out
}

/// A label reduced to the quoted, single-line, bounded text a diagram may
/// carry.
pub open spec fn sanitized(label: Seq<char>) -> Seq<char> {
    bounded_text(interposed(words(cleaned(label)), " "@))
}

/// Reduce a label to the quoted, single-line, bounded text a diagram may carry.
///
/// A label comes from a repository that is not controlled here: a path can
/// contain a quote, a newline, or a control character, and Mermaid reads all
/// three as structure. Control characters become spaces, whitespace runs become
/// one space, quotes are dropped, and what is left is truncated on a character
/// boundary.
#[must_use]
pub fn sanitize(label: &str) -> (r: String)
    ensures
        r@ == sanitized(label@),
{
    truncate(join_all(&words_of(clean(label).as_str()), " "))
}

/// The text a node's box shows: its label, and its status unless it is
/// unchanged.
pub open spec fn label_of(node: NodeView) -> Seq<char> {
    if node.status == NodeStatus::Unchanged {
        sanitized(node.label)
    } else {
        sanitized(node.label) + " · "@ + node_status_word(node.status)
    }
}

fn label(node: &Node) -> (r: String)
    ensures
        r@ == label_of(node@),
{
    let own = sanitize(node.label.as_str());
    if node.status == NodeStatus::Unchanged {
        own
    } else {
        join3(own.as_str(), " · ", node.status.name())
    }
}

/// The declaration of a node: its key, with the label quoted.
pub open spec fn declaration_of(node: NodeView) -> Seq<char> {
    node.key + "[\""@ + label_of(node) + "\"]"@
}

fn declaration(node: &Node) -> (r: String)
    ensures
        r@ == declaration_of(node@),
{
    let mut out = node.key.clone();
    out.append("[\"");
    out.append(label(node).as_str());
    out.append("\"]");
    out
}

/// How an edge below full confidence states it: two decimals, trailing zeros
/// trimmed.
pub open spec fn uncertainty_of(confidence: u32) -> Seq<char> {
    let tenths = (confidence / 10) as nat;
    let rest = (confidence % 10) as nat;
    if confidence == 0 {
        "~0"@
    } else if rest == 0 {
        "~0."@ + decimal(tenths)
    } else {
        "~0."@ + decimal(tenths) + decimal(rest)
    }
}

fn uncertainty(confidence: u32) -> (r: String)
    ensures
        r@ == uncertainty_of(confidence),
{
    if confidence == 0 {
        return "~0".to_owned();
    }
    let mut out = "~0.".to_owned();
    out.append(number_text((confidence / 10) as u64).as_str());
    if confidence % 10 != 0 {
        out.append(number_text((confidence % 10) as u64).as_str());
    }
    out
}

/// What the arrow between two nodes says about the edge: that it is gone, else
/// how sure it is where that is not certain, else its relation where that is a
/// re-export.
pub open spec fn arrow_of(edge: EdgeView) -> Seq<char> {
    if edge.status == EdgeStatus::Removed {
        "-. \"removed\" .->"@
    } else if resolution_confidence(edge.resolution) < 100 {
        "-. \""@ + uncertainty_of(resolution_confidence(edge.resolution)) + "\" .->"@
    } else if edge.relation == Relation::ReExports {
        "-- \"re_exports\" -->"@
    } else {
        "-->"@
    }
}

/// What the arrow between two nodes says about the edge.
///
/// A removed edge keeps the `removed` form even below full confidence: a reader
/// has to know the relationship is gone before knowing how sure the resolver
/// was. A `re_exports` edge is named, because a module that both imports and
/// forwards another would otherwise draw the same bare arrow twice.
fn arrow(edge: &Edge) -> (r: String)
    ensures
        r@ == arrow_of(edge@),
{
    if edge.status == EdgeStatus::Removed {
        return "-. \"removed\" .->".to_owned();
    }
    let confidence: u32 = edge.confidence();
    if confidence < 100 {
        return join3("-. \"", uncertainty(confidence).as_str(), "\" .->");
    }
    if edge.relation == Relation::ReExports {
        return "-- \"re_exports\" -->".to_owned();
    }
    "-->".to_owned()
}

/// A node's declaration where it is first mentioned, its key after that.
pub open spec fn mention(node: NodeView, declared: Set<Seq<char>>) -> Seq<char> {
    if declared.contains(node.id) {
        node.key
    } else {
        declaration_of(node)
    }
}

/// A node's shape declaration, or its bare key once it has been declared.
fn reference(node: &Node, declared: &mut TextSet) -> (r: String)
    ensures
        r@ == mention(node@, old(declared)@),
        final(declared)@ == old(declared)@.insert(node@.id),
{
    let ghost before = declared@;
    if declared.insert(node.id.clone()) {
        declaration(node)
    } else {
        node.key.clone()
    }
}

/// The line that draws an edge.
pub open spec fn drawn_edge(edge: EdgeView, from: NodeView, to: NodeView, declared: Set<Seq<char>>) -> Seq<char> {
    "    "@ + mention(from, declared) + " "@ + arrow_of(edge) + " "@ + mention(to, declared.insert(from.id)) + "\n"@
}

/// The lines that draw edges, in order, with some nodes declared already. An
/// edge whose end is no node has none.
pub open spec fn drawn_edges(nodes: Seq<NodeView>, edges: Seq<EdgeView>, declared: Set<Seq<char>>) -> Seq<char>
    decreases edges.len(),
{
    if edges.len() == 0 {
        Seq::empty()
    } else {
        let edge = edges[0];
        match (node_with(nodes, edge.from), node_with(nodes, edge.to)) {
            (Some(from), Some(to)) => drawn_edge(edge, from, to, declared) + drawn_edges(
                nodes,
                edges.drop_first(),
                declared.insert(from.id).insert(to.id),
            ),
            _ => drawn_edges(nodes, edges.drop_first(), declared),
        }
    }
}

/// The nodes that are declared once edges are drawn.
pub open spec fn declared_after(nodes: Seq<NodeView>, edges: Seq<EdgeView>, declared: Set<Seq<char>>) -> Set<Seq<char>>
    decreases edges.len(),
{
    if edges.len() == 0 {
        declared
    } else {
        let edge = edges[0];
        match (node_with(nodes, edge.from), node_with(nodes, edge.to)) {
            (Some(from), Some(to)) => declared_after(nodes, edges.drop_first(), declared.insert(from.id).insert(to.id)),
            _ => declared_after(nodes, edges.drop_first(), declared),
        }
    }
}

/// The lines that declare the nodes that are not declared yet.
pub open spec fn declared_nodes(nodes: Seq<NodeView>, declared: Set<Seq<char>>) -> Seq<char>
    decreases nodes.len(),
{
    if nodes.len() == 0 {
        Seq::empty()
    } else {
        (if declared.contains(nodes[0].id) {
            Seq::empty()
        } else {
            "    "@ + declaration_of(nodes[0]) + "\n"@
        }) + declared_nodes(nodes.drop_first(), declared.insert(nodes[0].id))
    }
}

/// The lines that give nodes their styles.
pub open spec fn classed_nodes(nodes: Seq<NodeView>) -> Seq<char>
    decreases nodes.len(),
{
    if nodes.len() == 0 {
        Seq::empty()
    } else {
        "    class "@ + nodes[0].key + " "@ + node_status_word(nodes[0].status) + "\n"@ + classed_nodes(nodes.drop_first())
    }
}

/// The line that defines the style of a status.
pub open spec fn class_line(status: NodeStatus) -> Seq<char> {
    "    classDef "@ + node_status_word(status) + " "@ + style_of(status) + "\n"@
}

/// The fixed lines that every document opens with.
pub open spec fn diagram_head() -> Seq<char> {
    "flowchart LR\n"@ + class_line(NodeStatus::Added) + class_line(NodeStatus::Removed) + class_line(NodeStatus::Modified) + class_line(
        NodeStatus::Unchanged,
    )
}

/// The condition of a loop that it runs through more than one node. A node that
/// only leads to itself needs no box: its arrow says as much.
pub open spec fn is_wide() -> spec_fn(Set<Seq<char>>) -> bool {
    |members: Set<Seq<char>>| listed(members).len() > 1
}

/// The loops that are drawn as boxes, whichever revision closes them.
pub open spec fn boxed_loops(graph: GraphView) -> Seq<Set<Seq<char>>> {
    picked(loops(graph, crate::graph::View::Delta), is_wide())
}

/// The lines that declare the nodes of a loop inside its box, in the graph's
/// order.
pub open spec fn boxed_nodes(nodes: Seq<NodeView>, members: Set<Seq<char>>) -> Seq<char>
    decreases nodes.len(),
{
    if nodes.len() == 0 {
        Seq::empty()
    } else {
        let before = boxed_nodes(nodes.drop_last(), members);
        if members.contains(nodes.last().id) {
            before + ("        "@ + declaration_of(nodes.last()) + "\n"@)
        } else {
            before
        }
    }
}

/// The box of a loop, with its number.
pub open spec fn box_lines(nodes: Seq<NodeView>, members: Set<Seq<char>>, number: nat) -> Seq<char> {
    "    subgraph c"@ + decimal(number) + "[\"cycle · "@ + decimal(listed(members).len()) + " nodes\"]\n"@ + boxed_nodes(nodes, members)
        + "    end\n"@
}

/// The boxes of loops, numbered in order.
pub open spec fn boxes(nodes: Seq<NodeView>, around: Seq<Set<Seq<char>>>) -> Seq<char>
    decreases around.len(),
{
    if around.len() == 0 {
        Seq::empty()
    } else {
        boxes(nodes, around.drop_last()) + box_lines(nodes, around.last(), (around.len() - 1) as nat)
    }
}

/// The nodes that stand in boxes.
pub open spec fn boxed(around: Seq<Set<Seq<char>>>) -> Set<Seq<char>> {
    Set::new(|id: Seq<char>| exists|k: int| 0 <= k < around.len() && (#[trigger] around[k]).contains(id))
}

/// The document of a graph: the fixed head, a box for each loop, a line for each
/// edge, the nodes that no edge touches, and the style of every node.
pub open spec fn diagram(graph: GraphView) -> Seq<char> {
    let around = boxed_loops(graph);
    diagram_head() + boxes(graph.nodes, around) + drawn_edges(graph.nodes, graph.edges, boxed(around)) + declared_nodes(
        graph.nodes,
        declared_after(graph.nodes, graph.edges, boxed(around)),
    ) + classed_nodes(graph.nodes)
}

fn draw_boxed_nodes(graph: &Graph, members: &TextSet) -> (r: String)
    ensures
        r@ == boxed_nodes(graph@.nodes, members@),
{
    let nodes = graph.nodes();
    let ghost views = graph@.nodes;
    let mut out = String::new();
    let mut i: usize = 0;
    assert(out@ =~= boxed_nodes(views.take(0), members@));
    while i < nodes.len()
        invariant
            i <= nodes.len(),
            views == node_views(nodes@),
            out@ == boxed_nodes(views.take(i as int), members@),
        decreases nodes.len() - i,
    {
        assert(views.take(i + 1).drop_last() =~= views.take(i as int));
        assert(views.take(i + 1).last() == nodes@[i as int]@);
        if members.contains(nodes[i].id.as_str()) {
            out.append(join3("        ", declaration(&nodes[i]).as_str(), "\n").as_str());
        }
        i = i + 1;
    }
    assert(views.take(i as int) =~= views);
    out
}

fn draw_box(graph: &Graph, members: &TextSet, size: usize, number: usize) -> (r: String)
    requires
        size == listed(members@).len(),
    ensures
        r@ == box_lines(graph@.nodes, members@, number as nat),
{
    let mut out = "    subgraph c".to_owned();
    out.append(number_text(number as u64).as_str());
    out.append("[\"cycle · ");
    out.append(number_text(size as u64).as_str());
    out.append(" nodes\"]\n");
    out.append(draw_boxed_nodes(graph, members).as_str());
    out.append("    end\n");
    out
}

/// Draw every loop through several nodes as one box.
fn draw_boxes(graph: &Graph, declared: &mut TextSet) -> (r: String)
    requires
        old(declared)@ == Set::<Seq<char>>::empty(),
    ensures
        r@ == boxes(graph@.nodes, boxed_loops(graph@)),
        final(declared)@ == boxed(boxed_loops(graph@)),
{
    let cycles = graph.cycles();
    let ghost all = loops(graph@, crate::graph::View::Delta);
    let ghost wide = is_wide();
    let mut out = String::new();
    let mut number: usize = 0;
    let mut i: usize = 0;
    proof {
        assert(out@ =~= boxes(graph@.nodes, picked(all.take(0), wide)));
        assert(declared@ =~= boxed(picked(all.take(0), wide)));
    }
    while i < cycles.len()
        invariant
            i <= cycles.len(),
            number <= i,
            all == loops(graph@, crate::graph::View::Delta),
            wide == is_wide(),
            are_loops(cycles@, all),
            number == picked(all.take(i as int), wide).len(),
            out@ == boxes(graph@.nodes, picked(all.take(i as int), wide)),
            declared@ == boxed(picked(all.take(i as int), wide)),
        decreases cycles.len() - i,
    {
        let ghost done = picked(all.take(i as int), wide);
        let ghost before = declared@;
        assert(all.take(i + 1).drop_last() =~= all.take(i as int));
        assert(all.take(i + 1).last() == all[i as int]);
        assert(texts(cycles@[i as int].members@) == listed(all[i as int]));
        let size: usize = cycles[i].members.len();
        if size > 1 {
            let members = TextSet::from_list(&cycles[i].members);
            out.append(draw_box(graph, &members, size, number).as_str());
            declared.extend(&members);
            number = number + 1;
            proof {
                let now = done.push(all[i as int]);
                assert(now.drop_last() =~= done);
                assert forall|id: Seq<char>| declared@.contains(id) <==> boxed(now).contains(id) by {
                    if before.contains(id) {
                        let k = choose|k: int| 0 <= k < done.len() && (#[trigger] done[k]).contains(id);
                        assert(now[k].contains(id));
                    }
                    if all[i as int].contains(id) {
                        assert(now[done.len() as int].contains(id));
                    }
                    if boxed(now).contains(id) {
                        let k = choose|k: int| 0 <= k < now.len() && (#[trigger] now[k]).contains(id);
                        if k < done.len() {
                            assert(done[k].contains(id));
                        }
                    }
                }
                assert(declared@ =~= boxed(now));
            }
        }
        i = i + 1;
    }
    assert(all.take(i as int) =~= all);
    out
}

fn class_definition(status: NodeStatus) -> (r: String)
    ensures
        r@ == class_line(status),
{
    let mut out = "    classDef ".to_owned();
    out.append(status.name());
    out.append(" ");
    out.append(style(status));
    out.append("\n");
    out
}

fn draw_edge(edge: &Edge, from: &Node, to: &Node, declared: &mut TextSet) -> (r: String)
    ensures
        r@ == drawn_edge(edge@, from@, to@, old(declared)@),
        final(declared)@ == old(declared)@.insert(from@.id).insert(to@.id),
{
    let mut out = "    ".to_owned();
    out.append(reference(from, declared).as_str());
    out.append(" ");
    out.append(arrow(edge).as_str());
    out.append(" ");
    out.append(reference(to, declared).as_str());
    out.append("\n");
    out
}

fn draw_edges(graph: &Graph, declared: &mut TextSet) -> (r: String)
    ensures
        r@ == drawn_edges(graph@.nodes, graph@.edges, old(declared)@),
        final(declared)@ == declared_after(graph@.nodes, graph@.edges, old(declared)@),
{
    let edges = graph.edges();
    let ghost views = graph@.edges;
    let ghost nodes = graph@.nodes;
    let ghost whole = drawn_edges(nodes, views, declared@);
    let ghost all = declared_after(nodes, views, declared@);
    let mut out = String::new();
    let mut i: usize = 0;
    assert(views.skip(0) =~= views);
    assert(out@ + whole =~= whole);
    while i < edges.len()
        invariant
            i <= edges.len(),
            views == edge_views(edges@),
            nodes == graph@.nodes,
            out@ + drawn_edges(nodes, views.skip(i as int), declared@) == whole,
            declared_after(nodes, views.skip(i as int), declared@) == all,
        decreases edges.len() - i,
    {
        let edge = &edges[i];
        let ghost rest = views.skip(i as int);
        let ghost before = declared@;
        let ghost so_far = out@;
        assert(rest[0] == edge@);
        assert(rest.drop_first() =~= views.skip(i + 1));
        match (graph.node(edge.from.as_str()), graph.node(edge.to.as_str())) {
            (Some(from), Some(to)) => {
                out.append(draw_edge(edge, from, to, declared).as_str());
                assert(out@ + drawn_edges(nodes, views.skip(i + 1), declared@) =~= so_far + drawn_edges(nodes, rest, before));
            },
            _ => {},
        }
        i = i + 1;
    }
    assert(views.skip(i as int) =~= Seq::<EdgeView>::empty());
    assert(out@ + Seq::<char>::empty() =~= out@);
    out
}

fn declare_nodes(graph: &Graph, declared: TextSet) -> (r: String)
    ensures
        r@ == declared_nodes(graph@.nodes, declared@),
{
    let nodes = graph.nodes();
    let ghost views = graph@.nodes;
    let ghost whole = declared_nodes(views, declared@);
    let mut declared = declared;
    let mut out = String::new();
    let mut i: usize = 0;
    assert(views.skip(0) =~= views);
    assert(out@ + whole =~= whole);
    while i < nodes.len()
        invariant
            i <= nodes.len(),
            views == node_views(nodes@),
            out@ + declared_nodes(views.skip(i as int), declared@) == whole,
        decreases nodes.len() - i,
    {
        let ghost rest = views.skip(i as int);
        let ghost before = declared@;
        let ghost so_far = out@;
        assert(rest[0] == nodes@[i as int]@);
        assert(rest.drop_first() =~= views.skip(i + 1));
        if declared.insert(nodes[i].id.clone()) {
            out.append(join3("    ", declaration(&nodes[i]).as_str(), "\n").as_str());
        }
        assert(out@ + declared_nodes(views.skip(i + 1), declared@) =~= so_far + declared_nodes(rest, before));
        i = i + 1;
    }
    assert(views.skip(i as int) =~= Seq::<NodeView>::empty());
    assert(out@ + Seq::<char>::empty() =~= out@);
    out
}

fn class_nodes(graph: &Graph) -> (r: String)
    ensures
        r@ == classed_nodes(graph@.nodes),
{
    let nodes = graph.nodes();
    let ghost views = graph@.nodes;
    let ghost whole = classed_nodes(views);
    let mut out = String::new();
    let mut i: usize = 0;
    assert(views.skip(0) =~= views);
    assert(out@ + whole =~= whole);
    while i < nodes.len()
        invariant
            i <= nodes.len(),
            views == node_views(nodes@),
            out@ + classed_nodes(views.skip(i as int)) == whole,
        decreases nodes.len() - i,
    {
        let ghost rest = views.skip(i as int);
        let ghost so_far = out@;
        assert(rest[0] == nodes@[i as int]@);
        assert(rest.drop_first() =~= views.skip(i + 1));
        let mut line = "    class ".to_owned();
        line.append(nodes[i].key.as_str());
        line.append(" ");
        line.append(nodes[i].status.name());
        line.append("\n");
        out.append(line.as_str());
        assert(out@ + classed_nodes(views.skip(i + 1)) =~= so_far + classed_nodes(rest));
        i = i + 1;
    }
    assert(views.skip(i as int) =~= Seq::<NodeView>::empty());
    assert(out@ + Seq::<char>::empty() =~= out@);
    out
}

/// Render the graph as a Mermaid `flowchart` document.
///
/// Everything here comes from the graph's own order and keys: the status block
/// is fixed, a loop through several nodes is one box, each node's shape is
/// declared where the node first appears and referred to by key after that, and the class assignments repeat the node
/// order. A node no kept edge touches still belongs in the document.
#[must_use]
pub fn mermaid(graph: &Graph) -> (r: String)
    ensures
        r@ == diagram(graph@),
{
    let mut out = "flowchart LR\n".to_owned();
    out.append(class_definition(NodeStatus::Added).as_str());
    out.append(class_definition(NodeStatus::Removed).as_str());
    out.append(class_definition(NodeStatus::Modified).as_str());
    out.append(class_definition(NodeStatus::Unchanged).as_str());
    let mut declared = TextSet::new();
    out.append(draw_boxes(graph, &mut declared).as_str());
    out.append(draw_edges(graph, &mut declared).as_str());
    out.append(declare_nodes(graph, declared).as_str());
    out.append(class_nodes(graph).as_str());
    out
}

/// Whether every character of a text satisfies a condition.
pub open spec fn every_char(s: Seq<char>, keep: spec_fn(char) -> bool) -> bool {
    forall|i: int| 0 <= i < s.len() ==> keep(#[trigger] s[i])
}

/// The condition of being a character that a diagram reads as nothing else: no
/// quote and no control character, a newline among them.
pub open spec fn harmless() -> spec_fn(char) -> bool {
    |c: char| c != '"' && !is_control(c)
}

proof fn lemma_cleaned_harmless(label: Seq<char>)
    ensures
        every_char(cleaned(label), harmless()),
    decreases label.len(),
{
    if label.len() > 0 {
        lemma_cleaned_harmless(label.drop_last());
    }
}

proof fn lemma_words_keep(s: Seq<char>, keep: spec_fn(char) -> bool)
    requires
        every_char(s, keep),
    ensures
        forall|i: int| 0 <= i < words(s).len() ==> every_char(#[trigger] words(s)[i], keep),
    decreases s.len(),
{
    if s.len() > 0 {
        if crate::text::is_space(s[0]) {
            assert(every_char(s.drop_first(), keep));
            lemma_words_keep(s.drop_first(), keep);
            let rest = words(s.drop_first());
            assert(words(s) == rest);
            assert forall|i: int| 0 <= i < words(s).len() implies every_char(#[trigger] words(s)[i], keep) by {
                assert(every_char(rest[i], keep));
            }
        } else {
            let n = crate::text::span(s, |c: char| !crate::text::is_space(c));
            crate::text::lemma_span_holds(s, |c: char| !crate::text::is_space(c));
            assert(every_char(s.take(n as int), keep));
            if 0 < n <= s.len() {
                assert(every_char(s.skip(n as int), keep)) by {
                    assert forall|i: int| 0 <= i < s.skip(n as int).len() implies keep(#[trigger] s.skip(n as int)[i]) by {
                        assert(keep(s[n + i]));
                    }
                }
                lemma_words_keep(s.skip(n as int), keep);
                assert(words(s) == seq![s.take(n as int)] + words(s.skip(n as int)));
                assert forall|i: int| 0 <= i < words(s).len() implies every_char(#[trigger] words(s)[i], keep) by {
                    if i > 0 {
                        let rest = words(s.skip(n as int));
                        assert(every_char(rest[i - 1], keep));
                        assert(words(s)[i] == rest[i - 1]);
                    }
                }
            } else {
                assert(words(s) =~= seq![s.take(n as int)]);
                assert(words(s)[0] == s.take(n as int));
            }
        }
    }
}

proof fn lemma_spaced_keeps(words: Seq<Seq<char>>, keep: spec_fn(char) -> bool)
    requires
        keep(' '),
        forall|i: int| 0 <= i < words.len() ==> every_char(#[trigger] words[i], keep),
    ensures
        every_char(interposed(words, " "@), keep),
    decreases words.len(),
{
    reveal_strlit(" ");
    if words.len() == 1 {
        assert(every_char(words[0], keep));
    } else if words.len() > 1 {
        let shorter = words.drop_last();
        assert forall|i: int| 0 <= i < shorter.len() implies every_char(#[trigger] shorter[i], keep) by {
            assert(every_char(words[i], keep));
        }
        lemma_spaced_keeps(shorter, keep);
        assert(every_char(words[words.len() - 1], keep));
        assert(every_char(words.last(), keep));
    }
}

proof fn lemma_encode_concat(a: Seq<char>, b: Seq<char>)
    ensures
        encode_utf8(a + b) == encode_utf8(a) + encode_utf8(b),
    decreases a.len(),
{
    if a.len() == 0 {
        assert(a + b =~= b);
        assert(encode_utf8(a) + encode_utf8(b) =~= encode_utf8(b));
    } else {
        lemma_encode_concat(a.drop_first(), b);
        assert((a + b).drop_first() =~= a.drop_first() + b);
        assert(encode_utf8(a + b) =~= encode_utf8(a) + encode_utf8(b));
    }
}

proof fn lemma_fitting(s: Seq<char>, budget: nat)
    ensures
        fitting(s, budget) <= s.len(),
        encode_utf8(s.take(fitting(s, budget) as int)).len() <= budget,
    decreases s.len(),
{
    let n = fitting(s, budget);
    if n == 0 {
        assert(s.take(0) =~= Seq::<char>::empty());
    } else {
        let left = (budget - encode_scalar(s[0] as u32).len()) as nat;
        lemma_fitting(s.drop_first(), left);
        assert(s.take(n as int).drop_first() =~= s.drop_first().take(n - 1));
    }
}

/// What a label is reduced to is one line that a quote cannot end early and
/// that never outgrows the diagram's budget and its marker.
pub proof fn lemma_sanitized_is_safe(label: Seq<char>)
    ensures
        every_char(sanitized(label), harmless()),
        encode_utf8(sanitized(label)).len() <= MAX_LABEL_BYTES + 3,
{
    let clean = cleaned(label);
    let whole = interposed(words(clean), " "@);
    lemma_cleaned_harmless(label);
    lemma_words_keep(clean, harmless());
    lemma_spaced_keeps(words(clean), harmless());
    lemma_fitting(whole, MAX_LABEL_BYTES as nat);
    reveal_strlit("...");
    let marker = TRUNCATION_MARKER@;
    assert(marker =~= seq!['.', '.', '.']);
    let dots = encode_utf8(marker);
    reveal_with_fuel(encode_utf8, 4);
    assert(dots.len() == 3);
    if encode_utf8(whole).len() > MAX_LABEL_BYTES {
        let head = whole.take(fitting(whole, MAX_LABEL_BYTES as nat) as int);
        assert(every_char(head, harmless()));
        assert(every_char(marker, harmless()));
        lemma_encode_concat(head, marker);
    }
}

} // verus!
