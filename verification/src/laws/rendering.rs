//! How a graph is drawn.

use vstd::prelude::*;
use vstd::utf8::{encode_scalar, encode_utf8};

use crate::graph::render::{
    arrow_of, bounded_text, class_line, cleaned, declaration_of, diff_line, diff_lines, fitting, label_of, sanitized, uncertainty_of,
};
use crate::graph::{node_with, EdgeStatus, EdgeView, NodeKind, NodeStatus, NodeView, Relation, Resolution};
use crate::laws::git::{is_word, lemma_words_part_at_spaces};
use crate::text::decimal;

verus! {

/// An import between two modules is drawn as a line with both paths, marked
/// with its change; another relation is named on its arrow.
pub proof fn lemma_relationship_is_a_line(edge: EdgeView, from: NodeView, to: NodeView)
    requires
        from.kind == NodeKind::Module,
        to.kind == NodeKind::Module,
    ensures
        edge.relation == Relation::Imports && edge.status == EdgeStatus::Added ==> diff_line(edge, from, to) == "+"@ + " "@ + from.path + " -> "@ + to.path
            + "\n"@,
        edge.relation == Relation::Imports && edge.status == EdgeStatus::Removed ==> diff_line(edge, from, to) == "-"@ + " "@ + from.path + " -> "@
            + to.path + "\n"@,
        edge.relation == Relation::Imports && edge.status == EdgeStatus::Unchanged ==> diff_line(edge, from, to) == " "@ + " "@ + from.path + " -> "@
            + to.path + "\n"@,
        edge.relation == Relation::TestedBy && edge.status == EdgeStatus::Added ==> diff_line(edge, from, to) == "+"@ + " "@ + from.path + (" -["@
            + "tested_by"@ + "]-> "@) + to.path + "\n"@,
        edge.relation == Relation::ReExports && edge.status == EdgeStatus::Removed ==> diff_line(edge, from, to) == "-"@ + " "@ + from.path + (" -["@
            + "re_exports"@ + "]-> "@) + to.path + "\n"@,
{
}

/// A function is drawn behind its file, and a group by its label.
pub proof fn lemma_place_is_drawn(node: NodeView)
    ensures
        node.kind == NodeKind::Function ==> crate::graph::render::place_of(node) == node.path + "::"@ + node.label,
        node.kind == NodeKind::Module ==> crate::graph::render::place_of(node) == node.path,
        node.kind == NodeKind::Group ==> crate::graph::render::place_of(node) == node.label,
{
}

/// Relationships are drawn one after the other, each on its own line.
pub proof fn lemma_lines_follow(nodes: Seq<NodeView>, first: Seq<EdgeView>, rest: Seq<EdgeView>)
    ensures
        diff_lines(nodes, first + rest) == diff_lines(nodes, first) + diff_lines(nodes, rest),
    decreases rest.len(),
{
    if rest.len() == 0 {
        assert(first + rest =~= first);
        assert(diff_lines(nodes, first) + diff_lines(nodes, rest) =~= diff_lines(nodes, first));
    } else {
        let all = first + rest;
        lemma_lines_follow(nodes, first, rest.drop_last());
        assert(all.drop_last() =~= first + rest.drop_last());
        assert(all.last() == rest.last());
        let a = diff_lines(nodes, first);
        let b = diff_lines(nodes, rest.drop_last());
        match (node_with(nodes, rest.last().from), node_with(nodes, rest.last().to)) {
            (Some(from), Some(to)) => {
                assert(a + b + diff_line(rest.last(), from, to) =~= a + (b + diff_line(rest.last(), from, to)));
            },
            _ => {},
        }
    }
}

/// One relationship between nodes of the graph is one line.
pub proof fn lemma_one_line(nodes: Seq<NodeView>, edge: EdgeView, from: NodeView, to: NodeView)
    requires
        node_with(nodes, edge.from) == Some(from),
        node_with(nodes, edge.to) == Some(to),
    ensures
        diff_lines(nodes, seq![edge]) == diff_line(edge, from, to),
{
    let one = seq![edge];
    assert(one.drop_last() =~= Seq::empty());
    assert(diff_lines(nodes, one.drop_last()) + diff_line(edge, from, to) =~= diff_line(edge, from, to));
}

/// Whether a character is drawn as it is.
pub open spec fn is_plain(c: char) -> bool {
    c != '"' && c as u32 >= 0x20 && !(0x7f <= c as u32 <= 0x9f)
}

proof fn lemma_cleaned(label: Seq<char>)
    requires
        forall|i: int| 0 <= i < label.len() ==> is_plain(#[trigger] label[i]),
    ensures
        cleaned(label) == label,
    decreases label.len(),
{
    if label.len() > 0 {
        let fewer = label.drop_last();
        assert forall|i: int| 0 <= i < fewer.len() implies is_plain(#[trigger] fewer[i]) by {
            assert(fewer[i] == label[i]);
        }
        lemma_cleaned(fewer);
        assert(is_plain(label[label.len() - 1]));
        assert(fewer.push(label.last()) =~= label);
    } else {
        assert(cleaned(label) =~= label);
    }
}

/// A name without white space, quotation marks and control characters is drawn
/// as it is where it has sixty-four bytes or fewer.
pub proof fn lemma_plain_label_is_kept(label: Seq<char>)
    requires
        is_word(label),
        forall|i: int| 0 <= i < label.len() ==> is_plain(#[trigger] label[i]),
        encode_utf8(label).len() <= 64,
    ensures
        sanitized(label) == label,
{
    lemma_cleaned(label);
    lemma_words_part_at_spaces(label, Seq::empty());
}

/// The bytes of the first characters.
pub open spec fn bytes_of(s: Seq<char>, n: nat) -> nat
    decreases n,
{
    if n == 0 || s.len() == 0 {
        0
    } else {
        encode_scalar(s[0] as u32).len() + bytes_of(s.drop_first(), (n - 1) as nat)
    }
}

/// A label over sixty-four bytes is cut behind the last character that fits,
/// and marked with three dots.
pub proof fn lemma_long_label_is_cut(s: Seq<char>)
    requires
        encode_utf8(s).len() > 64,
    ensures
        ({
            let n = fitting(s, 64);
            &&& n <= s.len()
            &&& bounded_text(s) == s.take(n as int) + "..."@
            &&& bytes_of(s, n) <= 64
            &&& n < s.len() ==> bytes_of(s, n + 1) > 64
        }),
{
    lemma_fitting(s, 64);
}

proof fn lemma_fitting(s: Seq<char>, budget: nat)
    ensures
        ({
            let n = fitting(s, budget);
            &&& n <= s.len()
            &&& bytes_of(s, n) <= budget
            &&& n < s.len() ==> bytes_of(s, n + 1) > budget
        }),
    decreases s.len(),
{
    if s.len() > 0 {
        if encode_scalar(s[0] as u32).len() <= budget {
            let rest = s.drop_first();
            lemma_fitting(rest, (budget - encode_scalar(s[0] as u32).len()) as nat);
        } else {
            assert(bytes_of(s.drop_first(), 0) == 0);
            assert(bytes_of(s, 1) == encode_scalar(s[0] as u32).len() + bytes_of(s.drop_first(), 0));
        }
    }
}

/// What is left out of a drawn label are quotation marks; a control character
/// is drawn as a space.
pub proof fn lemma_label_is_cleaned(label: Seq<char>, c: char)
    ensures
        c == '"' ==> cleaned(label.push(c)) == cleaned(label),
        c != '"' && (c as u32 <= 0x1f || 0x7f <= c as u32 <= 0x9f) ==> cleaned(label.push(c)) == cleaned(label).push(' '),
        is_plain(c) ==> cleaned(label.push(c)) == cleaned(label).push(c),
{
    assert(label.push(c).drop_last() =~= label);
}

/// A changed node is drawn with the word for its change, an unchanged one
/// without, each in a box under its key.
pub proof fn lemma_node_is_drawn(node: NodeView)
    ensures
        node.status == NodeStatus::Unchanged ==> label_of(node) == sanitized(node.label),
        node.status == NodeStatus::Added ==> label_of(node) == sanitized(node.label) + " · "@ + "added"@,
        node.status == NodeStatus::Removed ==> label_of(node) == sanitized(node.label) + " · "@ + "removed"@,
        node.status == NodeStatus::Modified ==> label_of(node) == sanitized(node.label) + " · "@ + "modified"@,
        declaration_of(node) == node.key + "[\""@ + label_of(node) + "\"]"@,
{
}

/// A relationship that was removed is drawn broken and named so; one that is
/// not certain broken with its confidence; a re-export named; any other plain.
pub proof fn lemma_arrow_is_drawn(edge: EdgeView)
    ensures
        edge.status == EdgeStatus::Removed ==> arrow_of(edge) == "-. \"removed\" .->"@,
        edge.status != EdgeStatus::Removed && (edge.resolution == Resolution::TestImportsModule || edge.resolution == Resolution::ReExportedSymbol)
            ==> arrow_of(edge) == "-. \""@ + uncertainty_of(90) + "\" .->"@,
        edge.status != EdgeStatus::Removed && edge.resolution == Resolution::TestNameMatchesModule ==> arrow_of(edge) == "-. \""@ + uncertainty_of(80)
            + "\" .->"@,
        edge.status != EdgeStatus::Removed && edge.resolution == Resolution::PropertyNameMatch ==> arrow_of(edge) == "-. \""@ + uncertainty_of(50)
            + "\" .->"@,
        edge.status != EdgeStatus::Removed && edge.resolution == Resolution::ExportClause && edge.relation == Relation::ReExports ==> arrow_of(edge)
            == "-- \"re_exports\" -->"@,
        edge.status != EdgeStatus::Removed && (edge.resolution == Resolution::ResolvedSpecifier || edge.resolution == Resolution::Declaration
            || edge.resolution == Resolution::DirectLocalSymbol || edge.resolution == Resolution::ImportedSymbol) && edge.relation != Relation::ReExports
            ==> arrow_of(edge) == "-->"@,
{
}

/// A confidence is drawn as a share of one, without a closing zero.
pub proof fn lemma_confidence_is_drawn(tens: u32, ones: u32)
    requires
        0 < tens < 10,
        ones < 10,
    ensures
        ones == 0 ==> uncertainty_of((10 * tens + ones) as u32) == "~0."@ + decimal(tens as nat),
        ones > 0 ==> uncertainty_of((10 * tens + ones) as u32) == "~0."@ + decimal(tens as nat) + decimal(ones as nat),
{
    let confidence = (10 * tens + ones) as u32;
    assert(confidence / 10 == tens && confidence % 10 == ones) by (nonlinear_arith)
        requires
            confidence == 10 * tens + ones,
            ones < 10,
    ;
}

/// Each status is drawn in colours of its own.
pub proof fn lemma_statuses_are_coloured()
    ensures
        class_line(NodeStatus::Added) == "    classDef "@ + "added"@ + " "@ + "fill:#e6ffed,stroke:#22863a"@ + "\n"@,
        class_line(NodeStatus::Removed) == "    classDef "@ + "removed"@ + " "@ + "fill:#ffeef0,stroke:#cb2431"@ + "\n"@,
        class_line(NodeStatus::Modified) == "    classDef "@ + "modified"@ + " "@ + "fill:#fff5b1,stroke:#b08800"@ + "\n"@,
        class_line(NodeStatus::Unchanged) == "    classDef "@ + "unchanged"@ + " "@ + "fill:#f6f8fa,stroke:#d1d5db"@ + "\n"@,
{
}

} // verus!
