//! How functions and calls are named, and in which order functions stand.

use vstd::prelude::*;

use crate::collections::in_sequence;
use crate::languages::syntax::{child, node_source, parent, NodeView};
use crate::languages::typescript::{
    argument_from, call_segment, called, cleaned, collected_from, definition_order, definition_rank, given_name, inventory_of, scope, Collected,
};
use crate::languages::{text_hash, DefinitionView, FunctionKind, Language};
use crate::laws::modules::lemma_parent_is_nearest;
use crate::order::{by_rank, lawful, lemma_lawful_by, lemma_lawful_otherwise, lemma_numbers_lawful, lemma_sorted_by_rank, lemma_texts_lawful};
use crate::text::{decimal, is_space, lemma_span, spaces, trim_by, trim_end_by, Rank};

verus! {

/// Whether a node can stand in front of what is called.
pub open spec fn can_receive(node: NodeView) -> bool {
    node.kind == "identifier"@ || node.kind == "this"@ || node.kind == "super"@
}

/// A call of a plain name calls that name; a call of a property behind a name,
/// `this` or `super` calls the property on it, be it written behind a dot or as
/// a string in brackets.
pub proof fn lemma_call_is_named(nodes: Seq<NodeView>, i: int, source: Seq<char>, callee: int, object: int, member: int, name: Seq<char>, receiver: Seq<char>)
    requires
        nodes[i].kind == "call_expression"@,
        child(nodes, i, "function"@) == Some(callee),
    ensures
        nodes[callee].kind == "identifier"@ && node_source(nodes, callee, source) == Some(name) ==> called(nodes, i, source) == Some(
            (name, None::<Seq<char>>),
        ),
        nodes[callee].kind == "member_expression"@ && child(nodes, callee, "object"@) == Some(object) && child(nodes, callee, "property"@) == Some(member)
            && can_receive(nodes[object]) && nodes[member].kind == "property_identifier"@ && node_source(nodes, object, source) == Some(receiver)
            && cleaned(nodes, Some(member), source) == Some(name) ==> called(nodes, i, source) == Some((name, Some(receiver))),
        nodes[callee].kind == "subscript_expression"@ && child(nodes, callee, "object"@) == Some(object) && child(nodes, callee, "index"@) == Some(member)
            && can_receive(nodes[object]) && nodes[member].kind == "string"@ && node_source(nodes, object, source) == Some(receiver) && cleaned(
            nodes,
            Some(member),
            source,
        ) == Some(name) ==> called(nodes, i, source) == Some((name, Some(receiver))),
{
    reveal_strlit("member_expression");
    reveal_strlit("subscript_expression");
    reveal_strlit("identifier");
    assert("member_expression"@.len() != "identifier"@.len() && "subscript_expression"@.len() != "identifier"@.len());
    assert("member_expression"@.len() != "subscript_expression"@.len());
}

proof fn lemma_argument(nodes: Seq<NodeView>, list: int, j: int, first: int)
    requires
        0 <= list < j <= first < nodes.len(),
        parent(nodes, first) == Some(list),
        nodes[first].kind != "("@,
        forall|k: int| j <= k < first ==> !(#[trigger] parent(nodes, k) == Some(list) && nodes[k].kind != "("@),
    ensures
        argument_from(nodes, list, j) == Some(first),
    decreases first - j,
{
    lemma_parent_is_nearest(nodes, first, list);
    assert(nodes[j].depth > nodes[list].depth);
    if j < first {
        assert(!(parent(nodes, j) == Some(list) && nodes[j].kind != "("@));
        lemma_argument(nodes, list, j + 1, first);
    }
}

/// A call of a plain name whose first argument is a string says both, the
/// string in quotation marks and in round brackets.
pub proof fn lemma_call_says_its_string(nodes: Seq<NodeView>, i: int, source: Seq<char>, callee: int, list: int, first: int, name: Seq<char>, text: Seq<char>)
    requires
        child(nodes, i, "function"@) == Some(callee),
        child(nodes, i, "arguments"@) == Some(list),
        0 <= list < first < nodes.len(),
        parent(nodes, first) == Some(list),
        nodes[first].kind != "("@,
        forall|k: int| list < k < first ==> !(#[trigger] parent(nodes, k) == Some(list) && nodes[k].kind != "("@),
        node_source(nodes, callee, source) == Some(name),
        cleaned(nodes, Some(first), source) == Some(text),
    ensures
        nodes[callee].kind == "identifier"@ && nodes[first].kind == "string"@ ==> call_segment(nodes, i, source) == Some(name + "(\""@ + text + "\")"@),
        nodes[callee].kind != "identifier"@ || nodes[first].kind != "string"@ ==> call_segment(nodes, i, source) is None,
{
    lemma_argument(nodes, list, list + 1, first);
}

/// Functions without a name are numbered within their scope, from one on; a
/// function with a name is not counted.
pub proof fn lemma_unnamed_are_numbered(state: Collected, nodes: Seq<NodeView>, i: int, source: Seq<char>, kind: FunctionKind)
    ensures
        ({
            let around = scope(nodes, parent(nodes, i), source, true);
            let (name, counts) = state.identity(nodes, i, source, kind);
            &&& given_name(nodes, i, source, kind) matches Some(own) ==> name == scope(nodes, parent(nodes, i), source, false) + own && counts
                == state.unnamed
            &&& given_name(nodes, i, source, kind) is None && !state.unnamed.contains_key(around) ==> name == around + "<anonymous>#"@ + decimal(1)
                && counts[around] == 1
            &&& given_name(nodes, i, source, kind) is None && state.unnamed.contains_key(around) ==> name == around + "<anonymous>#"@ + decimal(
                state.unnamed[around] + 1,
            ) && counts[around] == state.unnamed[around] + 1
        }),
        Collected::initial().unnamed == Map::<Seq<char>, nat>::empty(),
{
}

proof fn lemma_definition_order()
    ensures
        lawful(definition_order()),
{
    lemma_numbers_lawful();
    lemma_texts_lawful();
    let numbers = |a: int, b: int| crate::order::number_rank(a, b);
    let words = |a: Seq<char>, b: Seq<char>| crate::text::text_rank(a, b);
    let line = |d: DefinitionView| d.range.start_line as int;
    let column = |d: DefinitionView| d.range.start_column as int;
    let name = |d: DefinitionView| d.qualified_name;
    let label = |d: DefinitionView| crate::languages::typescript::kind_label(d.kind);
    lemma_lawful_by(numbers, line);
    lemma_lawful_by(numbers, column);
    lemma_lawful_by(words, name);
    lemma_lawful_by(words, label);
    let by_line = |a: DefinitionView, b: DefinitionView| numbers(line(a), line(b));
    let by_column = |a: DefinitionView, b: DefinitionView| numbers(column(a), column(b));
    let by_name = |a: DefinitionView, b: DefinitionView| words(name(a), name(b));
    let by_label = |a: DefinitionView, b: DefinitionView| words(label(a), label(b));
    lemma_lawful_otherwise(by_name, by_label);
    let last = |a: DefinitionView, b: DefinitionView| crate::order::otherwise(by_name(a, b), by_label(a, b));
    lemma_lawful_otherwise(by_column, last);
    let later = |a: DefinitionView, b: DefinitionView| crate::order::otherwise(by_column(a, b), last(a, b));
    lemma_lawful_otherwise(by_line, later);
    assert(definition_order() =~= |a: DefinitionView, b: DefinitionView| crate::order::otherwise(by_line(a, b), later(a, b)));
}

/// The functions of a source stand in the order in which they start.
pub proof fn lemma_functions_stand_in_order(language: Language, source: Seq<char>, nodes: Seq<NodeView>, i: int, j: int)
    requires
        inventory_of(language, source, nodes) is Ok,
        0 <= i < j < inventory_of(language, source, nodes)->Ok_0.functions.len(),
    ensures
        ({
            let a = inventory_of(language, source, nodes)->Ok_0.functions[i].range;
            let b = inventory_of(language, source, nodes)->Ok_0.functions[j].range;
            a.start_line < b.start_line || (a.start_line == b.start_line && a.start_column <= b.start_column)
        }),
{
    let all = collected_from(Collected::initial(), language, nodes, 0, source)->Ok_0.functions;
    let out = inventory_of(language, source, nodes)->Ok_0.functions;
    lemma_definition_order();
    lemma_sorted_by_rank(all, definition_order());
    assert(in_sequence(out, by_rank(definition_order())));
    assert(by_rank(definition_order())(out[i], out[j]));
    assert(definition_rank(out[i], out[j]) != Rank::After);
}

proof fn lemma_end_is_trimmed(text: Seq<char>, after: Seq<char>)
    requires
        text.len() > 0,
        !is_space(text.last()),
        forall|i: int| 0 <= i < after.len() ==> is_space(#[trigger] after[i]),
    ensures
        trim_end_by(text + after, spaces()) == text,
    decreases after.len(),
{
    let s = text + after;
    if after.len() == 0 {
        assert(s =~= text);
    } else {
        let fewer = after.drop_last();
        assert forall|i: int| 0 <= i < fewer.len() implies is_space(#[trigger] fewer[i]) by {
            assert(fewer[i] == after[i]);
        }
        assert(s.last() == after[after.len() - 1]);
        assert(s.drop_last() =~= text + fewer);
        lemma_end_is_trimmed(text, fewer);
    }
}

/// White space around a text is left out where it is trimmed, and its hash is
/// that of the text alone.
pub proof fn lemma_space_around_is_left_out(ahead: Seq<char>, text: Seq<char>, after: Seq<char>)
    requires
        text.len() > 0,
        !is_space(text[0]),
        !is_space(text.last()),
        forall|i: int| 0 <= i < ahead.len() ==> is_space(#[trigger] ahead[i]),
        forall|i: int| 0 <= i < after.len() ==> is_space(#[trigger] after[i]),
    ensures
        trim_by(ahead + text + after, spaces()) == text,
        text_hash(ahead + text + after) == text_hash(text),
{
    let s = ahead + text + after;
    let n = ahead.len();
    assert forall|i: int| 0 <= i < n implies spaces()(#[trigger] s[i]) by {
        assert(s[i] == ahead[i]);
    }
    assert(s[n as int] == text[0]);
    lemma_span(s, spaces(), n);
    assert(s.skip(n as int) =~= text + after);
    lemma_end_is_trimmed(text, after);
    lemma_span(text, spaces(), 0);
    assert(text.skip(0) =~= text);
}

} // verus!
