//! Which requests for a graph are answered, and how.

use vstd::prelude::*;
use vstd::utf8::encode_utf8;

use crate::graph::recommend::{is_recommended, reasons_for};
use crate::graph::render::{diagram, diff_lines};
use crate::graph::{relation_word, Direction, GraphView as GraphFacts, Relation};
use crate::order::lemma_picked;
use crate::query::detail::place_of;
use crate::query::graph::{
    affinity_rank, answered, changed_paths_of, is_named, listed_names, named_root, offered_relations, relation_words, relations_named, renderings_named,
    requested_roots, rest_text, roots_of, shared_end, unsupported_from, validated, Renderings, RequestFacts, RequestedFacts, RootFacts,
};
use crate::query::impact::base_of;
use crate::query::rows::path_of;
use crate::result::{FileView, ResultView};
use crate::text::{decimal, spaces, trim_by, Rank};

verus! {

/// A request is drawn as a list of lines where it names `diff`, as a diagram
/// where it names `mermaid`, and refused where it names anything else.
pub proof fn lemma_renderings_are_read(names: Seq<Seq<char>>)
    ensures
        renderings_named(names) is Ok <==> forall|i: int| 0 <= i < names.len() ==> #[trigger] names[i] == "diff"@ || names[i] == "mermaid"@,
        renderings_named(names) matches Ok(render) ==> (render.diff <==> names.contains("diff"@)) && (render.mermaid <==> names.contains("mermaid"@)),
    decreases names.len(),
{
    reveal_strlit("diff");
    reveal_strlit("mermaid");
    assert("diff"@.len() != "mermaid"@.len());
    let n = names.len() as int;
    if n > 0 {
        let fewer = names.drop_last();
        lemma_renderings_are_read(fewer);
        assert(forall|i: int| 0 <= i < fewer.len() ==> #[trigger] fewer[i] == names[i]);
        assert(names =~= fewer.push(names.last()));
        crate::collections::lemma_push_contains(fewer, names.last());
        assert(names.contains("diff"@) <==> fewer.contains("diff"@) || names.last() == "diff"@);
        assert(names.contains("mermaid"@) <==> fewer.contains("mermaid"@) || names.last() == "mermaid"@);
        assert(names[n - 1] == names.last());
        if renderings_named(fewer) is Ok {
            assert forall|i: int| 0 <= i < n - 1 implies #[trigger] names[i] == "diff"@ || names[i] == "mermaid"@ by {
                assert(fewer[i] == names[i]);
            }
        } else {
            let i = choose|i: int| 0 <= i < fewer.len() && !(#[trigger] fewer[i] == "diff"@ || fewer[i] == "mermaid"@);
            assert(names[i] == fewer[i]);
        }
    } else {
        assert(!names.contains("diff"@) && !names.contains("mermaid"@));
    }
}

proof fn lemma_unsupported(names: Seq<Seq<char>>, from: int)
    requires
        0 <= from <= names.len(),
    ensures
        unsupported_from(names, from) is None <==> forall|i: int|
            from <= i < names.len() ==> relation_words(offered_relations()).contains(#[trigger] names[i]),
    decreases names.len() - from,
{
    if from < names.len() {
        lemma_unsupported(names, from + 1);
        if relation_words(offered_relations()).contains(names[from]) {
            assert forall|i: int| from <= i < names.len() && unsupported_from(names, from + 1) is None implies relation_words(
                offered_relations(),
            ).contains(#[trigger] names[i]) by {}
        }
    }
}

/// Where no relation is named, imports and tests are asked for. Else the request
/// asks for the relations it names, of five that it may name, and is refused
/// where it names another.
pub proof fn lemma_relations_are_read(names: Seq<Seq<char>>, relation: Relation)
    ensures
        names.len() == 0 ==> relations_named(names) == Ok::<Seq<Relation>, Seq<char>>(seq![Relation::Imports, Relation::TestedBy]),
        names.len() > 0 ==> (relations_named(names) is Ok <==> forall|i: int|
            0 <= i < names.len() ==> #[trigger] names[i] == "imports"@ || names[i] == "tested_by"@ || names[i] == "calls"@ || names[i] == "contains"@
                || names[i] == "re_exports"@),
        names.len() > 0 ==> (relations_named(names) matches Ok(relations) ==> (relations.contains(relation) <==> (relation == Relation::Imports
            && names.contains("imports"@)) || (relation == Relation::TestedBy && names.contains("tested_by"@)) || (relation == Relation::Calls
            && names.contains("calls"@)) || (relation == Relation::Contains && names.contains("contains"@)) || (relation == Relation::ReExports
            && names.contains("re_exports"@)))),
{
    let all = offered_relations();
    let words = relation_words(all);
    assert(words.len() == 5);
    assert(words[0] == "imports"@);
    assert(words[1] == "tested_by"@);
    assert(words[2] == "calls"@);
    assert(words[3] == "contains"@);
    assert(words[4] == "re_exports"@);
    assert forall|name: Seq<char>| #[trigger] words.contains(name) <==> name == "imports"@ || name == "tested_by"@ || name == "calls"@ || name
        == "contains"@ || name == "re_exports"@ by {
        if words.contains(name) {
            let i = choose|i: int| 0 <= i < words.len() && words[i] == name;
            assert(i == 0 || i == 1 || i == 2 || i == 3 || i == 4);
        }
    }
    lemma_unsupported(names, 0);
    if unsupported_from(names, 0) is None {
        assert forall|i: int| 0 <= i < names.len() implies #[trigger] names[i] == "imports"@ || names[i] == "tested_by"@ || names[i] == "calls"@
            || names[i] == "contains"@ || names[i] == "re_exports"@ by {
            assert(words.contains(names[i]));
        }
    } else {
        let i = choose|i: int| 0 <= i < names.len() && !words.contains(#[trigger] names[i]);
        assert(!(names[i] == "imports"@ || names[i] == "tested_by"@ || names[i] == "calls"@ || names[i] == "contains"@ || names[i] == "re_exports"@));
    }
    lemma_picked(all, is_named(names));
    assert(all[0] == Relation::Imports && all[1] == Relation::TestedBy && all[2] == Relation::Calls && all[3] == Relation::Contains && all[4]
        == Relation::ReExports);
    assert(all.contains(relation) <==> relation == Relation::Imports || relation == Relation::TestedBy || relation == Relation::Calls || relation
        == Relation::Contains || relation == Relation::ReExports) by {
        if all.contains(relation) {
            let i = choose|i: int| 0 <= i < all.len() && all[i] == relation;
            assert(i == 0 || i == 1 || i == 2 || i == 3 || i == 4);
        }
    }
}

/// What two sequences share at their ends is the longest common end.
pub proof fn lemma_shared_end_is_longest(a: Seq<u8>, b: Seq<u8>)
    ensures
        ({
            let n = shared_end(a, b);
            &&& n <= a.len() && n <= b.len()
            &&& a.skip(a.len() - n) == b.skip(b.len() - n)
            &&& n < a.len() && n < b.len() ==> a[a.len() - n - 1] != b[b.len() - n - 1]
        }),
    decreases a.len(),
{
    if a.len() == 0 || b.len() == 0 || a.last() != b.last() {
        assert(a.skip(a.len() as int) =~= b.skip(b.len() as int));
    } else {
        let x = a.drop_last();
        let y = b.drop_last();
        lemma_shared_end_is_longest(x, y);
        let m = shared_end(x, y);
        let n = m + 1;
        let p = x.skip(x.len() - m);
        let q = y.skip(y.len() - m);
        assert(a.skip(a.len() - n) =~= p.push(a.last()));
        assert(b.skip(b.len() - n) =~= q.push(b.last()));
    }
}

/// Paths are offered by how close they are to the one asked for: those with its
/// name first, and then those that share more of its end.
pub proof fn lemma_close_paths_come_first(requested: Seq<char>, a: Seq<char>, b: Seq<char>)
    ensures
        base_of(a) == base_of(requested) && base_of(b) != base_of(requested) ==> affinity_rank(requested, a, b) == Rank::Before,
        (base_of(a) == base_of(requested)) == (base_of(b) == base_of(requested)) && shared_end(encode_utf8(a), encode_utf8(requested)) > shared_end(
            encode_utf8(b),
            encode_utf8(requested),
        ) ==> affinity_rank(requested, a, b) == Rank::Before,
        (base_of(a) == base_of(requested)) == (base_of(b) == base_of(requested)) && shared_end(encode_utf8(a), encode_utf8(requested)) == shared_end(
            encode_utf8(b),
            encode_utf8(requested),
        ) ==> affinity_rank(requested, a, b) == Rank::Same,
{
}

/// A graph has one root at most: a changed file, or a function of the analysis.
pub proof fn lemma_roots_are_read(files: Seq<FileView>, file: Seq<char>, function: Seq<char>)
    ensures
        roots_of(files, Some(file), Some(function)) is Err,
        roots_of(files, None, None) == Ok::<(Option<Seq<char>>, Option<Seq<char>>), Seq<char>>((None, None)),
        roots_of(files, Some(file), None) is Ok <==> exists|i: int| 0 <= i < files.len() && path_of(#[trigger] files[i]) == file,
        roots_of(files, Some(file), None) is Ok ==> roots_of(files, Some(file), None) == Ok::<(Option<Seq<char>>, Option<Seq<char>>), Seq<char>>(
            (Some(file), None),
        ),
        roots_of(files, None, Some(function)) is Ok <==> place_of(files, function, 0) is Some,
        roots_of(files, None, Some(function)) is Ok ==> roots_of(files, None, Some(function)) == Ok::<
            (Option<Seq<char>>, Option<Seq<char>>),
            Seq<char>,
        >((None, Some(function))),
{
    let paths = changed_paths_of(files);
    if paths.contains(file) {
        let i = choose|i: int| 0 <= i < paths.len() && paths[i] == file;
        assert(path_of(files[i]) == file);
    }
    if exists|i: int| 0 <= i < files.len() && path_of(#[trigger] files[i]) == file {
        let i = choose|i: int| 0 <= i < files.len() && path_of(#[trigger] files[i]) == file;
        assert(paths[i] == file);
    }
}

/// A request is taken where its roots, its relations and its renderings are,
/// and goes in both directions over the difference where it does not say.
pub proof fn lemma_request_is_taken(result: ResultView, requested: RequestedFacts)
    ensures
        validated(result, requested) is Ok <==> roots_of(result.files, requested.file, requested.function_id) is Ok && relations_named(
            requested.relations,
        ) is Ok && renderings_named(requested.render) is Ok,
        validated(result, requested) matches Ok(request) ==> {
            &&& requested.direction matches Some(direction) ==> request.direction == direction
            &&& requested.direction is None ==> request.direction == Direction::Both
            &&& requested.view matches Some(view) ==> request.view == view
            &&& requested.view is None ==> request.view == crate::graph::View::Delta
            &&& request.depth == requested.depth
            &&& request.limits == requested.limits
            &&& request.root == requested.file
            &&& request.function_root == requested.function_id
            &&& relations_named(requested.relations) == Ok::<Seq<Relation>, Seq<char>>(request.relations)
            &&& renderings_named(requested.render) == Ok::<Renderings, Seq<char>>(request.render)
        },
{
}

/// A root is told by what it is, its identity and its file.
pub proof fn lemma_root_is_told(files: Seq<FileView>, request: RequestFacts, path: Seq<char>, function: Seq<char>)
    ensures
        request.function_root is None && request.root == Some(path) ==> named_root(files, request) == Some(
            RootFacts { kind: "module"@, id: "module:"@ + path, path },
        ),
        request.function_root is None && request.root is None ==> named_root(files, request) is None,
        request.function_root == Some(function) ==> match place_of(files, function, 0) {
            Some((file, _)) => named_root(files, request) == Some(
                RootFacts { kind: "function"@, id: "function:"@ + function, path: path_of(files[file]) },
            ),
            None => named_root(files, request) is None,
        },
        request.root == Some(path) ==> requested_roots(request) == seq![path],
        request.root is None ==> requested_roots(request).len() == 0,
{
}

/// An answer tells every node and relationship of the graph in its words, what
/// was left out, and the drawings asked for and no others.
pub proof fn lemma_answer_tells_the_graph(graph: GraphFacts, render: Renderings, root: Option<RootFacts>, i: int)
    ensures
        ({
            let answer = answered(graph, render, root);
            &&& answer.root == root
            &&& answer.nodes.len() == graph.nodes.len()
            &&& answer.edges.len() == graph.edges.len()
            &&& 0 <= i < graph.nodes.len() ==> answer.nodes[i].id == graph.nodes[i].id && answer.nodes[i].key == graph.nodes[i].key
                && answer.nodes[i].label == graph.nodes[i].label && answer.nodes[i].path == graph.nodes[i].path && answer.nodes[i].kind
                == crate::graph::node_kind_word(graph.nodes[i].kind) && answer.nodes[i].status == crate::graph::node_status_word(graph.nodes[i].status)
            &&& 0 <= i < graph.edges.len() ==> answer.edges[i].from == graph.edges[i].from && answer.edges[i].to == graph.edges[i].to
                && answer.edges[i].evidence == graph.edges[i].evidence && answer.edges[i].relation == relation_word(graph.edges[i].relation)
                && answer.edges[i].status == crate::graph::edge_status_word(graph.edges[i].status) && answer.edges[i].resolution
                == crate::graph::resolution_word(graph.edges[i].resolution) && answer.edges[i].confidence == crate::graph::resolution_confidence(
                graph.edges[i].resolution,
            )
            &&& answer.truncated == graph.truncated
            &&& answer.omitted.nodes == graph.omitted_nodes && answer.omitted.edges == graph.omitted_edges
            &&& render.diff <==> answer.dependency_diff is Some
            &&& render.mermaid <==> answer.mermaid is Some
            &&& render.diff ==> answer.dependency_diff == Some(diff_lines(graph.nodes, graph.edges))
            &&& render.mermaid ==> answer.mermaid == Some(diagram(graph))
            &&& answer.recommended == is_recommended(graph)
            &&& answer.signals == reasons_for(graph)
        }),
{
}

/// What is left over is told by its number, and not where nothing is.
pub proof fn lemma_rest_is_told(remainder: nat)
    ensures
        remainder == 0 ==> rest_text(remainder).len() == 0,
        remainder > 0 ==> rest_text(remainder) == " and "@ + decimal(remainder) + " more"@,
{
}

/// A list of names is parted at its commas, and each name is taken without the
/// white space around it.
pub proof fn lemma_names_are_parted(first: Seq<char>, rest: Seq<char>)
    requires
        crate::laws::words::lacks(first, ','),
    ensures
        listed_names(first + seq![','] + rest) == seq![trim_by(first, spaces())] + listed_names(rest),
        listed_names(first) == seq![trim_by(first, spaces())],
{
    let s = first + seq![','] + rest;
    assert(s =~= first + (seq![','] + rest));
    crate::laws::words::lemma_span_up_to(first, seq![','] + rest, ',');
    assert(s.take(first.len() as int) =~= first);
    assert(s.skip(first.len() as int + 1) =~= rest);
    assert(crate::text::split_on(s, ',') == seq![first] + crate::text::split_on(rest, ','));
    assert(listed_names(s) =~= seq![trim_by(first, spaces())] + listed_names(rest));
    crate::laws::words::lemma_span_up_to(first, Seq::empty(), ',');
    assert(first + Seq::<char>::empty() =~= first);
    assert(crate::text::split_on(first, ',') =~= seq![first]);
    assert(listed_names(first) =~= seq![trim_by(first, spaces())]);
}

} // verus!
