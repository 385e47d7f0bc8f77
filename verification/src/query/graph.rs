//! Validate an impact-graph request, and project one graph into an answer.
//!
//! The model in [`crate::graph`] holds relationships and knows nothing about
//! what a caller asked for. This module is the boundary between the two: a
//! request becomes a validated [`GraphRequest`], and a graph becomes the shape
//! of an answer.

use vstd::prelude::*;
use vstd::utf8::encode_utf8;

use crate::collections::arranged;
use crate::graph::assembly::{build, described, Request, RequestView, Revisions, RevisionsView};
use crate::graph::recommend::{evaluate, is_recommended, reasons_for, signal_views, SignalView as Reason};
use crate::graph::render::{dependency_diff, diagram, diff_lines, mermaid};
use crate::graph::{
    direction_word, edge_status_word, edge_views, function_identity, module_identity, node_kind_word, node_status_word, node_views,
    relation_word, resolution_confidence, resolution_word, supported_relations, truncation_word, view_word, Direction, Edge,
    EdgeView as EdgeFacts, Graph, GraphView as GraphFacts, Limits, Node, NodeKind, NodeView as NodeFacts, Relation,
};
use crate::order::{arrange_by, by_rank, compare_numbers, number_rank, or_else, otherwise, picked};
use crate::query::detail::{all_ids, closest_function_ids, find_function, offered, place_of};
use crate::query::files::{borrowed, borrowed_text};
use crate::query::impact::{base, base_of};
use crate::query::rows::{display_path, path_of};
use crate::result::{file_views, AnalysisResult, FileView, ResultView};
use crate::text::{
    chars_of, decimal, interposed, join3, join_all, number_text, same_text, spaces, split_on, split_text, text_of, text_option, texts, trim, trim_by,
    trim_end_by, Rank,
};

verus! {

/// Which renderings a request asked for.
#[derive(Debug, Clone, Copy, PartialEq, Eq, Structural)]
pub struct Renderings {
    /// The dependency diff.
    pub diff: bool,
    /// The Mermaid diagram.
    pub mermaid: bool,
}

impl Default for Renderings {
    fn default() -> (r: Self)
        ensures
            r == (Renderings { diff: false, mermaid: false }),
    {
        Renderings { diff: false, mermaid: false }
    }
}

/// The names of the renderings that were asked for, in the fixed order.
pub open spec fn asked_names(render: Renderings) -> Seq<Seq<char>> {
    (if render.diff {
        seq!["diff"@]
    } else {
        Seq::empty()
    }) + (if render.mermaid {
        seq!["mermaid"@]
    } else {
        Seq::empty()
    })
}

impl Renderings {
    /// The asked-for renderings, named in the model's fixed order.
    ///
    /// Canonical, so two requests that asked for the same renderings in
    /// different orders are echoed identically.
    #[must_use]
    pub fn asked(self) -> (r: Vec<&'static str>)
        ensures
            borrowed(r@) == asked_names(self),
    {
        let mut asked: Vec<&'static str> = Vec::new();
        if self.diff {
            asked.push("diff");
        }
        if self.mermaid {
            asked.push("mermaid");
        }
        assert(borrowed(asked@) =~= asked_names(self));
        asked
    }
}

/// A graph request that cannot be answered as asked.
///
/// The message says which field it is and what that field accepts, so a caller
/// can correct itself in one step instead of guessing again.
#[derive(Debug, Clone, PartialEq, Eq)]
pub struct GraphRequestError {
    pub message: String,
}

/// The renderings that names ask for, or the sentence that refuses the first
/// name that is none.
pub open spec fn renderings_named(names: Seq<Seq<char>>) -> Result<Renderings, Seq<char>>
    decreases names.len(),
{
    if names.len() == 0 {
        Ok(Renderings { diff: false, mermaid: false })
    } else {
        match renderings_named(names.drop_last()) {
            Err(message) => Err(message),
            Ok(before) => if names.last() == "diff"@ {
                Ok(Renderings { diff: true, ..before })
            } else if names.last() == "mermaid"@ {
                Ok(Renderings { mermaid: true, ..before })
            } else {
                Err("`render` must be one of diff, mermaid; received `"@ + names.last() + "`"@)
            },
        }
    }
}

proof fn lemma_renderings_refused(names: Seq<Seq<char>>, n: int)
    requires
        0 <= n <= names.len(),
        renderings_named(names.take(n)) is Err,
    ensures
        renderings_named(names) == renderings_named(names.take(n)),
    decreases names.len() - n,
{
    if n == names.len() {
        assert(names.take(n) =~= names);
    } else {
        assert(names.take(n + 1).drop_last() =~= names.take(n));
        lemma_renderings_refused(names, n + 1);
    }
}

/// The renderings a request asks for.
///
/// A name that cannot be rendered is rejected: a caller that awaited `svg` and
/// got nothing would have to guess whether the answer or its request was at
/// fault.
pub fn renderings(requested: &Vec<String>) -> (r: Result<Renderings, GraphRequestError>)
    ensures
        match r {
            Ok(render) => renderings_named(texts(requested@)) == Ok::<Renderings, Seq<char>>(render),
            Err(error) => renderings_named(texts(requested@)) == Err::<Renderings, Seq<char>>(error.message@),
        },
{
    let ghost names = texts(requested@);
    let mut out = Renderings { diff: false, mermaid: false };
    let mut i: usize = 0;
    assert(names.take(0) =~= Seq::<Seq<char>>::empty());
    while i < requested.len()
        invariant
            i <= requested.len(),
            names == texts(requested@),
            renderings_named(names.take(i as int)) == Ok::<Renderings, Seq<char>>(out),
        decreases requested.len() - i,
    {
        let name = requested[i].as_str();
        proof {
            assert(names.take(i + 1).drop_last() =~= names.take(i as int));
            assert(names.take(i + 1).last() == name@);
        }
        if same_text(name, "diff") {
            out.diff = true;
        } else if same_text(name, "mermaid") {
            out.mermaid = true;
        } else {
            proof {
                lemma_renderings_refused(names, i + 1);
            }
            return Err(GraphRequestError { message: join3("`render` must be one of diff, mermaid; received `", name, "`") });
        }
        i = i + 1;
    }
    assert(names.take(i as int) =~= names);
    Ok(out)
}

/// Asking in another order, or twice, asks for the same renderings.
pub proof fn lemma_render_order_immaterial(a: Seq<char>, b: Seq<char>)
    requires
        renderings_named(seq![a, b]) is Ok,
    ensures
        renderings_named(seq![b, a]) == renderings_named(seq![a, b]),
        renderings_named(seq![a, b, a]) == renderings_named(seq![a, b]),
{
    reveal_with_fuel(renderings_named, 4);
    assert(seq![a, b].drop_last() =~= seq![a]);
    assert(seq![b, a].drop_last() =~= seq![b]);
    assert(seq![a, b, a].drop_last() =~= seq![a, b]);
    assert(seq![a].drop_last() =~= Seq::<Seq<char>>::empty());
    assert(seq![b].drop_last() =~= Seq::<Seq<char>>::empty());
    reveal_strlit("diff");
    reveal_strlit("mermaid");
    assert("diff"@[0] == 'd' && "mermaid"@[0] == 'm');
}

/// The condition of being named.
pub open spec fn is_named(names: Seq<Seq<char>>) -> spec_fn(Relation) -> bool {
    |relation: Relation| names.contains(relation_word(relation))
}

/// The relations that a request may name, in the order they are reported: those
/// between modules, and those of a function.
pub open spec fn offered_relations() -> Seq<Relation> {
    seq![Relation::Imports, Relation::TestedBy, Relation::Calls, Relation::Contains, Relation::ReExports]
}

/// The relations that a request may name.
fn offered_list() -> (r: Vec<Relation>)
    ensures
        r@ == offered_relations(),
{
    let mut out: Vec<Relation> = Vec::new();
    out.push(Relation::Imports);
    out.push(Relation::TestedBy);
    out.push(Relation::Calls);
    out.push(Relation::Contains);
    out.push(Relation::ReExports);
    assert(out@ =~= offered_relations());
    out
}

/// The names of the relations that a request may name.
fn offered_names() -> (r: Vec<String>)
    ensures
        texts(r@) == relation_words(offered_relations()),
{
    let all = offered_list();
    let ghost wanted = relation_words(offered_relations());
    let mut out: Vec<String> = Vec::new();
    let mut i: usize = 0;
    while i < all.len()
        invariant
            i <= all.len(),
            all@ == offered_relations(),
            wanted == relation_words(offered_relations()),
            texts(out@) =~= wanted.take(i as int),
        decreases all.len() - i,
    {
        let ghost so_far = texts(out@);
        out.push(all[i].name().to_owned());
        assert(texts(out@) =~= so_far.push(wanted[i as int]));
        i = i + 1;
    }
    assert(wanted.take(i as int) =~= wanted);
    out
}

/// The first name, from a place on, that no offered relation has.
pub open spec fn unsupported_from(names: Seq<Seq<char>>, from: int) -> Option<Seq<char>>
    decreases names.len() - from,
{
    if from < 0 || from >= names.len() {
        None
    } else if !relation_words(offered_relations()).contains(names[from]) {
        Some(names[from])
    } else {
        unsupported_from(names, from + 1)
    }
}

/// The relations that names ask for, in the order they are reported: every
/// supported one where none is named. A name that none has is refused.
pub open spec fn relations_named(names: Seq<Seq<char>>) -> Result<Seq<Relation>, Seq<char>> {
    if names.len() == 0 {
        Ok(supported_relations())
    } else {
        match unsupported_from(names, 0) {
            Some(name) => Err(
                "`relations` must be one of "@ + interposed(relation_words(offered_relations()), ", "@) + "; received `"@ + name + "`"@,
            ),
            None => Ok(picked(offered_relations(), is_named(names))),
        }
    }
}

fn holds_name(names: &Vec<String>, wanted: &str) -> (r: bool)
    ensures
        r == texts(names@).contains(wanted@),
{
    let ghost all = texts(names@);
    let mut i: usize = 0;
    while i < names.len()
        invariant
            i <= names.len(),
            all == texts(names@),
            forall|k: int| 0 <= k < i ==> #[trigger] all[k] != wanted@,
        decreases names.len() - i,
    {
        assert(all[i as int] == names@[i as int]@);
        if same_text(names[i].as_str(), wanted) {
            assert(all.contains(wanted@));
            return true;
        }
        i = i + 1;
    }
    false
}

/// The relations a walk may follow, in the order they are reported.
///
/// An empty list means every supported relation. A name that is not offered is
/// rejected rather than dropped: an edge set short by one relation would report
/// "no such relationship" for a relationship that is never looked for.
pub fn relations(requested: &Vec<String>) -> (r: Result<Vec<Relation>, GraphRequestError>)
    ensures
        match r {
            Ok(relations) => relations_named(texts(requested@)) == Ok::<Seq<Relation>, Seq<char>>(relations@),
            Err(error) => relations_named(texts(requested@)) == Err::<Seq<Relation>, Seq<char>>(error.message@),
        },
{
    let ghost names = texts(requested@);
    if requested.len() == 0 {
        return Ok(Relation::supported());
    }
    let known = offered_names();
    let mut i: usize = 0;
    while i < requested.len()
        invariant
            i <= requested.len(),
            names == texts(requested@),
            names.len() > 0,
            texts(known@) == relation_words(offered_relations()),
            unsupported_from(names, i as int) == unsupported_from(names, 0),
        decreases requested.len() - i,
    {
        let name = requested[i].as_str();
        assert(names[i as int] == name@);
        if !holds_name(&known, name) {
            let mut message = "`relations` must be one of ".to_owned();
            message.append(join_all(&known, ", ").as_str());
            message.append("; received `");
            message.append(name);
            message.append("`");
            return Err(GraphRequestError { message });
        }
        i = i + 1;
    }
    let all = offered_list();
    let ghost keep = is_named(names);
    let mut out: Vec<Relation> = Vec::new();
    let mut j: usize = 0;
    assert(out@ =~= picked(all@.take(0), keep));
    while j < all.len()
        invariant
            j <= all.len(),
            names == texts(requested@),
            keep == is_named(names),
            out@ == picked(all@.take(j as int), keep),
        decreases all.len() - j,
    {
        assert(all@.take(j + 1).drop_last() =~= all@.take(j as int));
        if holds_name(requested, all[j].name()) {
            out.push(all[j]);
        }
        j = j + 1;
    }
    assert(all@.take(j as int) =~= all@);
    Ok(out)
}

/// How many bytes two texts share at their ends.
pub open spec fn shared_end(a: Seq<u8>, b: Seq<u8>) -> nat
    decreases a.len(),
{
    if a.len() == 0 || b.len() == 0 || a.last() != b.last() {
        0
    } else {
        1 + shared_end(a.drop_last(), b.drop_last())
    }
}

/// How likely a changed path is the one a caller meant: whether its name
/// is the same up to the first dot, and how much of its end is the same.
pub open spec fn affinity_of(requested: Seq<char>, candidate: Seq<char>) -> (bool, nat) {
    (base_of(candidate) == base_of(requested), shared_end(encode_utf8(candidate), encode_utf8(requested)))
}

/// How likely a changed path is the one a caller meant.
///
/// A caller that names a path the change does not contain usually named the
/// right file under a stale directory or extension, so a matching file name,
/// extension aside, is the strongest evidence; after that, the longest shared
/// suffix of the two paths.
#[must_use]
pub fn affinity(requested: &str, candidate: &str) -> (r: (bool, usize))
    ensures
        r.0 == affinity_of(requested@, candidate@).0,
        r.1 == affinity_of(requested@, candidate@).1,
{
    let left = candidate.as_bytes();
    let right = requested.as_bytes();
    let ghost a = left@;
    let ghost b = right@;
    let mut n: usize = 0;
    assert(a.take(a.len() as int) =~= a);
    assert(b.take(b.len() as int) =~= b);
    while n < left.len() && n < right.len() && left[left.len() - 1 - n] == right[right.len() - 1 - n]
        invariant
            n <= left.len(),
            n <= right.len(),
            a == left@,
            b == right@,
            n + shared_end(a.take(a.len() - n), b.take(b.len() - n)) == shared_end(a, b),
        decreases left.len() - n,
    {
        proof {
            let x = a.take(a.len() - n);
            let y = b.take(b.len() - n);
            assert(x.drop_last() =~= a.take(a.len() - n - 1));
            assert(y.drop_last() =~= b.take(b.len() - n - 1));
            assert(x.last() == a[a.len() - 1 - n]);
            assert(y.last() == b[b.len() - 1 - n]);
        }
        n = n + 1;
    }
    proof {
        let x = a.take(a.len() - n);
        let y = b.take(b.len() - n);
        if x.len() > 0 && y.len() > 0 {
            assert(x.last() == a[a.len() - 1 - n]);
            assert(y.last() == b[b.len() - 1 - n]);
        }
        assert(shared_end(x, y) == 0);
    }
    (same_text(base(candidate).as_str(), base(requested).as_str()), n)
}

/// A truth value as a number.
pub open spec fn as_number(value: bool) -> int {
    if value {
        1
    } else {
        0
    }
}

/// Where one path stands relative to another: the likelier correction first.
pub open spec fn affinity_rank(requested: Seq<char>, a: Seq<char>, b: Seq<char>) -> Rank {
    let x = affinity_of(requested, a);
    let y = affinity_of(requested, b);
    otherwise(number_rank(as_number(y.0), as_number(x.0)), number_rank(y.1 as int, x.1 as int))
}

/// The order in which paths are offered.
pub open spec fn affinity_order(requested: Seq<char>) -> spec_fn(Seq<char>, Seq<char>) -> Rank {
    |a: Seq<char>, b: Seq<char>| affinity_rank(requested, a, b)
}

/// The changed paths of an analysis, in its own order.
pub open spec fn changed_paths_of(files: Seq<FileView>) -> Seq<Seq<char>> {
    Seq::new(files.len(), |i: int| path_of(files[i]))
}

fn changed_paths(result: &AnalysisResult) -> (r: Vec<String>)
    ensures
        texts(r@) == changed_paths_of(result@.files),
{
    let ghost files = result@.files;
    let mut out: Vec<String> = Vec::new();
    let mut i: usize = 0;
    while i < result.files.len()
        invariant
            i <= result.files.len(),
            files == file_views(result.files@),
            out@.len() == i,
            forall|k: int| 0 <= k < i ==> (#[trigger] out@[k])@ == path_of(files[k]),
        decreases result.files.len() - i,
    {
        assert(files[i as int] == result.files@[i as int]@);
        out.push(display_path(&result.files[i]).to_owned());
        i = i + 1;
    }
    assert(texts(out@) =~= changed_paths_of(files));
    out
}

/// What a list that was cut short says of the rest.
pub open spec fn rest_text(remainder: nat) -> Seq<char> {
    if remainder == 0 {
        Seq::empty()
    } else {
        " and "@ + decimal(remainder) + " more"@
    }
}

pub(crate) fn rest_of(remainder: usize) -> (r: String)
    ensures
        r@ == rest_text(remainder as nat),
{
    if remainder == 0 {
        let r = String::new();
        assert(r@ =~= Seq::<char>::empty());
        r
    } else {
        join3(" and ", number_text(remainder as u64).as_str(), " more")
    }
}

/// Paths named before a list of them is cut short.
pub const FILE_SUGGESTIONS: usize = 10;

/// The first of a list, as many as are named.
pub open spec fn first_paths(paths: Seq<Seq<char>>) -> Seq<Seq<char>> {
    if paths.len() <= FILE_SUGGESTIONS {
        paths
    } else {
        paths.take(FILE_SUGGESTIONS as int)
    }
}

/// The sentence for a `file` that the comparison did not change.
pub open spec fn unknown_file_text(requested: Seq<char>, paths: Seq<Seq<char>>) -> Seq<char> {
    let head = "`file` must name a changed file: no `"@ + requested + "` in this analysis, which changed "@;
    if paths.len() == 0 {
        head + "no files"@
    } else {
        let offered = arranged(paths, by_rank(affinity_order(requested)));
        let more = if paths.len() <= FILE_SUGGESTIONS {
            0
        } else {
            paths.len() - FILE_SUGGESTIONS
        };
        head + interposed(first_paths(offered), ", "@) + rest_text(more as nat)
    }
}

/// The message for a `file` the comparison did not change.
///
/// The paths to offer are the changed ones, ordered so the likeliest correction
/// comes first, and the list is summarized rather than truncated silently.
fn describe_unknown_file(requested: &str, result: &AnalysisResult) -> (r: String)
    ensures
        r@ == unknown_file_text(requested@, changed_paths_of(result@.files)),
{
    let mut known = changed_paths(result);
    let ghost paths = changed_paths_of(result@.files);
    let mut out = join3("`file` must name a changed file: no `", requested, "` in this analysis, which changed ");
    if known.len() == 0 {
        out.append("no files");
        return out;
    }
    let rank_of = |a: &String, b: &String| -> (r: Rank)
        ensures
            r == affinity_rank(requested@, a@, b@),
    {
        let x = affinity(requested, a.as_str());
        let y = affinity(requested, b.as_str());
        let x_stem: u64 = if x.0 {
            1
        } else {
            0
        };
        let y_stem: u64 = if y.0 {
            1
        } else {
            0
        };
        or_else(compare_numbers(y_stem, x_stem), compare_numbers(y.1 as u64, x.1 as u64))
    };
    let ghost shown = |s: String| s@;
    assert(texts(known@) =~= known@.map_values(shown));
    arrange_by::<String, Seq<char>, _>(&mut known, rank_of, Ghost(shown), Ghost(affinity_order(requested@)));
    proof {
        assert(texts(known@) =~= known@.map_values(shown));
        crate::collections::lemma_arranged_keeps(paths, by_rank(affinity_order(requested@)));
        vstd::seq_lib::to_multiset_len(texts(known@));
        vstd::seq_lib::to_multiset_len(paths);
    }
    let ghost offered = texts(known@);
    let remainder: usize = if known.len() <= FILE_SUGGESTIONS {
        0
    } else {
        known.len() - FILE_SUGGESTIONS
    };
    known.truncate(FILE_SUGGESTIONS);
    assert(texts(known@) =~= first_paths(offered));
    out.append(join_all(&known, ", ").as_str());
    out.append(rest_of(remainder).as_str());
    out
}

/// A count, or the largest that can be counted to where it is larger.
pub open spec fn countable(n: nat) -> nat {
    if n > usize::MAX {
        usize::MAX as nat
    } else {
        n
    }
}

/// The sentence for a `function_id` that the analysis does not contain.
pub open spec fn unknown_function_text(requested: Seq<char>, ids: Seq<Seq<char>>) -> Seq<char> {
    let head = "`function_id` must name a function in this analysis: no `"@ + requested + "` in this analysis, which contains "@;
    let known = offered(ids, requested);
    if known.len() == 0 {
        head + "no functions"@
    } else {
        head + interposed(known, ", "@) + rest_text((countable(ids.len()) - known.len()) as nat)
    }
}

/// How many functions an analysis holds.
fn count_ids(result: &AnalysisResult) -> (r: usize)
    ensures
        r == countable(all_ids(result@.files).len()),
{
    let ghost files = result@.files;
    let mut total: usize = 0;
    let mut i: usize = 0;
    assert(files.take(0) =~= Seq::<FileView>::empty());
    while i < result.files.len()
        invariant
            i <= result.files.len(),
            files == file_views(result.files@),
            total == countable(all_ids(files.take(i as int)).len()),
        decreases result.files.len() - i,
    {
        assert(files.take(i + 1).drop_last() =~= files.take(i as int));
        assert(files.take(i + 1).last() == result.files@[i as int]@);
        let own: usize = result.files[i].functions.len();
        total = if own > usize::MAX - total {
            usize::MAX
        } else {
            total + own
        };
        i = i + 1;
    }
    assert(files.take(i as int) =~= files);
    total
}

/// The message for a `function_id` the analysis does not contain.
///
/// The ranking is the one a detail query uses, so the same unknown identity
/// draws the same suggestions from either.
fn describe_unknown_function(requested: &str, result: &AnalysisResult) -> (r: String)
    ensures
        r@ == unknown_function_text(requested@, all_ids(result@.files)),
{
    let known = closest_function_ids(result, requested);
    let ghost ids = all_ids(result@.files);
    let mut out = join3(
        "`function_id` must name a function in this analysis: no `",
        requested,
        "` in this analysis, which contains ",
    );
    if known.len() == 0 {
        assert(texts(known@).len() == 0);
        out.append("no functions");
        return out;
    }
    proof {
        crate::order::lemma_picked(ids, crate::query::detail::holds(requested@));
        assert(texts(known@).len() == known@.len());
    }
    let total = count_ids(result);
    let remainder: usize = total - known.len();
    out.append(join_all(&known, ", ").as_str());
    out.append(rest_of(remainder).as_str());
    out
}

/// The parameters of an impact-graph request, as a transport decoded them.
///
/// The scalar enums arrive already parsed; the list-valued parameters arrive as
/// the caller wrote them, because their accepted set belongs here.
#[derive(Debug, Clone, Copy)]
pub struct Requested<'a> {
    /// The changed file to center the graph on.
    pub file: Option<&'a str>,
    /// The function to center the graph on, by the identity the analysis
    /// reports for it.
    pub function_id: Option<&'a str>,
    /// Which way the walk follows edges; both ways when absent.
    pub direction: Option<Direction>,
    /// The relations the walk may follow, as named.
    pub relations: &'a Vec<String>,
    /// Hops from the root, already bounded by the caller.
    pub depth: u32,
    /// Which revision's relationships to show; the delta when absent.
    pub view: Option<crate::graph::View>,
    /// Node and edge budgets, already bounded by the caller.
    pub limits: Limits,
    /// The renderings to produce, as named.
    pub render: &'a Vec<String>,
}

/// Requested parameters by their texts.
#[verifier::ext_equal]
pub struct RequestedFacts {
    pub file: Option<Seq<char>>,
    pub function_id: Option<Seq<char>>,
    pub direction: Option<Direction>,
    pub relations: Seq<Seq<char>>,
    pub depth: u32,
    pub view: Option<crate::graph::View>,
    pub limits: Limits,
    pub render: Seq<Seq<char>>,
}

impl<'a> View for Requested<'a> {
    type V = RequestedFacts;

    open spec fn view(&self) -> RequestedFacts {
        RequestedFacts {
            file: borrowed_text(self.file),
            function_id: borrowed_text(self.function_id),
            direction: self.direction,
            relations: texts(self.relations@),
            depth: self.depth,
            view: self.view,
            limits: self.limits,
            render: texts(self.render@),
        }
    }
}

/// One validated impact-graph request.
#[derive(Debug, Clone, PartialEq, Eq)]
pub struct GraphRequest {
    /// The changed file the graph is centered on. Absent centers it on the
    /// changed set.
    pub root: Option<String>,
    /// The function the graph is centered on, when a caller named one. A graph
    /// has one center, so at most one of the two roots is ever present.
    pub function_root: Option<String>,
    pub direction: Direction,
    /// The relations the walk may follow, in the supported order.
    pub relations: Vec<Relation>,
    pub depth: u32,
    pub view: crate::graph::View,
    pub limits: Limits,
    pub render: Renderings,
}

/// A validated request by what it holds.
#[verifier::ext_equal]
pub struct RequestFacts {
    pub root: Option<Seq<char>>,
    pub function_root: Option<Seq<char>>,
    pub direction: Direction,
    pub relations: Seq<Relation>,
    pub depth: u32,
    pub view: crate::graph::View,
    pub limits: Limits,
    pub render: Renderings,
}

impl View for GraphRequest {
    type V = RequestFacts;

    open spec fn view(&self) -> RequestFacts {
        RequestFacts {
            root: text_option(self.root),
            function_root: text_option(self.function_root),
            direction: self.direction,
            relations: self.relations@,
            depth: self.depth,
            view: self.view,
            limits: self.limits,
            render: self.render,
        }
    }
}

/// The sentence for a request that names two centers.
pub open spec fn two_roots_text() -> Seq<char> {
    "`file` and `function_id` are mutually exclusive, and a graph has one center; name one changed `file` or one `function_id`, or neither to center the graph on every changed file"@
}

/// The root of a file and of a function that a request names, at most one of
/// them present. A root that the analysis does not contain is refused with what
/// it does contain.
pub open spec fn roots_of(files: Seq<FileView>, file: Option<Seq<char>>, function: Option<Seq<char>>) -> Result<
    (Option<Seq<char>>, Option<Seq<char>>),
    Seq<char>,
> {
    match (file, function) {
        (Some(_), Some(_)) => Err(two_roots_text()),
        (None, None) => Ok((None, None)),
        (None, Some(function)) => if place_of(files, function, 0) is Some {
            Ok((None, Some(function)))
        } else {
            Err(unknown_function_text(function, all_ids(files)))
        },
        (Some(file), None) => if changed_paths_of(files).contains(file) {
            Ok((Some(file), None))
        } else {
            Err(unknown_file_text(file, changed_paths_of(files)))
        },
    }
}

fn root(result: &AnalysisResult, requested: &Requested) -> (r: Result<(Option<String>, Option<String>), GraphRequestError>)
    ensures
        match roots_of(result@.files, requested@.file, requested@.function_id) {
            Ok((file, function)) => r is Ok && text_option(r->Ok_0.0) == file && text_option(r->Ok_0.1) == function,
            Err(message) => r is Err && r->Err_0.message@ == message,
        },
{
    match (requested.file, requested.function_id) {
        (Some(_), Some(_)) => Err(
            GraphRequestError {
                message: "`file` and `function_id` are mutually exclusive, and a graph has one center; name one changed `file` or one `function_id`, or neither to center the graph on every changed file".to_owned(),
            },
        ),
        (None, None) => Ok((None, None)),
        (None, Some(function)) => if find_function(result, function).is_some() {
            Ok((None, Some(function.to_owned())))
        } else {
            Err(GraphRequestError { message: describe_unknown_function(function, result) })
        },
        (Some(file), None) => {
            let known = changed_paths(result);
            if holds_name(&known, file) {
                Ok((Some(file.to_owned()), None))
            } else {
                Err(GraphRequestError { message: describe_unknown_file(file, result) })
            }
        },
    }
}

/// The request that is answered, or the sentence that refuses it: of several
/// faults, that of the root comes first, then that of the relations.
pub open spec fn validated(result: ResultView, requested: RequestedFacts) -> Result<RequestFacts, Seq<char>> {
    match roots_of(result.files, requested.file, requested.function_id) {
        Err(message) => Err(message),
        Ok((root, function_root)) => match relations_named(requested.relations) {
            Err(message) => Err(message),
            Ok(relations) => match renderings_named(requested.render) {
                Err(message) => Err(message),
                Ok(render) => Ok(
                    RequestFacts {
                        root,
                        function_root,
                        direction: match requested.direction {
                            Some(direction) => direction,
                            None => Direction::Both,
                        },
                        relations,
                        depth: requested.depth,
                        view: match requested.view {
                            Some(view) => view,
                            None => crate::graph::View::Delta,
                        },
                        limits: requested.limits,
                        render,
                    },
                ),
            },
        },
    }
}

/// The parameters an impact-graph answer was produced with: every parameter the
/// method understands, with the defaults that were applied.
#[derive(Debug, Clone)]
pub struct AppliedGraphQuery {
    pub file: Option<String>,
    pub function_id: Option<String>,
    pub direction: &'static str,
    pub relations: Vec<&'static str>,
    pub depth: u32,
    pub view: &'static str,
    pub max_nodes: usize,
    pub max_edges: usize,
    pub render: Vec<&'static str>,
}

/// The names of relations.
pub open spec fn relation_words(relations: Seq<Relation>) -> Seq<Seq<char>> {
    Seq::new(relations.len(), |i: int| relation_word(relations[i]))
}

impl GraphRequest {
    /// Validate one request against the analysis it asks about.
    ///
    /// Fails with the first thing that cannot be answered as written: a root
    /// that cannot be resolved, a path the comparison did not change, or a
    /// relation or rendering outside the set that is produced.
    pub fn validate(result: &AnalysisResult, requested: &Requested) -> (r: Result<GraphRequest, GraphRequestError>)
        ensures
            match r {
                Ok(request) => validated(result@, requested@) == Ok::<RequestFacts, Seq<char>>(request@),
                Err(error) => validated(result@, requested@) == Err::<RequestFacts, Seq<char>>(error.message@),
            },
    {
        let (file_root, function_root) = match root(result, requested) {
            Ok(roots) => roots,
            Err(error) => {
                return Err(error);
            },
        };
        let relations = match relations(requested.relations) {
            Ok(relations) => relations,
            Err(error) => {
                return Err(error);
            },
        };
        let render = match renderings(requested.render) {
            Ok(render) => render,
            Err(error) => {
                return Err(error);
            },
        };
        Ok(
            GraphRequest {
                root: file_root,
                function_root,
                direction: match requested.direction {
                    Some(direction) => direction,
                    None => Direction::Both,
                },
                relations,
                depth: requested.depth,
                view: match requested.view {
                    Some(view) => view,
                    None => crate::graph::View::Delta,
                },
                limits: requested.limits,
                render,
            },
        )
    }

    /// The parameters this request was applied with, after defaults.
    #[must_use]
    pub fn applied(&self) -> (r: AppliedGraphQuery)
        ensures
            text_option(r.file) == self@.root,
            text_option(r.function_id) == self@.function_root,
            r.direction@ == direction_word(self.direction),
            borrowed(r.relations@) == relation_words(self@.relations),
            r.depth == self.depth,
            r.view@ == view_word(self.view),
            r.max_nodes == self.limits.max_nodes,
            r.max_edges == self.limits.max_edges,
            borrowed(r.render@) == asked_names(self.render),
    {
        let mut names: Vec<&'static str> = Vec::new();
        let mut i: usize = 0;
        while i < self.relations.len()
            invariant
                i <= self.relations.len(),
                names@.len() == i,
                forall|k: int| 0 <= k < i ==> (#[trigger] names@[k])@ == relation_word(self.relations@[k]),
            decreases self.relations.len() - i,
        {
            names.push(self.relations[i].name());
            i = i + 1;
        }
        assert(borrowed(names@) =~= relation_words(self@.relations));
        AppliedGraphQuery {
            file: crate::collections::copy_option(&self.root),
            function_id: crate::collections::copy_option(&self.function_root),
            direction: self.direction.name(),
            relations: names,
            depth: self.depth,
            view: self.view.name(),
            max_nodes: self.limits.max_nodes,
            max_edges: self.limits.max_edges,
            render: self.render.asked(),
        }
    }
}

/// The root a graph is centered on: one changed file, or one function of one.
#[derive(Debug, Clone)]
pub struct RootView {
    pub kind: &'static str,
    pub id: String,
    pub path: String,
}

/// A root by what it holds.
#[verifier::ext_equal]
pub struct RootFacts {
    pub kind: Seq<char>,
    pub id: Seq<char>,
    pub path: Seq<char>,
}

impl View for RootView {
    type V = RootFacts;

    open spec fn view(&self) -> RootFacts {
        RootFacts { kind: self.kind@, id: self.id@, path: self.path@ }
    }
}

/// A root by what it holds, where there is one.
pub open spec fn root_facts(root: Option<RootView>) -> Option<RootFacts> {
    match root {
        Some(root) => Some(root@),
        None => None,
    }
}

/// The root that an answer names: a function by its identity and the path of
/// the file that declares it, or a file by its path.
pub open spec fn named_root(files: Seq<FileView>, request: RequestFacts) -> Option<RootFacts> {
    match request.function_root {
        Some(function) => match place_of(files, function, 0) {
            Some((file, _)) => Some(
                RootFacts { kind: node_kind_word(NodeKind::Function), id: function_identity(function), path: path_of(files[file]) },
            ),
            None => None,
        },
        None => match request.root {
            Some(path) => Some(RootFacts { kind: node_kind_word(NodeKind::Module), id: module_identity(path), path }),
            None => None,
        },
    }
}

/// The root an answer names, when the request named one.
pub fn root_view(result: &AnalysisResult, request: &GraphRequest) -> (r: Option<RootView>)
    ensures
        root_facts(r) == named_root(result@.files, request@),
{
    match &request.function_root {
        Some(function) => match find_function(result, function.as_str()) {
            Some((at, _)) => {
                let file = &result.files[at];
                assert(result@.files[at as int] == file@);
                Some(
                    RootView {
                        kind: NodeKind::Function.name(),
                        id: Node::function_id(function.as_str()),
                        path: display_path(file).to_owned(),
                    },
                )
            },
            None => None,
        },
        None => match &request.root {
            Some(path) => Some(RootView { kind: NodeKind::Module.name(), id: Node::module_id(path.as_str()), path: path.clone() }),
            None => None,
        },
    }
}

/// One node of the delivered graph.
#[derive(Debug, Clone)]
pub struct NodeView {
    pub id: String,
    pub key: String,
    pub label: String,
    pub kind: &'static str,
    pub path: String,
    pub status: &'static str,
}

/// A delivered node by what it holds.
#[verifier::ext_equal]
pub struct NodeRow {
    pub id: Seq<char>,
    pub key: Seq<char>,
    pub label: Seq<char>,
    pub kind: Seq<char>,
    pub path: Seq<char>,
    pub status: Seq<char>,
}

impl View for NodeView {
    type V = NodeRow;

    open spec fn view(&self) -> NodeRow {
        NodeRow { id: self.id@, key: self.key@, label: self.label@, kind: self.kind@, path: self.path@, status: self.status@ }
    }
}

/// How a node is delivered.
pub open spec fn node_row(node: NodeFacts) -> NodeRow {
    NodeRow {
        id: node.id,
        key: node.key,
        label: node.label,
        kind: node_kind_word(node.kind),
        path: node.path,
        status: node_status_word(node.status),
    }
}

impl NodeView {
    fn of(node: &Node) -> (r: Self)
        ensures
            r@ == node_row(node@),
    {
        NodeView {
            id: node.id.clone(),
            key: node.key.clone(),
            label: node.label.clone(),
            kind: node.kind.name(),
            path: node.path.clone(),
            status: node.status.name(),
        }
    }
}

/// Where a relationship is written, when a single site produced it.
#[derive(Debug, Clone)]
pub struct EvidenceView {
    pub file: String,
    pub line: u32,
}

/// One relationship of the delivered graph.
#[derive(Debug, Clone)]
pub struct EdgeView {
    pub from: String,
    pub to: String,
    pub relation: &'static str,
    pub status: &'static str,
    pub resolution: &'static str,
    /// How sure the relationship is, in hundredths.
    pub confidence: u32,
    /// Absent when no single site produced the relationship.
    pub evidence: Option<EvidenceView>,
}

/// A delivered relationship by what it holds.
#[verifier::ext_equal]
pub struct EdgeRow {
    pub from: Seq<char>,
    pub to: Seq<char>,
    pub relation: Seq<char>,
    pub status: Seq<char>,
    pub resolution: Seq<char>,
    pub confidence: u32,
    pub evidence: Option<(Seq<char>, u32)>,
}

impl View for EdgeView {
    type V = EdgeRow;

    open spec fn view(&self) -> EdgeRow {
        EdgeRow {
            from: self.from@,
            to: self.to@,
            relation: self.relation@,
            status: self.status@,
            resolution: self.resolution@,
            confidence: self.confidence,
            evidence: match self.evidence {
                Some(evidence) => Some((evidence.file@, evidence.line)),
                None => None,
            },
        }
    }
}

/// How a relationship is delivered.
pub open spec fn edge_row(edge: EdgeFacts) -> EdgeRow {
    EdgeRow {
        from: edge.from,
        to: edge.to,
        relation: relation_word(edge.relation),
        status: edge_status_word(edge.status),
        resolution: resolution_word(edge.resolution),
        confidence: resolution_confidence(edge.resolution),
        evidence: edge.evidence,
    }
}

impl EdgeView {
    fn of(edge: &Edge) -> (r: Self)
        ensures
            r@ == edge_row(edge@),
    {
        EdgeView {
            from: edge.from.clone(),
            to: edge.to.clone(),
            relation: edge.relation.name(),
            status: edge.status.name(),
            resolution: edge.resolution.name(),
            confidence: edge.confidence(),
            evidence: match &edge.evidence {
                Some(evidence) => Some(EvidenceView { file: evidence.file.clone(), line: evidence.line }),
                None => None,
            },
        }
    }
}

/// What a budget dropped, so a small graph is not read as a complete one.
#[derive(Debug, Clone, Copy, PartialEq, Eq)]
pub struct OmittedView {
    pub nodes: u32,
    pub edges: u32,
}

/// The structured graph: every node and relationship the answer carries, and
/// every one it does not.
#[derive(Debug, Clone)]
pub struct GraphView {
    pub nodes: Vec<NodeView>,
    pub edges: Vec<EdgeView>,
    pub truncated: bool,
    pub omitted: OmittedView,
    /// Which budget was reached, when one was.
    pub reasons: Vec<&'static str>,
}

/// One measured signal behind the recommendation.
#[derive(Debug, Clone)]
pub struct SignalView {
    pub code: &'static str,
    pub message: String,
    pub value: u32,
}

/// Whether a diagram is worth drawing, and the signals that decided it.
#[derive(Debug, Clone)]
pub struct VisualizationView {
    pub recommended: bool,
    pub reasons: Vec<SignalView>,
}

/// The answer to one impact-graph query.
#[derive(Debug, Clone)]
pub struct GraphAnswer {
    /// The root the walk started from, if the graph is not centered on the
    /// changed set.
    pub root: Option<RootView>,
    pub graph: GraphView,
    /// The dependency diff, exactly when it was asked for.
    pub dependency_diff: Option<String>,
    /// The Mermaid document, exactly when it was asked for.
    pub mermaid: Option<String>,
    pub visualization: VisualizationView,
}

/// Delivered nodes by what they hold.
pub open spec fn node_rows(nodes: Seq<NodeView>) -> Seq<NodeRow> {
    Seq::new(nodes.len(), |i: int| nodes[i]@)
}

/// Delivered relationships by what they hold.
pub open spec fn edge_rows(edges: Seq<EdgeView>) -> Seq<EdgeRow> {
    Seq::new(edges.len(), |i: int| edges[i]@)
}

/// The signals of an answer by what they hold.
pub open spec fn answer_signals(signals: Seq<SignalView>) -> Seq<Reason> {
    Seq::new(signals.len(), |i: int| Reason { code: signals[i].code@, message: signals[i].message@, value: signals[i].value })
}

/// An answer by what it holds.
#[verifier::ext_equal]
pub struct AnswerFacts {
    pub root: Option<RootFacts>,
    pub nodes: Seq<NodeRow>,
    pub edges: Seq<EdgeRow>,
    pub truncated: bool,
    pub omitted: OmittedView,
    pub reasons: Seq<Seq<char>>,
    pub dependency_diff: Option<Seq<char>>,
    pub mermaid: Option<Seq<char>>,
    pub recommended: bool,
    pub signals: Seq<Reason>,
}

impl View for GraphAnswer {
    type V = AnswerFacts;

    open spec fn view(&self) -> AnswerFacts {
        AnswerFacts {
            root: root_facts(self.root),
            nodes: node_rows(self.graph.nodes@),
            edges: edge_rows(self.graph.edges@),
            truncated: self.graph.truncated,
            omitted: self.graph.omitted,
            reasons: borrowed(self.graph.reasons@),
            dependency_diff: text_option(self.dependency_diff),
            mermaid: text_option(self.mermaid),
            recommended: self.visualization.recommended,
            signals: answer_signals(self.visualization.reasons@),
        }
    }
}

/// The answer that a graph gives: a rendering exactly when it was asked for.
pub open spec fn answered(graph: GraphFacts, render: Renderings, root: Option<RootFacts>) -> AnswerFacts {
    AnswerFacts {
        root,
        nodes: Seq::new(graph.nodes.len(), |i: int| node_row(graph.nodes[i])),
        edges: Seq::new(graph.edges.len(), |i: int| edge_row(graph.edges[i])),
        truncated: graph.truncated,
        omitted: OmittedView { nodes: graph.omitted_nodes, edges: graph.omitted_edges },
        reasons: Seq::new(graph.reasons.len(), |i: int| truncation_word(graph.reasons[i])),
        dependency_diff: if render.diff {
            Some(diff_lines(graph.nodes, graph.edges))
        } else {
            None
        },
        mermaid: if render.mermaid {
            Some(diagram(graph))
        } else {
            None
        },
        recommended: is_recommended(graph),
        signals: reasons_for(graph),
    }
}

fn deliver_nodes(graph: &Graph) -> (r: Vec<NodeView>)
    ensures
        node_rows(r@) == Seq::new(graph@.nodes.len(), |i: int| node_row(graph@.nodes[i])),
{
    let nodes = graph.nodes();
    let ghost views = graph@.nodes;
    let mut out: Vec<NodeView> = Vec::new();
    let mut i: usize = 0;
    while i < nodes.len()
        invariant
            i <= nodes.len(),
            views == node_views(nodes@),
            out@.len() == i,
            forall|k: int| 0 <= k < i ==> (#[trigger] out@[k])@ == node_row(views[k]),
        decreases nodes.len() - i,
    {
        assert(views[i as int] == nodes@[i as int]@);
        out.push(NodeView::of(&nodes[i]));
        i = i + 1;
    }
    assert(node_rows(out@) =~= Seq::new(graph@.nodes.len(), |i: int| node_row(graph@.nodes[i])));
    out
}

fn deliver_edges(graph: &Graph) -> (r: Vec<EdgeView>)
    ensures
        edge_rows(r@) == Seq::new(graph@.edges.len(), |i: int| edge_row(graph@.edges[i])),
{
    let edges = graph.edges();
    let ghost views = graph@.edges;
    let mut out: Vec<EdgeView> = Vec::new();
    let mut i: usize = 0;
    while i < edges.len()
        invariant
            i <= edges.len(),
            views == edge_views(edges@),
            out@.len() == i,
            forall|k: int| 0 <= k < i ==> (#[trigger] out@[k])@ == edge_row(views[k]),
        decreases edges.len() - i,
    {
        assert(views[i as int] == edges@[i as int]@);
        out.push(EdgeView::of(&edges[i]));
        i = i + 1;
    }
    assert(edge_rows(out@) =~= Seq::new(graph@.edges.len(), |i: int| edge_row(graph@.edges[i])));
    out
}

fn deliver_reasons(graph: &Graph) -> (r: Vec<&'static str>)
    ensures
        borrowed(r@) == Seq::new(graph@.reasons.len(), |i: int| truncation_word(graph@.reasons[i])),
{
    let reasons = graph.reasons();
    let mut out: Vec<&'static str> = Vec::new();
    let mut i: usize = 0;
    while i < reasons.len()
        invariant
            i <= reasons.len(),
            out@.len() == i,
            forall|k: int| 0 <= k < i ==> (#[trigger] out@[k])@ == truncation_word(reasons@[k]),
        decreases reasons.len() - i,
    {
        out.push(reasons[i].name());
        i = i + 1;
    }
    assert(borrowed(out@) =~= Seq::new(graph@.reasons.len(), |i: int| truncation_word(graph@.reasons[i])));
    out
}

/// Project one built graph into the shape an answer carries.
///
/// A rendering is produced only when it was asked for: a caller that reasons
/// over the graph should not pay for a diagram it will not show.
#[must_use]
pub fn answer_of(graph: &Graph, request: &GraphRequest, root: Option<RootView>) -> (r: GraphAnswer)
    ensures
        r@ == answered(graph@, request.render, root_facts(root)),
{
    let recommendation = evaluate(graph);
    let ghost found = signal_views(recommendation.reasons@);
    let mut reasons: Vec<SignalView> = Vec::new();
    let mut i: usize = 0;
    while i < recommendation.reasons.len()
        invariant
            i <= recommendation.reasons.len(),
            found == signal_views(recommendation.reasons@),
            reasons@.len() == i,
            forall|k: int| #![trigger reasons@[k]]
                0 <= k < i ==> reasons@[k].code@ == found[k].code && reasons@[k].message@ == found[k].message && reasons@[k].value == found[k].value,
        decreases recommendation.reasons.len() - i,
    {
        let signal = &recommendation.reasons[i];
        assert(found[i as int] == signal@);
        reasons.push(SignalView { code: signal.code, message: signal.message.clone(), value: signal.value });
        i = i + 1;
    }
    assert(answer_signals(reasons@) =~= found);
    let r = GraphAnswer {
        root,
        graph: GraphView {
            nodes: deliver_nodes(graph),
            edges: deliver_edges(graph),
            truncated: graph.truncated(),
            omitted: OmittedView { nodes: graph.omitted_nodes(), edges: graph.omitted_edges() },
            reasons: deliver_reasons(graph),
        },
        dependency_diff: if request.render.diff {
            Some(dependency_diff(graph))
        } else {
            None
        },
        mermaid: if request.render.mermaid {
            Some(mermaid(graph))
        } else {
            None
        },
        visualization: VisualizationView { recommended: recommendation.recommended, reasons },
    };
    assert(r@ =~= answered(graph@, request.render, root_facts(root)));
    r
}

/// The roots that a request hands to the graph.
pub open spec fn requested_roots(request: RequestFacts) -> Seq<Seq<char>> {
    match request.root {
        Some(path) => seq![path],
        None => Seq::empty(),
    }
}

/// What a validated request asks of a graph.
pub open spec fn asked_of(request: RequestFacts) -> RequestView {
    RequestView {
        roots: requested_roots(request),
        function_root: request.function_root,
        direction: request.direction,
        relations: request.relations,
        depth: request.depth,
        view: request.view,
        limits: request.limits,
    }
}

/// The graph that a validated request is answered with.
pub open spec fn requested_graph(result: ResultView, revisions: RevisionsView, request: RequestFacts) -> GraphFacts {
    described(result, revisions, asked_of(request))
}

/// Answer one validated request from both revisions' import graphs.
#[must_use]
pub fn project(result: &AnalysisResult, revisions: &Revisions, request: &GraphRequest) -> (r: GraphAnswer)
    ensures
        r@ == answered(requested_graph(result@, revisions@, request@), request.render, named_root(result@.files, request@)),
{
    let mut roots: Vec<String> = Vec::new();
    assert(texts(roots@) =~= Seq::<Seq<char>>::empty());
    if let Some(path) = &request.root {
        roots.push(path.clone());
        assert(texts(roots@) =~= seq![path@]);
    }
    assert(texts(roots@) == requested_roots(request@));
    let graph = build(
        result,
        revisions,
        &Request {
            roots: &roots,
            function_root: match &request.function_root {
                Some(id) => Some(id.as_str()),
                None => None,
            },
            direction: request.direction,
            relations: &request.relations,
            depth: request.depth,
            view: request.view,
            limits: request.limits,
        },
    );
    answer_of(&graph, request, root_view(result, request))
}

/// The condition of being a newline.
pub open spec fn newlines() -> spec_fn(char) -> bool {
    |c: char| c == '\n'
}

/// A rendering without the newlines at its end.
pub open spec fn unended(text: Seq<char>) -> Seq<char> {
    trim_end_by(text, newlines())
}

/// Take the newlines off the end of a rendering.
#[must_use]
pub fn without_end(text: &str) -> (r: String)
    ensures
        r@ == unended(text@),
{
    let chars = chars_of(text);
    let mut to: usize = chars.len();
    assert(text@.take(to as int) =~= text@);
    while to > 0 && chars[to - 1] == '\n'
        invariant
            to <= chars.len(),
            chars@ == text@,
            trim_end_by(text@.take(to as int), newlines()) == unended(text@),
        decreases to,
    {
        assert(text@.take(to as int).drop_last() =~= text@.take(to - 1));
        to = to - 1;
    }
    assert(text@.take(to as int) =~= text@.subrange(0, to as int));
    text_of(&chars, 0, to)
}

/// The line that names the root of a graph.
pub open spec fn root_line(root: Option<RootFacts>) -> Seq<char> {
    match root {
        Some(root) => "Root: "@ + root.path + "\n"@,
        None => "Root: none (centered on the changed set)\n"@,
    }
}

/// The lines of the signals behind a recommendation.
pub open spec fn signal_lines(signals: Seq<Reason>) -> Seq<char>
    decreases signals.len(),
{
    if signals.len() == 0 {
        Seq::empty()
    } else {
        signal_lines(signals.drop_last()) + ("  "@ + signals.last().code + ": "@ + signals.last().message + "\n"@)
    }
}

/// An answer for a person: the comparison it describes, the root the walk
/// started from, the dependency diff, and whether a diagram is worth drawing.
pub open spec fn graph_text(base: Seq<char>, target: Seq<char>, answer: AnswerFacts) -> Result<Seq<char>, Seq<char>> {
    match answer.dependency_diff {
        None => Err("the answer carried no `dependency_diff`"@),
        Some(diff) => Ok(
            "DiffScope "@ + base + ".."@ + target + "\n"@ + root_line(answer.root) + (if unended(diff).len() == 0 {
                Seq::empty()
            } else {
                unended(diff) + "\n"@
            }) + (if answer.recommended {
                "Diagram: recommended\n"@
            } else {
                "Diagram: not recommended\n"@
            }) + signal_lines(answer.signals),
        ),
    }
}

fn root_text(root: &Option<RootView>) -> (r: String)
    ensures
        r@ == root_line(root_facts(*root)),
{
    match root {
        Some(root) => join3("Root: ", root.path.as_str(), "\n"),
        None => "Root: none (centered on the changed set)\n".to_owned(),
    }
}

fn signal_text(signals: &Vec<SignalView>) -> (r: String)
    ensures
        r@ == signal_lines(answer_signals(signals@)),
{
    let ghost views = answer_signals(signals@);
    let mut out = String::new();
    let mut i: usize = 0;
    assert(out@ =~= signal_lines(views.take(0)));
    while i < signals.len()
        invariant
            i <= signals.len(),
            views == answer_signals(signals@),
            out@ == signal_lines(views.take(i as int)),
        decreases signals.len() - i,
    {
        assert(views.take(i + 1).drop_last() =~= views.take(i as int));
        let mut line = "  ".to_owned();
        line.append(signals[i].code);
        line.append(": ");
        line.append(signals[i].message.as_str());
        line.append("\n");
        out.append(line.as_str());
        i = i + 1;
    }
    assert(views.take(i as int) =~= views);
    out
}

/// Render one impact graph for a person: the comparison it describes, the root
/// the walk started from, the dependency diff, and whether a diagram is worth
/// drawing, with one line per reason.
pub fn render_graph_text(base: &str, target: &str, answer: &GraphAnswer) -> (r: Result<String, String>)
    ensures
        match r {
            Ok(text) => graph_text(base@, target@, answer@) == Ok::<Seq<char>, Seq<char>>(text@),
            Err(message) => graph_text(base@, target@, answer@) == Err::<Seq<char>, Seq<char>>(message@),
        },
{
    let Some(diff) = &answer.dependency_diff else {
        return Err("the answer carried no `dependency_diff`".to_owned());
    };
    let mut out = "DiffScope ".to_owned();
    out.append(base);
    out.append("..");
    out.append(target);
    out.append("\n");
    out.append(root_text(&answer.root).as_str());
    let shown = without_end(diff.as_str());
    let mut body = String::new();
    if !shown.as_str().is_empty() {
        body = shown;
        body.append("\n");
    } else {
        assert(body@ =~= Seq::<char>::empty());
    }
    out.append(body.as_str());
    if answer.visualization.recommended {
        out.append("Diagram: recommended\n");
    } else {
        out.append("Diagram: not recommended\n");
    }
    out.append(signal_text(&answer.visualization.reasons).as_str());
    Ok(out)
}

/// The names that a comma-separated list holds, without the white space round
/// each.
pub open spec fn listed_names(named: Seq<char>) -> Seq<Seq<char>> {
    split_on(named, ',').map_values(|piece: Seq<char>| trim_by(piece, spaces()))
}

/// The relations a comma-separated list names, in the order it names them.
#[must_use]
pub fn relation_names(named: &str) -> (r: Vec<String>)
    ensures
        texts(r@) == listed_names(named@),
{
    let pieces = split_text(named, ',');
    let ghost parts = split_on(named@, ',');
    let mut out: Vec<String> = Vec::new();
    let mut i: usize = 0;
    while i < pieces.len()
        invariant
            i <= pieces.len(),
            parts == texts(pieces@),
            out@.len() == i,
            forall|k: int| 0 <= k < i ==> (#[trigger] out@[k])@ == trim_by(parts[k], spaces()),
        decreases pieces.len() - i,
    {
        assert(parts[i as int] == pieces@[i as int]@);
        out.push(trim(pieces[i].as_str()));
        i = i + 1;
    }
    assert(texts(out@) =~= listed_names(named@));
    out
}

} // verus!
