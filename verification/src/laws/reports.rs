//! What is told in words, and what a whole analysis carries.

use vstd::prelude::*;

use crate::analysis::{mapped, mapping_outcome, side_of, FileFunctionsView};
use crate::application::{analysis_of, analysis_summary, file_results};
use crate::git::{change_rank, wants_blob, without_line_end};
use crate::graph::assembly::function_place;
use crate::graph::callgraph::{contains_edge, is_contained, last_identified, local_place};
use crate::graph::calls::{first_file, first_where, node_at, recorded_at, Scene};
use crate::graph::recommend::SignalView;
use crate::graph::render::{drawn_edge, drawn_edges, mention};
use crate::graph::{direction_word, group_with, node_with, view_word, Direction, EdgeStatus, EdgeView, Group, GroupRole, NodeView, Relation, Resolution};
use crate::harness::compared;
use crate::harness::jsonl::{unknown_text, Method};
use crate::harness::tools::{offered_under, tool_word};
use crate::languages::SourceRange;
use crate::output::{all_file_lines, diagnostic_lines, file_lines, human_report};
use crate::query::detail::place_in;
use crate::query::graph::{graph_text, root_line, signal_lines, unended, AnswerFacts, RootFacts};
use crate::query::rows::identity;
use crate::result::{FileView, ResultView};
use crate::text::{before, decimal, interposed, Rank};
use crate::{error_text, ChangeInventory, ErrorView, FileChangeView, FileStatus};

verus! {

/// An error is told by what failed and why.
pub proof fn lemma_errors_are_told(command: Seq<char>, message: Seq<char>)
    ensures
        error_text(ErrorView::Git { command, message }) == "git command failed (`"@ + command + "`): "@ + message,
        error_text(ErrorView::InvalidGitOutput(message)) == "invalid git output: "@ + message,
        error_text(ErrorView::Language(message)) == "language analysis failed: "@ + message,
{
}

/// A comparison is told by both its revisions.
pub proof fn lemma_comparison_is_told(base: Seq<char>, target: Seq<char>)
    ensures
        compared(base, target) == base + ".."@ + target,
{
}

/// A report tells the comparison, the repository, the totals, then every file
/// and then every diagnostic of the whole.
pub proof fn lemma_report_tells_all(r: ResultView)
    ensures
        human_report(r) == "DiffScope "@ + r.base.display_name + ".."@ + r.target.display_name + "\nRepository: "@ + r.repository + "\n"@ + decimal(
            r.summary.changed_files as nat,
        ) + " changed files, +"@ + decimal(r.summary.added_lines as nat) + " -"@ + decimal(r.summary.removed_lines as nat) + " ("@ + decimal(
            r.summary.supported_files as nat,
        ) + " supported, "@ + decimal(r.summary.unsupported_files as nat) + " unsupported)\n"@ + all_file_lines(r.files) + diagnostic_lines(
            r.diagnostics,
            ""@,
        ),
{
}

/// Files are told one after the other.
pub proof fn lemma_file_lines_follow(first: Seq<FileView>, rest: Seq<FileView>)
    ensures
        all_file_lines(first + rest) == all_file_lines(first) + all_file_lines(rest),
    decreases rest.len(),
{
    if rest.len() == 0 {
        assert(first + rest =~= first);
        assert(all_file_lines(first) + all_file_lines(rest) =~= all_file_lines(first));
    } else {
        lemma_file_lines_follow(first, rest.drop_last());
        assert((first + rest).drop_last() =~= first + rest.drop_last());
        assert((first + rest).last() == rest.last());
        assert(all_file_lines(first) + all_file_lines(rest.drop_last()) + file_lines(rest.last()) =~= all_file_lines(first) + (all_file_lines(
            rest.drop_last(),
        ) + file_lines(rest.last())));
    }
}

/// A graph is told in words where its lines were drawn: the comparison, the
/// root, the lines, whether a diagram is recommended, and why.
pub proof fn lemma_graph_is_told(base: Seq<char>, target: Seq<char>, answer: AnswerFacts, diff: Seq<char>)
    ensures
        graph_text(base, target, answer) is Ok <==> answer.dependency_diff is Some,
        answer.dependency_diff == Some(diff) && unended(diff).len() > 0 && answer.recommended ==> graph_text(base, target, answer) == Ok::<
            Seq<char>,
            Seq<char>,
        >(
            "DiffScope "@ + base + ".."@ + target + "\n"@ + root_line(answer.root) + (unended(diff) + "\n"@) + "Diagram: recommended\n"@ + signal_lines(
                answer.signals,
            ),
        ),
        answer.dependency_diff == Some(diff) && unended(diff).len() > 0 && !answer.recommended ==> graph_text(base, target, answer) == Ok::<
            Seq<char>,
            Seq<char>,
        >(
            "DiffScope "@ + base + ".."@ + target + "\n"@ + root_line(answer.root) + (unended(diff) + "\n"@) + "Diagram: not recommended\n"@
                + signal_lines(answer.signals),
        ),
{
}

/// The root of a graph is told by its file, and that there is none where all
/// changes are shown.
pub proof fn lemma_root_line(root: RootFacts)
    ensures
        root_line(Some(root)) == "Root: "@ + root.path + "\n"@,
        root_line(None) == "Root: none (centered on the changed set)\n"@,
{
}

/// Reasons are told one after the other, each by its code and its message.
pub proof fn lemma_reasons_follow(first: Seq<SignalView>, one: SignalView)
    ensures
        signal_lines(first.push(one)) == signal_lines(first) + ("  "@ + one.code + ": "@ + one.message + "\n"@),
        signal_lines(Seq::empty()).len() == 0,
{
    assert(first.push(one).drop_last() =~= first);
}

/// An unknown function is told with those that are known, or that none is.
pub proof fn lemma_unknown_function_is_told(id: Seq<char>, known: Seq<Seq<char>>)
    ensures
        known.len() == 0 ==> unknown_text(id, known) == "no function `"@ + id + "` in this analysis, which contains no functions"@,
        0 < known.len() <= 10 ==> unknown_text(id, known) == "no function `"@ + id + "` in this analysis; it contains "@ + interposed(known, ", "@)
            + Seq::<char>::empty(),
        known.len() > 10 ==> unknown_text(id, known) == "no function `"@ + id + "` in this analysis; it contains "@ + interposed(known.take(10), ", "@)
            + (" and "@ + decimal((known.len() - 10) as nat) + " more"@),
{
}

/// A tool is found under its name.
pub proof fn lemma_tool_is_found(name: Seq<char>, from: int)
    requires
        0 <= from,
    ensures
        offered_under(name, from) matches Some(method) ==> method != Method::Analyze && tool_word(method) == name,
        offered_under(name, from) is None ==> forall|i: int|
            from <= i < crate::harness::tools::offered_methods().len() ==> tool_word(#[trigger] crate::harness::tools::offered_methods()[i]) != name,
    decreases crate::harness::tools::offered_methods().len() - from,
{
    let all = crate::harness::tools::offered_methods();
    if from < all.len() {
        crate::laws::protocol::lemma_tools(all[from]);
        assert(all.contains(all[from]));
        if tool_word(all[from]) != name {
            lemma_tool_is_found(name, from + 1);
        }
    }
}

/// The words for a direction and a view.
pub proof fn lemma_direction_and_view_words(direction: Direction, view: crate::graph::View)
    ensures
        direction_word(direction) == match direction {
            Direction::Upstream => "upstream"@,
            Direction::Downstream => "downstream"@,
            Direction::Both => "both"@,
        },
        view_word(view) == match view {
            crate::graph::View::Delta => "delta"@,
            crate::graph::View::Base => "base"@,
            crate::graph::View::Target => "target"@,
        },
{
}

/// Changes come by their target path, or their base path where they are gone.
pub proof fn lemma_changes_come_by_path(a: FileChangeView, b: FileChangeView, p: Seq<char>, q: Seq<char>)
    requires
        a.target_path == Some(p) || (a.target_path is None && a.base_path == Some(p)),
        b.target_path == Some(q) || (b.target_path is None && b.base_path == Some(q)),
    ensures
        p != q && before(p, q) ==> change_rank(a, b) == Rank::Before,
        p != q && !before(p, q) ==> change_rank(a, b) == Rank::After,
        p == q && a.base_path is None && b.base_path is Some ==> change_rank(a, b) == Rank::Before,
        p == q && a.base_path == b.base_path ==> change_rank(a, b) == Rank::Same,
{
}

/// The content of an object is wanted where it is a side of a change that is not
/// binary, and it is an object at all.
pub proof fn lemma_objects_of_changes(file: FileChangeView, oid: Seq<char>)
    ensures
        wants_blob(file, oid) <==> file.status != FileStatus::Binary && (file.old_blob_id == Some(oid) || file.new_blob_id == Some(oid)) && oid
            != "0000000000000000000000000000000000000000"@,
{
}

/// The end of a line is left out, however often it stands there.
pub proof fn lemma_line_end_is_left_out(s: Seq<char>)
    ensures
        without_line_end(s.push('\n')) == without_line_end(s),
        without_line_end(s.push('\r')) == without_line_end(s),
        s.len() > 0 && s.last() != '\n' && s.last() != '\r' ==> without_line_end(s) == s,
{
    assert(s.push('\n').drop_last() =~= s);
    assert(s.push('\r').drop_last() =~= s);
}

/// An analysis carries the repository, the revisions by their names and commits,
/// and what was found of every file.
pub proof fn lemma_analysis_carries(inventory: ChangeInventory, found: Seq<FileFunctionsView>, version: Seq<char>)
    ensures
        ({
            let out = analysis_of(inventory, found, version);
            let files = crate::change_views(inventory.files@);
            &&& out.schema_version == 1
            &&& out.tool_version == version
            &&& out.repository == inventory.repository_path@
            &&& out.base.id == inventory.base.commit_id@ && out.base.display_name == inventory.base.input@
            &&& out.target.id == inventory.target.commit_id@ && out.target.display_name == inventory.target.input@
            &&& out.files == file_results(files, found)
            &&& out.summary == analysis_summary(inventory.summary, files, out.files)
            &&& out.diagnostics.len() == 0
        }),
{
}

/// A file is mapped from its base and its target, each read at its own path and
/// from its own content.
pub proof fn lemma_both_sides_are_mapped(file: FileChangeView)
    ensures
        mapping_outcome(file) is Ok <==> side_of(file.base_path, file.base_blob) is Ok && side_of(file.target_path, file.target_blob) is Ok,
        mapping_outcome(file) matches Ok(out) ==> out == mapped(
            file,
            side_of(file.base_path, file.base_blob)->Ok_0,
            side_of(file.target_path, file.target_blob)->Ok_0,
        ),
{
}

/// A group is found by its role.
pub proof fn lemma_group_is_found(groups: Seq<Group>, role: GroupRole)
    ensures
        group_with(groups, role) matches Some(found) ==> found.role == role && groups.contains(found),
        group_with(groups, role) is None ==> forall|i: int| 0 <= i < groups.len() ==> (#[trigger] groups[i]).role != role,
    decreases groups.len(),
{
    if groups.len() > 0 {
        let rest = groups.drop_first();
        lemma_group_is_found(rest, role);
        assert(groups.contains(groups[0]));
        if let Some(found) = group_with(rest, role) {
            let i = choose|i: int| 0 <= i < rest.len() && rest[i] == found;
            assert(groups[i + 1] == found);
        }
        assert(forall|i: int| 0 <= i < rest.len() ==> #[trigger] rest[i] == groups[i + 1]);
        if group_with(groups, role) is None {
            assert forall|i: int| 0 <= i < groups.len() implies (#[trigger] groups[i]).role != role by {
                if i > 0 {
                    assert(rest[i - 1] == groups[i]);
                }
            }
        }
    }
}

proof fn lemma_first_where<T>(items: Seq<T>, holds: spec_fn(T) -> bool, from: int)
    requires
        0 <= from,
    ensures
        first_where(items, holds, from) matches Some(i) ==> from <= i < items.len() && holds(items[i]) && forall|k: int|
            from <= k < i ==> !holds(#[trigger] items[k]),
        first_where(items, holds, from) is None ==> forall|k: int| from <= k < items.len() ==> !holds(#[trigger] items[k]),
    decreases items.len() - from,
{
    if from < items.len() && !holds(items[from]) {
        lemma_first_where(items, holds, from + 1);
    }
}

proof fn lemma_first_file(files: Seq<FileView>, path: Seq<char>, n: int)
    requires
        0 <= n <= files.len(),
    ensures
        first_file(files, path, n) matches Some(k) ==> 0 <= k < n && (files[k].base_path == Some(path) || files[k].target_path == Some(path)),
        first_file(files, path, n) is None ==> forall|k: int|
            0 <= k < n ==> (#[trigger] files[k]).base_path != Some(path) && files[k].target_path != Some(path),
    decreases n,
{
    if n > 0 {
        lemma_first_file(files, path, n - 1);
    }
}

proof fn lemma_first_file_is(files: Seq<FileView>, path: Seq<char>, n: int, k: int)
    requires
        0 <= k < n <= files.len(),
        files[k].base_path == Some(path) || files[k].target_path == Some(path),
        forall|f: int| 0 <= f < k ==> (#[trigger] files[f]).base_path != Some(path) && files[f].target_path != Some(path),
    ensures
        first_file(files, path, n) == Some(k),
    decreases n,
{
    if k < n - 1 {
        lemma_first_file_is(files, path, n - 1, k);
    } else {
        lemma_first_file(files, path, n - 1);
    }
}

/// A place in a changed file is the function that the analysis has there, on
/// either side, and nothing where it has none.
pub proof fn lemma_place_in_changed_file(files: Seq<FileView>, r: crate::graph::assembly::RevisionsView, path: Seq<char>, range: SourceRange, k: int)
    requires
        0 <= k < files.len(),
        files[k].base_path == Some(path) || files[k].target_path == Some(path),
    ensures
        node_at(files, r, path, range) matches Some(node) ==> node.path == path && exists|f: int, i: int|
            0 <= f < files.len() && 0 <= i < files[f].functions.len() && (files[f].functions[i].base_range == Some(range)
                || files[f].functions[i].target_range == Some(range)) && node.label == (#[trigger] files[f].functions[i]).qualified_name && node.id
                == "function:"@ + identity(files[f], files[f].functions[i]),
        (forall|f: int| 0 <= f < k ==> (#[trigger] files[f]).base_path != Some(path) && files[f].target_path != Some(path)) ==> forall|i: int|
            0 <= i < files[k].functions.len() && ((#[trigger] files[k].functions[i]).base_range == Some(range) || files[k].functions[i].target_range
                == Some(range)) ==> node_at(files, r, path, range) is Some,
{
    lemma_first_file(files, path, files.len() as int);
    if forall|f: int| 0 <= f < k ==> (#[trigger] files[f]).base_path != Some(path) && files[f].target_path != Some(path) {
        lemma_first_file_is(files, path, files.len() as int, k);
        lemma_first_where(files[k].functions, recorded_at(range), 0);
        assert forall|i: int|
            0 <= i < files[k].functions.len() && ((#[trigger] files[k].functions[i]).base_range == Some(range) || files[k].functions[i].target_range
                == Some(range)) implies node_at(files, r, path, range) is Some by {
            assert(recorded_at(range)(files[k].functions[i]));
        }
    }
    if let Some(f) = first_file(files, path, files.len() as int) {
        lemma_first_where(files[f].functions, recorded_at(range), 0);
        if let Some(i) = first_where(files[f].functions, recorded_at(range), 0) {
            assert(recorded_at(range)(files[f].functions[i]));
            assert(files[f].functions[i].qualified_name == node_at(files, r, path, range)->0.label);
        }
    }
}

/// A module is shown to contain a function of it, in the revisions that have the
/// function.
pub proof fn lemma_containment_is_shown(scene: Scene, id: Seq<char>, i: int)
    requires
        local_place(scene.file, id) == Some(i),
        0 <= i < scene.file.functions.len(),
    ensures
        ({
            let function = scene.file.functions[i];
            let e = contains_edge(scene, id);
            &&& is_contained(scene, id) <==> function.base_range is Some || function.target_range is Some
            &&& e.from == "module:"@ + scene.path && e.to == id
            &&& e.relation == Relation::Contains && e.resolution == Resolution::Declaration
            &&& function.base_range is Some && function.target_range is Some ==> e.status == EdgeStatus::Unchanged
            &&& function.base_range is None && function.target_range is Some ==> e.status == EdgeStatus::Added
            &&& function.base_range is Some && function.target_range is None ==> e.status == EdgeStatus::Removed
        }),
{
}

/// A function of the file is found by its identity.
pub proof fn lemma_local_function_is_found(file: FileView, id: Seq<char>, n: int)
    requires
        0 <= n <= file.functions.len(),
    ensures
        last_identified(file, id, n) matches Some(i) ==> 0 <= i < n && "function:"@ + identity(file, file.functions[i]) == id,
        last_identified(file, id, n) is None ==> forall|i: int| 0 <= i < n ==> "function:"@ + identity(file, #[trigger] file.functions[i]) != id,
    decreases n,
{
    if n > 0 {
        lemma_local_function_is_found(file, id, n - 1);
    }
}

/// A function asked for is looked up in every changed file that has a path.
pub proof fn lemma_function_asked_for(files: Seq<FileView>, id: Seq<char>, from: int)
    requires
        0 <= from,
    ensures
        function_place(files, id, from) matches Some((f, at)) ==> from <= f < files.len() && (files[f].target_path is Some || files[f].base_path is Some)
            && place_in(files[f], id, 0) == Some(at),
        function_place(files, id, from) is None ==> forall|f: int|
            from <= f < files.len() && ((#[trigger] files[f]).target_path is Some || files[f].base_path is Some) ==> place_in(files[f], id, 0) is None,
    decreases files.len() - from,
{
    if from < files.len() {
        lemma_function_asked_for(files, id, from + 1);
    }
}

/// A node is declared where it is first mentioned, and goes by its key after
/// that.
pub proof fn lemma_first_mention_declares(nodes: Seq<NodeView>, edge: EdgeView, rest: Seq<EdgeView>, from: NodeView, to: NodeView, declared: Set<Seq<char>>)
    requires
        node_with(nodes, edge.from) == Some(from),
        node_with(nodes, edge.to) == Some(to),
    ensures
        drawn_edges(nodes, seq![edge] + rest, declared) == drawn_edge(edge, from, to, declared) + drawn_edges(
            nodes,
            rest,
            declared.insert(from.id).insert(to.id),
        ),
        declared.contains(from.id) ==> mention(from, declared) == from.key,
        !declared.contains(from.id) ==> mention(from, declared) == from.key + "[\""@ + crate::graph::render::label_of(from) + "\"]"@,
        drawn_edge(edge, from, to, declared) == "    "@ + mention(from, declared) + " "@ + crate::graph::render::arrow_of(edge) + " "@ + mention(
            to,
            declared.insert(from.id),
        ) + "\n"@,
{
    let all = seq![edge] + rest;
    assert(all[0] == edge);
    assert(all.drop_first() =~= rest);
}

} // verus!
