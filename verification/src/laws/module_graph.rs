//! What the graph of modules shows around the files asked for.

use vstd::prelude::*;

use crate::analysis::FunctionChangeStatus;
use crate::graph::assembly::{
    admitted_paths, changed_path_of, changed_roots, forward_edge, forwards_from, function_facts, hop_options, import_edge, import_way, is_module_edge,
    links_either, links_test, membership, module_facts, reached_modules, root_paths_of, status_in, test_edge, truncated_in, unresolved_in,
    RevisionsView,
};
use crate::graph::calls::Side;
use crate::graph::reach::{hops_along, is_reach};
use crate::graph::{Direction, EdgeStatus, EdgeView, NodeKind, NodeStatus, Relation, Resolution};
use crate::imports::{missed_by, read_in_part, IndexView};
use crate::laws::changes::at_most_32_bits;
use crate::laws::counting::{how_many, lemma_how_many_same};
use crate::laws::graph::{lemma_within_is_walked, walks};
use crate::collections::listed;
use crate::order::picked;
use crate::query::impact::TestLink;
use crate::result::{FileView, FunctionView};
use crate::FileStatus;

verus! {

/// A relationship that both revisions have is unchanged, one that only the
/// target has was added, and one that only the base has was removed.
pub proof fn lemma_status_compares_revisions(in_base: bool, in_target: bool)
    requires
        in_base || in_target,
    ensures
        membership(in_base, in_target) == EdgeStatus::Unchanged <==> in_base && in_target,
        membership(in_base, in_target) == EdgeStatus::Added <==> in_target && !in_base,
        membership(in_base, in_target) == EdgeStatus::Removed <==> in_base && !in_target,
{
}

/// An import is shown from the importer to what it imports, with the line that
/// imports it in the target, or in the base where it was removed.
pub proof fn lemma_import_is_shown(r: RevisionsView, from: Seq<char>, to: Seq<char>)
    ensures
        ({
            let e = import_edge(r, from, to);
            let base = r.base.edges.contains((from, to));
            let target = r.target.edges.contains((from, to));
            &&& e.from == "module:"@ + from && e.to == "module:"@ + to
            &&& e.relation == Relation::Imports && e.resolution == Resolution::ResolvedSpecifier
            &&& base && target ==> e.status == EdgeStatus::Unchanged
            &&& target && !base ==> e.status == EdgeStatus::Added
            &&& base && !target ==> e.status == EdgeStatus::Removed
            &&& target && r.target.lines.contains_key((from, to)) ==> e.evidence == Some((from, r.target.lines[(from, to)]))
            &&& target && !r.target.lines.contains_key((from, to)) ==> e.evidence is None
            &&& base && !target && r.base.lines.contains_key((from, to)) ==> e.evidence == Some((from, r.base.lines[(from, to)]))
        }),
{
}

/// A test is shown from the test to what it tests, by how it is linked.
pub proof fn lemma_test_is_shown(r: RevisionsView, path: Seq<char>, test: Seq<char>, link: TestLink)
    ensures
        ({
            let e = test_edge(r, path, test, link);
            let base = links_test(r.base, path, test, link);
            let target = links_test(r.target, path, test, link);
            &&& e.from == "module:"@ + test && e.to == "module:"@ + path
            &&& e.relation == Relation::TestedBy
            &&& link == TestLink::Imports ==> e.resolution == Resolution::TestImportsModule
            &&& link == TestLink::Convention ==> e.resolution == Resolution::TestNameMatchesModule
            &&& base && target ==> e.status == EdgeStatus::Unchanged
            &&& target && !base ==> e.status == EdgeStatus::Added
            &&& base && !target ==> e.status == EdgeStatus::Removed
            &&& e.evidence is None
        }),
{
}

/// A re-export is shown from the module that passes on to the one it passes on.
pub proof fn lemma_re_export_is_shown(r: RevisionsView, path: Seq<char>, module: Seq<char>, specifier: Seq<char>)
    ensures
        ({
            let e = forward_edge(r, path, module);
            let base = forwards_from(r.base, r.base_symbols, path, module);
            let target = forwards_from(r.target, r.target_symbols, path, module);
            &&& e.from == "module:"@ + path && e.to == "module:"@ + module
            &&& e.relation == Relation::ReExports && e.resolution == Resolution::ExportClause
            &&& base && target ==> e.status == EdgeStatus::Unchanged
            &&& target && !base ==> e.status == EdgeStatus::Added
            &&& base && !target ==> e.status == EdgeStatus::Removed
            &&& r.target_symbols.contains_key(path) && r.target_symbols[path].re_exported_modules.contains(specifier) && r.target.targets.contains_key(
                (path, specifier),
            ) && r.target.targets[(path, specifier)] == module ==> target
            &&& !r.target_symbols.contains_key(path) ==> !target
        }),
{
}

/// The graph shows the imports, tests and re-exports that are asked for, between
/// the modules reached, and nothing else.
pub proof fn lemma_relationships_asked_for(
    r: RevisionsView,
    relations: Seq<Relation>,
    reached: Map<Seq<char>, u32>,
    from: Seq<char>,
    to: Seq<char>,
    link: TestLink,
    e: EdgeView,
)
    ensures
        relations.contains(Relation::Imports) && reached.contains_key(from) && reached.contains_key(to) && (r.base.edges.contains((from, to))
            || r.target.edges.contains((from, to))) ==> is_module_edge(r, relations, reached, import_edge(r, from, to)),
        relations.contains(Relation::TestedBy) && reached.contains_key(to) && (links_test(r.base, to, from, link) || links_test(r.target, to, from, link))
            ==> is_module_edge(r, relations, reached, test_edge(r, to, from, link)),
        relations.contains(Relation::ReExports) && reached.contains_key(from) && reached.contains_key(to) && (forwards_from(
            r.base,
            r.base_symbols,
            from,
            to,
        ) || forwards_from(r.target, r.target_symbols, from, to)) ==> is_module_edge(r, relations, reached, forward_edge(r, from, to)),
        is_module_edge(r, relations, reached, e) ==> relations.contains(e.relation),
        is_module_edge(r, relations, reached, e) ==> e.relation == Relation::Imports || e.relation == Relation::TestedBy || e.relation
            == Relation::ReExports,
{
}

/// Whether one module is a step from another in a direction: upstream goes from
/// what is imported to its importers, downstream from an importer to what it
/// imports.
pub open spec fn steps(r: RevisionsView, direction: Direction) -> spec_fn(Seq<char>, Seq<char>) -> bool {
    |a: Seq<char>, b: Seq<char>|
        {
            let up = r.base.edges.contains((b, a)) || r.target.edges.contains((b, a));
            let down = r.base.edges.contains((a, b)) || r.target.edges.contains((a, b));
            match direction {
                Direction::Upstream => up,
                Direction::Downstream => down,
                Direction::Both => up || down,
            }
        }
}

/// How many steps a request asks for.
pub open spec fn hops_asked(relations: Seq<Relation>, depth: u32) -> nat {
    if relations.contains(Relation::Imports) {
        depth as nat
    } else {
        0
    }
}

/// The modules reached are those that a walk from the roots ends at, within the
/// depth, each with the fewest steps; none but the roots where imports are not
/// asked for.
pub proof fn lemma_modules_reached(
    r: RevisionsView,
    roots: Seq<Seq<char>>,
    direction: Direction,
    relations: Seq<Relation>,
    depth: u32,
    path: Seq<char>,
    way: Seq<Seq<char>>,
)
    requires
        exists|reached: Map<Seq<char>, u32>| #[trigger]
            is_reach(reached, roots.to_set(), hops_along(import_way(r), direction), hops_asked(relations, depth)),
    ensures
        ({
            let reached = reached_modules(r, roots, direction, relations, depth);
            let hops = hops_asked(relations, depth);
            &&& walks(way, roots.to_set(), steps(r, direction), path) && way.len() <= hops + 1 ==> reached.contains_key(path) && reached[path] + 1
                <= way.len()
            &&& reached.contains_key(path) ==> exists|w: Seq<Seq<char>>| #[trigger]
                walks(w, roots.to_set(), steps(r, direction), path) && w.len() == reached[path] + 1
        }),
{
    let hops = hops_asked(relations, depth);
    let hop = hops_along(import_way(r), direction);
    let start = roots.to_set();
    let reached = reached_modules(r, roots, direction, relations, depth);
    assert(is_reach(reached, start, hop, hops));
    assert(hop =~= steps(r, direction)) by {
        assert forall|a: Seq<char>, b: Seq<char>| #[trigger] hop(a, b) == steps(r, direction)(a, b) by {}
    }
    if walks(way, start, steps(r, direction), path) && way.len() <= hops + 1 {
        lemma_within_is_walked(start, hop, hops, path);
        assert(reached.contains_key(path));
        let n = reached[path] as nat;
        if n > 0 && way.len() <= n {
            lemma_within_is_walked(start, hop, (n - 1) as nat, path);
        }
    }
    if reached.contains_key(path) {
        let n = reached[path] as nat;
        lemma_within_is_walked(start, hop, n, path);
        let w = choose|w: Seq<Seq<char>>| #[trigger] walks(w, start, hop, path) && w.len() <= n + 1;
        if n > 0 && w.len() <= n {
            lemma_within_is_walked(start, hop, (n - 1) as nat, path);
        }
        assert(walks(w, start, steps(r, direction), path) && w.len() == n + 1);
    }
}

/// The paths whose sources are read are those of the files changed, and those
/// that import one of them or are imported by one in either revision.
pub proof fn lemma_paths_admitted(files: Seq<FileView>, base: IndexView, target: IndexView, i: int, path: Seq<char>, other: Seq<char>)
    ensures
        0 <= i < files.len() && (files[i].base_path == Some(path) || files[i].target_path == Some(path)) && (other == path || base.edges.contains((other, path))
            || base.edges.contains((path, other)) || target.edges.contains((other, path)) || target.edges.contains((path, other))) ==> admitted_paths(
            files,
            base,
            target,
        ).contains(other),
        admitted_paths(files, base, target).contains(other) ==> exists|k: int, p: Seq<char>|
            0 <= k < files.len() && #[trigger] crate::graph::assembly::has_path(files[k], p) && (other == p || base.edges.contains((other, p))
                || base.edges.contains((p, other)) || target.edges.contains((other, p)) || target.edges.contains((p, other))),
{
    if 0 <= i < files.len() && (files[i].base_path == Some(path) || files[i].target_path == Some(path)) {
        assert(crate::graph::assembly::has_path(files[i], path));
    }
}

/// A module is a node named after its file, with the status of its change.
pub proof fn lemma_module_is_shown(files: Seq<FileView>, path: Seq<char>, depth: u32)
    ensures
        ({
            let node = module_facts(files, path, depth);
            &&& node.id == "module:"@ + path
            &&& node.kind == NodeKind::Module
            &&& node.path == path
            &&& node.depth == depth
            &&& node.status == status_in(files, path)
        }),
{
}

/// A module has the status of the last change to its path: added, removed, or
/// modified in any other way. One that no change has is unchanged.
pub proof fn lemma_module_status(files: Seq<FileView>, path: Seq<char>, k: int)
    ensures
        0 <= k < files.len() && (files[k].target_path == Some(path) || (files[k].target_path is None && files[k].base_path == Some(path))) && (forall|j: int|
            k < j < files.len() ==> changed_path_of(#[trigger] files[j]) != Some(path)) ==> status_in(files, path) == match files[k].status {
            FileStatus::Added => NodeStatus::Added,
            FileStatus::Deleted => NodeStatus::Removed,
            FileStatus::Modified | FileStatus::Renamed | FileStatus::Binary => NodeStatus::Modified,
        },
        (forall|j: int| 0 <= j < files.len() ==> changed_path_of(#[trigger] files[j]) != Some(path)) ==> status_in(files, path) == NodeStatus::Unchanged,
    decreases files.len(),
{
    let n = files.len() as int;
    if n > 0 {
        let fewer = files.drop_last();
        assert(files[n - 1] == files.last());
        lemma_module_status(fewer, path, k);
        assert(forall|j: int| 0 <= j < fewer.len() ==> #[trigger] fewer[j] == files[j]);
        if 0 <= k < n - 1 {
            assert(fewer[k] == files[k]);
            if forall|j: int| k < j < files.len() ==> changed_path_of(#[trigger] files[j]) != Some(path) {
                assert(changed_path_of(files[n - 1]) != Some(path));
            }
        }
        if forall|j: int| 0 <= j < files.len() ==> changed_path_of(#[trigger] files[j]) != Some(path) {
            assert(changed_path_of(files[n - 1]) != Some(path));
        }
    }
}

/// A function is a node named by its identity and its qualified name, with the
/// status of its change.
pub proof fn lemma_function_is_shown(file: FileView, path: Seq<char>, function: FunctionView)
    ensures
        ({
            let node = function_facts(file, path, function);
            &&& node.id == "function:"@ + crate::query::rows::identity(file, function)
            &&& node.label == function.qualified_name
            &&& node.kind == NodeKind::Function
            &&& node.path == path
            &&& node.status == match function.status {
                FunctionChangeStatus::Added => NodeStatus::Added,
                FunctionChangeStatus::Removed => NodeStatus::Removed,
                FunctionChangeStatus::Modified => NodeStatus::Modified,
                FunctionChangeStatus::Unchanged => NodeStatus::Unchanged,
            }
        }),
{
}

/// Where no file is asked for, all changed files are the roots, by their target
/// path, or their base path where they are gone.
pub proof fn lemma_all_changes_are_roots(files: Seq<FileView>, roots: Seq<Seq<char>>, path: Seq<char>)
    ensures
        roots.len() > 0 ==> root_paths_of(files, roots) == roots,
        roots.len() == 0 ==> (root_paths_of(files, roots).contains(path) <==> exists|i: int|
            0 <= i < files.len() && ((#[trigger] files[i]).target_path == Some(path) || (files[i].target_path is None && files[i].base_path == Some(path)))),
    decreases files.len(),
{
    let n = files.len() as int;
    if roots.len() == 0 {
        if n > 0 {
            let fewer = files.drop_last();
            lemma_all_changes_are_roots(fewer, roots, path);
            let before = changed_roots(fewer);
            assert(files[n - 1] == files.last());
            if let Some(own) = changed_path_of(files.last()) {
                crate::collections::lemma_push_contains(before, own);
                assert(changed_roots(files).contains(path) <==> before.contains(path) || path == own);
            }
            if before.contains(path) {
                let i = choose|i: int|
                    0 <= i < fewer.len() && ((#[trigger] fewer[i]).target_path == Some(path) || (fewer[i].target_path is None && fewer[i].base_path
                        == Some(path)));
                assert(files[i] == fewer[i]);
            }
            if exists|i: int|
                0 <= i < files.len() && ((#[trigger] files[i]).target_path == Some(path) || (files[i].target_path is None && files[i].base_path == Some(
                    path,
                ))) {
                let i = choose|i: int|
                    0 <= i < files.len() && ((#[trigger] files[i]).target_path == Some(path) || (files[i].target_path is None && files[i].base_path
                        == Some(path)));
                if i < n - 1 {
                    assert(fewer[i] == files[i]);
                }
            }
        } else {
            assert(!changed_roots(files).contains(path));
        }
    }
}

/// The modules that the graph shows are those reached, and the tests of those
/// one step further where tests are asked for.
pub proof fn lemma_modules_shown(r: RevisionsView, tests: bool, reached: Map<Seq<char>, u32>, path: Seq<char>, test: Seq<char>, link: TestLink)
    ensures
        reached.contains_key(path) ==> hop_options(r, tests, reached).contains((path, reached[path])),
        tests && reached.contains_key(path) && reached[path] < u32::MAX && (links_test(r.base, path, test, link) || links_test(r.target, path, test, link))
            ==> hop_options(r, tests, reached).contains((test, (reached[path] + 1) as u32)),
        !tests ==> forall|d: u32| #[trigger] hop_options(r, tests, reached).contains((test, d)) ==> reached.contains_key(test) && d == reached[test],
{
    if tests && reached.contains_key(path) && (links_test(r.base, path, test, link) || links_test(r.target, path, test, link)) {
        assert(links_either(r, path, test, link));
    }
}

proof fn lemma_picked_count(paths: Seq<Seq<char>>, keep: spec_fn(Seq<char>) -> bool)
    ensures
        picked(paths, keep).len() == how_many(paths.len() as int, |i: int| keep(paths[i])),
    decreases paths.len(),
{
    let n = paths.len() as int;
    if n > 0 {
        let fewer = paths.drop_last();
        lemma_picked_count(fewer, keep);
        lemma_how_many_same(n - 1, |i: int| keep(paths[i]), |i: int| keep(fewer[i]));
    }
}

/// A gap of a side counts where the view shows that side: the files of the
/// scope that were read in part, and the imports of the scope that led nowhere.
pub proof fn lemma_gaps_are_of_the_view(r: RevisionsView, view: crate::graph::View, scope: Set<Seq<char>>)
    ensures
        view == crate::graph::View::Target ==> truncated_in(r, view, Side::Base, scope) == 0 && unresolved_in(r, view, Side::Base, scope) == 0,
        view == crate::graph::View::Base ==> truncated_in(r, view, Side::Target, scope) == 0 && unresolved_in(r, view, Side::Target, scope) == 0,
        view != crate::graph::View::Target ==> at_most_32_bits(
            how_many(listed(scope).len() as int, |i: int| r.base.truncated.contains(listed(scope)[i])),
            truncated_in(r, view, Side::Base, scope) as u32,
        ),
        view != crate::graph::View::Base ==> at_most_32_bits(
            how_many(listed(scope).len() as int, |i: int| r.target.truncated.contains(listed(scope)[i])),
            truncated_in(r, view, Side::Target, scope) as u32,
        ),
{
    let paths = listed(scope);
    let n = paths.len() as int;
    lemma_picked_count(paths, read_in_part(r.base.truncated));
    lemma_picked_count(paths, read_in_part(r.target.truncated));
    lemma_how_many_same(n, |i: int| read_in_part(r.base.truncated)(paths[i]), |i: int| r.base.truncated.contains(listed(scope)[i]));
    lemma_how_many_same(n, |i: int| read_in_part(r.target.truncated)(paths[i]), |i: int| r.target.truncated.contains(listed(scope)[i]));
}

/// What imports lead nowhere in a scope is the sum over its files.
pub proof fn lemma_misses_add_up(misses: Map<Seq<char>, u32>, paths: Seq<Seq<char>>)
    ensures
        missed_by(misses, paths) == crate::laws::counting::sum(
            paths.len() as int,
            |i: int|
                if misses.contains_key(paths[i]) {
                    misses[paths[i]] as nat
                } else {
                    0nat
                },
        ),
    decreases paths.len(),
{
    let n = paths.len() as int;
    if n > 0 {
        let fewer = paths.drop_last();
        lemma_misses_add_up(misses, fewer);
        crate::laws::listing::lemma_sum_same(
            n - 1,
            |i: int|
                if misses.contains_key(paths[i]) {
                    misses[paths[i]] as nat
                } else {
                    0nat
                },
            |i: int|
                if misses.contains_key(fewer[i]) {
                    misses[fewer[i]] as nat
                } else {
                    0nat
                },
        );
    }
}

} // verus!
