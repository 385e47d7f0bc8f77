//! How a whole graph is put together.

use vstd::prelude::*;

use crate::graph::assembly::{
    answered_graph, described, function_gaps, function_graph, function_place, function_scope, hop_options, module_gaps, module_graph, path_in,
    reached_modules, root_identities, root_paths_of, scene_of, truncated_in, unresolved_in, RequestView, RevisionsView,
};
use crate::graph::callgraph::{calls_around, contains_edge, function_nodes, is_call_edge, is_contained, is_contains_edge, reached_functions};
use crate::graph::calls::{all_missed, all_seen, callers_in, first_file, last_named, own_identity, yielded, CallerView, Scene, SeenView, Side};
use crate::graph::groups::{classified, groupable, grouped_graph, groups_needed_by, testers, with_group, GroupedView};
use crate::graph::reach::{hops_along, is_reach};
use crate::graph::{delivered, reported, BuilderView, CompletenessView, Direction, EdgeView, GroupRole, Limits, NodeKind, Relation};
use crate::laws::changes::at_most_32_bits;
use crate::laws::graph::{is_finite, lemma_within_is_walked, walks};
use crate::laws::groups::lemma_what_fits_stays;
use crate::laws::words::lemma_finite_is_listed;
use crate::query::classify::FileClassification;
use crate::query::rows::identity;
use crate::result::{FileView, FunctionView, ResultView};

verus! {

proof fn lemma_yields<A, B>(items: Seq<A>, pick: spec_fn(A) -> Option<B>, i: int, b: B)
    requires
        0 <= i < items.len(),
        pick(items[i]) == Some(b),
    ensures
        yielded(items, pick).contains(b),
    decreases items.len(),
{
    let n = items.len() as int;
    let fewer = items.drop_last();
    let before = yielded(fewer, pick);
    if i < n - 1 {
        assert(fewer[i] == items[i]);
        lemma_yields(fewer, pick, i, b);
        let k = choose|k: int| 0 <= k < before.len() && before[k] == b;
        assert(yielded(items, pick)[k] == b);
    } else {
        assert(yielded(items, pick)[before.len() as int] == b);
    }
}

/// The callers in a changed file are its functions on that side, each with the
/// calls that it writes there; those in any other file are its definitions.
pub proof fn lemma_callers_are_functions(files: Seq<FileView>, r: RevisionsView, importer: Seq<char>, k: int, i: int)
    ensures
        first_file(files, importer, files.len() as int) == Some(k) && 0 <= k < files.len() && 0 <= i < files[k].functions.len() ==> {
            let f = files[k].functions[i];
            &&& f.base_range matches Some(range) ==> callers_in(files, r, importer, Side::Base).contains(CallerView { range, calls: f.calls_before })
            &&& f.target_range matches Some(range) ==> callers_in(files, r, importer, Side::Target).contains(CallerView { range, calls: f.calls_after })
        },
        first_file(files, importer, files.len() as int) is None && r.base_symbols.contains_key(importer) && 0 <= i
            < r.base_symbols[importer].functions.len() ==> callers_in(files, r, importer, Side::Base)[i] == (CallerView {
            range: r.base_symbols[importer].functions[i].range,
            calls: r.base_symbols[importer].functions[i].calls,
        }),
        first_file(files, importer, files.len() as int) is None && r.target_symbols.contains_key(importer) && 0 <= i
            < r.target_symbols[importer].functions.len() ==> callers_in(files, r, importer, Side::Target)[i] == (CallerView {
            range: r.target_symbols[importer].functions[i].range,
            calls: r.target_symbols[importer].functions[i].calls,
        }),
{
    if first_file(files, importer, files.len() as int) == Some(k) && 0 <= k < files.len() && 0 <= i < files[k].functions.len() {
        let f = files[k].functions[i];
        if let Some(range) = f.base_range {
            lemma_yields(files[k].functions, crate::graph::calls::recorded_caller(Side::Base), i, CallerView { range, calls: f.calls_before });
        }
        if let Some(range) = f.target_range {
            lemma_yields(files[k].functions, crate::graph::calls::recorded_caller(Side::Target), i, CallerView { range, calls: f.calls_after });
        }
    }
}

proof fn lemma_last_named(functions: Seq<FunctionView>, i: int, n: int)
    requires
        0 <= i < n <= functions.len(),
        forall|a: int, b: int| 0 <= a < b < functions.len() ==> (#[trigger] functions[a]).id != (#[trigger] functions[b]).id,
    ensures
        last_named(functions, functions[i].id, n) == Some(i),
    decreases n,
{
    if i < n - 1 {
        assert(functions[i].id != functions[n - 1].id);
        lemma_last_named(functions, i, n - 1);
    }
}

/// A function of the file goes by its own identity.
pub proof fn lemma_function_goes_by_identity(file: FileView, i: int)
    requires
        0 <= i < file.functions.len(),
        forall|a: int, b: int| 0 <= a < b < file.functions.len() ==> (#[trigger] file.functions[a]).id != (#[trigger] file.functions[b]).id,
    ensures
        own_identity(file, i) == "function:"@ + identity(file, file.functions[i]),
{
    lemma_last_named(file.functions, i, file.functions.len() as int);
}

/// What bears on a function are its own file and the files that import it, on
/// each side.
pub proof fn lemma_scope_of_function(r: RevisionsView, file: FileView, path: Seq<char>, other: Seq<char>)
    ensures
        function_scope(r, file, path, Side::Base).contains(other) <==> r.base.edges.contains((other, path)) || file.base_path == Some(other),
        function_scope(r, file, path, Side::Target).contains(other) <==> r.target.edges.contains((other, path)) || file.target_path == Some(other),
{
}

/// A request sets the scene: the file and its path, the view, and guesses only
/// where possible calls are asked for.
pub proof fn lemma_scene_is_set(files: Seq<FileView>, r: RevisionsView, request: RequestView, file: int)
    requires
        0 <= file < files.len(),
    ensures
        ({
            let scene = scene_of(files, r, request, file);
            &&& scene.files == files && scene.revisions == r && scene.file == files[file]
            &&& scene.guess <==> request.relations.contains(Relation::PossibleCall)
            &&& scene.view == request.view
            &&& files[file].target_path matches Some(path) ==> scene.path == path
            &&& files[file].target_path is None ==> (files[file].base_path matches Some(path) ==> scene.path == path)
        }),
{
}

/// Whether one function is a step from another: upstream goes from what is
/// called to its callers, downstream from a caller to what it calls.
pub open spec fn call_steps(seen: Seq<SeenView>, relations: Seq<Relation>, direction: Direction) -> spec_fn(Seq<char>, Seq<char>) -> bool {
    |a: Seq<char>, b: Seq<char>|
        {
            let up = exists|k: int| #[trigger] asked_call(seen, relations, k, b, a);
            let down = exists|k: int| #[trigger] asked_call(seen, relations, k, a, b);
            match direction {
                Direction::Upstream => up,
                Direction::Downstream => down,
                Direction::Both => up || down,
            }
        }
}

/// Whether a call seen goes from one function to another, by a relation asked
/// for.
pub open spec fn asked_call(seen: Seq<SeenView>, relations: Seq<Relation>, k: int, from: Seq<char>, to: Seq<char>) -> bool {
    0 <= k < seen.len() && seen[k].from == from && seen[k].to == to && (if seen[k].guessed {
        relations.contains(Relation::PossibleCall)
    } else {
        relations.contains(Relation::Calls)
    })
}

proof fn lemma_leads(seen: Seq<SeenView>, relations: Seq<Relation>, a: Seq<char>, b: Seq<char>)
    ensures
        crate::graph::callgraph::leads_to(seen, relations, a, b) <==> exists|k: int| #[trigger] asked_call(seen, relations, k, a, b),
{
    if crate::graph::callgraph::leads_to(seen, relations, a, b) {
        let k = choose|k: int|
            0 <= k < seen.len() && crate::graph::callgraph::followed(relations, #[trigger] seen[k]) && seen[k].from == a && seen[k].to == b;
        assert(asked_call(seen, relations, k, a, b));
    }
    if exists|k: int| #[trigger] asked_call(seen, relations, k, a, b) {
        let k = choose|k: int| #[trigger] asked_call(seen, relations, k, a, b);
        assert(crate::graph::callgraph::followed(relations, seen[k]));
    }
}

/// The functions reached are those that a walk along the calls from the root
/// ends at, within the depth, each with the fewest steps.
pub proof fn lemma_functions_reached(
    seen: Seq<SeenView>,
    relations: Seq<Relation>,
    root: Seq<char>,
    direction: Direction,
    depth: u32,
    id: Seq<char>,
    way: Seq<Seq<char>>,
)
    requires
        exists|reached: Map<Seq<char>, u32>| #[trigger]
            is_reach(reached, seq![root].to_set(), hops_along(crate::graph::callgraph::call_way(seen, relations), direction), depth as nat),
    ensures
        ({
            let reached = reached_functions(seen, relations, root, direction, depth);
            let start = seq![root].to_set();
            let steps = call_steps(seen, relations, direction);
            &&& walks(way, start, steps, id) && way.len() <= depth + 1 ==> reached.contains_key(id) && reached[id] + 1 <= way.len()
            &&& reached.contains_key(id) ==> exists|w: Seq<Seq<char>>| #[trigger] walks(w, start, steps, id) && w.len() == reached[id] + 1
        }),
{
    let hop = hops_along(crate::graph::callgraph::call_way(seen, relations), direction);
    let steps = call_steps(seen, relations, direction);
    let start = seq![root].to_set();
    let reached = reached_functions(seen, relations, root, direction, depth);
    assert(is_reach(reached, start, hop, depth as nat));
    assert(hop =~= steps) by {
        assert forall|a: Seq<char>, b: Seq<char>| #[trigger] hop(a, b) == steps(a, b) by {
            lemma_leads(seen, relations, a, b);
            lemma_leads(seen, relations, b, a);
        }
    }
    if walks(way, start, steps, id) && way.len() <= depth + 1 {
        lemma_within_is_walked(start, hop, depth as nat, id);
        assert(reached.contains_key(id));
        let n = reached[id] as nat;
        if n > 0 && way.len() <= n {
            lemma_within_is_walked(start, hop, (n - 1) as nat, id);
        }
    }
    if reached.contains_key(id) {
        let n = reached[id] as nat;
        lemma_within_is_walked(start, hop, n, id);
        let w = choose|w: Seq<Seq<char>>| #[trigger] walks(w, start, hop, id) && w.len() <= n + 1;
        if n > 0 && w.len() <= n {
            lemma_within_is_walked(start, hop, (n - 1) as nat, id);
        }
        assert(walks(w, start, steps, id) && w.len() == n + 1);
    }
}

/// The graph around a function has that function as its root, the functions
/// reached and the calls between them. Where containment is asked for, it has
/// the module of the function, one step away, and what the module contains.
pub proof fn lemma_graph_around_function(scene: Scene, at: int, direction: Direction, relations: Seq<Relation>, depth: u32, id: Seq<char>, e: EdgeView)
    requires
        0 <= at < scene.file.functions.len(),
    ensures
        ({
            let out = calls_around(scene, at, direction, relations, depth);
            let root = "function:"@ + identity(scene.file, scene.file.functions[at]);
            let module = "module:"@ + scene.path;
            let seen = all_seen(scene);
            let reached = reached_functions(seen, relations, root, direction, depth);
            let nodes = function_nodes(scene, seen, reached);
            &&& out.roots.contains(id) <==> id == root
            &&& id != module ==> (out.nodes.contains_key(id) <==> nodes.contains_key(id))
            &&& id != module && nodes.contains_key(id) ==> out.nodes[id] == nodes[id]
            &&& relations.contains(Relation::Contains) ==> out.nodes.contains_key(module)
            &&& relations.contains(Relation::Contains) && !nodes.contains_key(module) ==> out.nodes[module].depth == 1 && out.nodes[module].kind
                == NodeKind::Module
            &&& out.edges.contains(e) <==> is_call_edge(seen, relations, reached, e) || (relations.contains(Relation::Contains) && is_contains_edge(
                scene,
                reached,
                e,
            ))
            &&& reached.contains_key(id) && is_contained(scene, id) ==> is_contains_edge(scene, reached, contains_edge(scene, id))
        }),
{
}

/// The graph of modules has the roots asked for, the modules that are reached,
/// each at the fewest steps, and the relationships asked for.
pub proof fn lemma_graph_of_modules(
    files: Seq<FileView>,
    r: RevisionsView,
    roots: Seq<Seq<char>>,
    direction: Direction,
    relations: Seq<Relation>,
    depth: u32,
    path: Seq<char>,
    e: EdgeView,
)
    ensures
        ({
            let out = module_graph(files, r, roots, direction, relations, depth);
            let reached = reached_modules(r, roots, direction, relations, depth);
            let options = hop_options(r, relations.contains(Relation::TestedBy), reached);
            let id = "module:"@ + path;
            &&& out.roots.contains(id) <==> roots.contains(path)
            &&& out.nodes.contains_key(id) <==> exists|d: u32| #[trigger] options.contains((path, d))
            &&& out.nodes.contains_key(id) ==> out.nodes[id].path == path && out.nodes[id].kind == NodeKind::Module
            &&& out.edges.contains(e) <==> crate::graph::assembly::is_module_edge(r, relations, reached, e)
        }),
{
    let id = "module:"@ + path;
    assert(path_in(id) =~= path);
    if root_identities(roots).contains(id) {
        let i = choose|i: int| 0 <= i < roots.len() && id == crate::graph::module_identity(#[trigger] roots[i]);
        assert(path_in(crate::graph::module_identity(roots[i])) =~= roots[i]);
    }
    if roots.contains(path) {
        let i = choose|i: int| 0 <= i < roots.len() && roots[i] == path;
        assert(id == crate::graph::module_identity(roots[i]));
    }
}

/// A group is needed for a side of two or more.
pub proof fn lemma_group_is_needed(side: Set<Seq<char>>)
    requires
        side.finite(),
    ensures
        side.len() >= 2 ==> groups_needed_by(side) == 1,
        side.len() < 2 ==> groups_needed_by(side) == 0,
{
    lemma_finite_is_listed(side);
}

proof fn lemma_too_few(g: GroupedView, role: GroupRole, given: Set<Seq<char>>)
    requires
        given.finite(),
        given.difference(g.builder.roots).len() < 2,
    ensures
        with_group(g, role, given) == g,
{
    let members = given.difference(g.builder.roots);
    vstd::set_lib::lemma_set_subset_finite(given, members);
    lemma_finite_is_listed(members);
    assert(groupable(g.builder, given).len() == members.len());
}

/// Whether fewer than two nodes besides the roots are in a set.
pub open spec fn too_few(b: BuilderView, given: Set<Seq<char>>) -> bool {
    given.finite() && given.difference(b.roots).len() < 2
}

/// A graph that fits, and of which fewer than two nodes could stand together,
/// is shown as it is in the view asked for, with what is lacking.
pub proof fn lemma_small_graph_is_shown(whole: BuilderView, gaps: CompletenessView, view: crate::graph::View, limits: Limits)
    requires
        ({
            let b = whole.seen_in(view);
            &&& is_finite(b)
            &&& b.nodes.dom().len() <= limits.max_nodes
            &&& too_few(b, testers(b))
            &&& too_few(b, classified(b, FileClassification::Generated))
            &&& too_few(b, classified(b, FileClassification::Vendored))
            &&& too_few(b, classified(b, FileClassification::Lockfile))
        }),
    ensures
        answered_graph(whole, gaps, view, limits) == reported(delivered(whole.seen_in(view), limits), Seq::empty(), 0, gaps),
        answered_graph(whole, gaps, view, limits).completeness == gaps,
        answered_graph(whole, gaps, view, limits).nodes == delivered(whole.seen_in(view), limits).nodes,
        answered_graph(whole, gaps, view, limits).edges == delivered(whole.seen_in(view), limits).edges,
{
    let b = whole.seen_in(view);
    let g = GroupedView { builder: b, groups: Seq::empty(), omitted: 0 };
    lemma_too_few(g, GroupRole::Tests, testers(b));
    lemma_too_few(g, GroupRole::Generated, classified(b, FileClassification::Generated));
    lemma_too_few(g, GroupRole::Vendored, classified(b, FileClassification::Vendored));
    lemma_too_few(g, GroupRole::Lockfile, classified(b, FileClassification::Lockfile));
    lemma_what_fits_stays(g, limits);
    assert(grouped_graph(b, limits) == g);
}

/// Tests stand together where two or more besides the roots are in the graph.
pub proof fn lemma_tests_stand_together(b: BuilderView, limits: Limits)
    requires
        testers(b).finite(),
        testers(b).difference(b.roots).len() >= 2,
    ensures
        ({
            let g = GroupedView { builder: b, groups: Seq::empty(), omitted: 0 };
            let out = with_group(g, GroupRole::Tests, testers(b));
            &&& out.groups.len() == 1 && out.groups[0].role == GroupRole::Tests
            &&& out.builder.nodes.contains_key("group:"@ + "tests"@)
        }),
{
    let g = GroupedView { builder: b, groups: Seq::empty(), omitted: 0 };
    crate::laws::groups::lemma_group_takes_their_place(g, GroupRole::Tests, testers(b), Seq::empty());
}

/// A request for a function is answered with the graph around it, any other
/// with that of its modules, each with what it lacks.
pub proof fn lemma_request_is_answered(result: ResultView, r: RevisionsView, request: RequestView, id: Seq<char>)
    ensures
        request.function_root == Some(id) ==> described(result, r, request) == answered_graph(
            function_graph(result.files, r, id, request),
            function_gaps(result.files, r, id, request),
            request.view,
            request.limits,
        ),
        request.function_root is None ==> described(result, r, request) == answered_graph(
            module_graph(
                result.files,
                r,
                root_paths_of(result.files, request.roots),
                request.direction,
                request.relations,
                request.depth,
            ),
            module_gaps(result.files, r, request),
            request.view,
            request.limits,
        ),
        (function_place(result.files, id, 0) matches Some((file, at)) ==> function_graph(result.files, r, id, request) == calls_around(
            scene_of(result.files, r, request, file),
            at,
            request.direction,
            request.relations,
            request.depth,
        )),
{
}

/// What a graph lacks is counted over its scope on both sides; around a
/// function, each call site that leads nowhere counts once.
pub proof fn lemma_what_is_lacking(files: Seq<FileView>, r: RevisionsView, id: Seq<char>, request: RequestView)
    ensures
        ({
            let scope = reached_modules(r, root_paths_of(files, request.roots), request.direction, request.relations, request.depth).dom();
            let gaps = module_gaps(files, r, request);
            &&& at_most_32_bits(
                truncated_in(r, request.view, Side::Base, scope) + truncated_in(r, request.view, Side::Target, scope),
                gaps.scan_truncated_files,
            )
            &&& at_most_32_bits(
                unresolved_in(r, request.view, Side::Base, scope) + unresolved_in(r, request.view, Side::Target, scope),
                gaps.unresolved_specifiers,
            )
            &&& gaps.unresolved_calls == 0
        }),
        (function_place(files, id, 0) matches Some((file, at)) ==> {
            let scene = scene_of(files, r, request, file);
            let base = function_scope(r, files[file], scene.path, Side::Base);
            let target = function_scope(r, files[file], scene.path, Side::Target);
            let gaps = function_gaps(files, r, id, request);
            &&& at_most_32_bits(all_missed(scene).to_set().len(), gaps.unresolved_calls)
            &&& at_most_32_bits(
                truncated_in(r, request.view, Side::Base, base) + truncated_in(r, request.view, Side::Target, target),
                gaps.scan_truncated_files,
            )
            &&& at_most_32_bits(
                unresolved_in(r, request.view, Side::Base, base) + unresolved_in(r, request.view, Side::Target, target),
                gaps.unresolved_specifiers,
            )
        }),
{
}

} // verus!
