//! Which function calls which.

use vstd::prelude::*;

use crate::collections::listed;
use crate::graph::assembly::RevisionsView;
use crate::graph::callgraph::{call_edge, call_way, entry_of, function_nodes, is_call_edge, known_node, leads_to, EntryView};
use crate::graph::calls::{
    declares_alone, declares_at, all_missed, all_seen, callee_of, caller_part, callers_in, importer_part, imported_callee, in_sight, index_on, inward_call, inward_misses,
    inward_on, joined, local_call, local_part, local_target, named_import, node_at, outward_call, outward_miss, outward_misses, outward_part,
    own_identity, presence, same_start, sole_place, written_calls, yielded, Place, Scene, SeenView, Side, SiteView,
};
use crate::graph::{resolution_confidence, Direction, EdgeStatus, EdgeView, NodeStatus, Relation, Resolution};
use crate::imports::IndexView;
use crate::languages::modules::ImportedView;
use crate::languages::{CallView, SourceRange};
use crate::imports::symbols::{defined, FileSymbolsView};

verus! {

/// Whether a call seen goes between two functions.
pub open spec fn between(seen: Seq<SeenView>, k: int, from: Seq<char>, to: Seq<char>, guessed: bool) -> bool {
    0 <= k < seen.len() && seen[k].from == from && seen[k].to == to && seen[k].guessed == guessed
}

/// Whether a line is the first of the calls on a side.
pub open spec fn first_line(seen: Seq<SeenView>, from: Seq<char>, to: Seq<char>, guessed: bool, side: Side, line: Option<u32>) -> bool {
    &&& forall|k: int| #[trigger] between(seen, k, from, to, guessed) && seen[k].side == side ==> line is Some && line->0 <= seen[k].line
    &&& line matches Some(n) ==> exists|k: int| #[trigger] between(seen, k, from, to, guessed) && seen[k].side == side && seen[k].line == n
}

/// Whether a resolution is the least certain of the calls.
pub open spec fn least_certain(seen: Seq<SeenView>, from: Seq<char>, to: Seq<char>, guessed: bool, resolution: Resolution) -> bool {
    &&& forall|k: int| #[trigger]
        between(seen, k, from, to, guessed) ==> resolution_confidence(resolution) <= resolution_confidence(seen[k].resolution)
    &&& exists|k: int| #[trigger] between(seen, k, from, to, guessed) && seen[k].resolution == resolution
}

/// Whether an entry sums up the calls between two functions.
pub open spec fn sums_up(entry: EntryView, seen: Seq<SeenView>, from: Seq<char>, to: Seq<char>, guessed: bool) -> bool {
    &&& entry.in_base <==> exists|k: int| #[trigger] between(seen, k, from, to, guessed) && seen[k].side == Side::Base
    &&& entry.in_target <==> exists|k: int| #[trigger] between(seen, k, from, to, guessed) && seen[k].side == Side::Target
    &&& first_line(seen, from, to, guessed, Side::Base, entry.base_line)
    &&& first_line(seen, from, to, guessed, Side::Target, entry.target_line)
    &&& least_certain(seen, from, to, guessed, entry.resolution)
}

proof fn lemma_between(seen: Seq<SeenView>, from: Seq<char>, to: Seq<char>, guessed: bool)
    requires
        seen.len() > 0,
    ensures
        forall|k: int| k < seen.len() - 1 ==> #[trigger] between(seen.drop_last(), k, from, to, guessed) == between(seen, k, from, to, guessed),
        forall|k: int| k < seen.len() - 1 ==> #[trigger] between(seen, k, from, to, guessed) == between(seen.drop_last(), k, from, to, guessed),
        forall|k: int| #[trigger] between(seen.drop_last(), k, from, to, guessed) ==> seen.drop_last()[k] == seen[k],
{
}

/// The calls between two functions are one entry: in a revision where one of
/// them is, with the first line there, and as certain as the least certain.
#[verifier::rlimit(40)]
pub proof fn lemma_calls_are_summed_up(seen: Seq<SeenView>, from: Seq<char>, to: Seq<char>, guessed: bool)
    ensures
        match entry_of(seen, from, to, guessed) {
            Some(entry) => sums_up(entry, seen, from, to, guessed),
            None => forall|k: int| !#[trigger] between(seen, k, from, to, guessed),
        },
    decreases seen.len(),
{
    if seen.len() > 0 {
        let fewer = seen.drop_last();
        let n = seen.len() as int;
        let call = seen.last();
        lemma_calls_are_summed_up(fewer, from, to, guessed);
        lemma_between(seen, from, to, guessed);
        assert(seen[n - 1] == call);
        let known = entry_of(fewer, from, to, guessed);
        match entry_of(seen, from, to, guessed) {
            Some(entry) => {
                lemma_entry(seen, from, to, guessed, entry);
            },
            None => {
                assert forall|k: int| !#[trigger] between(seen, k, from, to, guessed) by {
                    if k < n - 1 {
                        assert(!between(fewer, k, from, to, guessed));
                    }
                }
            },
        }
    }
}

proof fn lemma_entry(seen: Seq<SeenView>, from: Seq<char>, to: Seq<char>, guessed: bool, entry: EntryView)
    requires
        seen.len() > 0,
        entry_of(seen, from, to, guessed) == Some(entry),
        match entry_of(seen.drop_last(), from, to, guessed) {
            Some(known) => sums_up(known, seen.drop_last(), from, to, guessed),
            None => forall|k: int| !#[trigger] between(seen.drop_last(), k, from, to, guessed),
        },
    ensures
        sums_up(entry, seen, from, to, guessed),
{
    let fewer = seen.drop_last();
    let n = seen.len() as int;
    lemma_between(seen, from, to, guessed);
    assert(seen[n - 1] == seen.last());
    let own = between(seen, n - 1, from, to, guessed);
    let known = entry_of(fewer, from, to, guessed);
    assert(entry.in_base <==> exists|k: int| #[trigger] between(seen, k, from, to, guessed) && seen[k].side == Side::Base) by {
        lemma_seen_on(seen, from, to, guessed, Side::Base);
    }
    assert(entry.in_target <==> exists|k: int| #[trigger] between(seen, k, from, to, guessed) && seen[k].side == Side::Target) by {
        lemma_seen_on(seen, from, to, guessed, Side::Target);
    }
    assert(first_line(seen, from, to, guessed, Side::Base, entry.base_line)) by {
        let before = match known {
            Some(e) => e.base_line,
            None => None,
        };
        lemma_first_line(seen, from, to, guessed, Side::Base, before, entry.base_line);
    }
    assert(first_line(seen, from, to, guessed, Side::Target, entry.target_line)) by {
        let before = match known {
            Some(e) => e.target_line,
            None => None,
        };
        lemma_first_line(seen, from, to, guessed, Side::Target, before, entry.target_line);
    }
    assert(least_certain(seen, from, to, guessed, entry.resolution)) by {
        if known is Some {
            let k = choose|k: int| #[trigger] between(fewer, k, from, to, guessed) && fewer[k].resolution == known->0.resolution;
            assert(between(seen, k, from, to, guessed));
        }
        assert forall|k: int| #[trigger] between(seen, k, from, to, guessed) implies resolution_confidence(entry.resolution) <= resolution_confidence(
            seen[k].resolution,
        ) by {
            if k < n - 1 {
                assert(between(fewer, k, from, to, guessed));
            }
        }
    }
}

proof fn lemma_seen_on(seen: Seq<SeenView>, from: Seq<char>, to: Seq<char>, guessed: bool, side: Side)
    requires
        seen.len() > 0,
    ensures
        (exists|k: int| #[trigger] between(seen, k, from, to, guessed) && seen[k].side == side) <==> (between(
            seen,
            seen.len() - 1,
            from,
            to,
            guessed,
        ) && seen.last().side == side) || (exists|k: int| #[trigger]
            between(seen.drop_last(), k, from, to, guessed) && seen.drop_last()[k].side == side),
{
    let fewer = seen.drop_last();
    let n = seen.len() as int;
    lemma_between(seen, from, to, guessed);
    if exists|k: int| #[trigger] between(seen, k, from, to, guessed) && seen[k].side == side {
        let k = choose|k: int| #[trigger] between(seen, k, from, to, guessed) && seen[k].side == side;
        if k < n - 1 {
            assert(between(fewer, k, from, to, guessed));
        }
    }
    if exists|k: int| #[trigger] between(fewer, k, from, to, guessed) && fewer[k].side == side {
        let k = choose|k: int| #[trigger] between(fewer, k, from, to, guessed) && fewer[k].side == side;
        assert(between(seen, k, from, to, guessed));
    }
}

proof fn lemma_first_line(
    seen: Seq<SeenView>,
    from: Seq<char>,
    to: Seq<char>,
    guessed: bool,
    side: Side,
    before: Option<u32>,
    after: Option<u32>,
)
    requires
        seen.len() > 0,
        first_line(seen.drop_last(), from, to, guessed, side, before),
        between(seen, seen.len() - 1, from, to, guessed) && seen.last().side == side ==> after == crate::graph::callgraph::earlier(
            before,
            seen.last().line,
        ),
        !(between(seen, seen.len() - 1, from, to, guessed) && seen.last().side == side) ==> after == before,
    ensures
        first_line(seen, from, to, guessed, side, after),
{
    let fewer = seen.drop_last();
    let n = seen.len() as int;
    lemma_between(seen, from, to, guessed);
    assert forall|k: int| #[trigger] between(seen, k, from, to, guessed) && seen[k].side == side implies after is Some && after->0 <= seen[k].line by {
        if k < n - 1 {
            assert(between(fewer, k, from, to, guessed));
        }
    }
    if after is Some {
        if after == before {
            let k = choose|k: int| #[trigger] between(fewer, k, from, to, guessed) && fewer[k].side == side && fewer[k].line == after->0;
            assert(between(seen, k, from, to, guessed));
        } else {
            assert(between(seen, n - 1, from, to, guessed));
        }
    }
}

/// The relationship of two functions: certain calls are calls, guessed ones
/// possible calls; its status compares the revisions; and its line is the first
/// in the target, or in the base where the calls were removed.
pub proof fn lemma_call_is_shown(seen: Seq<SeenView>, from: Seq<char>, to: Seq<char>, guessed: bool, k: int)
    requires
        between(seen, k, from, to, guessed),
    ensures
        ({
            let e = call_edge(seen, from, to, guessed);
            let base = exists|k: int| #[trigger] between(seen, k, from, to, guessed) && seen[k].side == Side::Base;
            let target = exists|k: int| #[trigger] between(seen, k, from, to, guessed) && seen[k].side == Side::Target;
            &&& e.from == from && e.to == to
            &&& e.relation == (if guessed {
                Relation::PossibleCall
            } else {
                Relation::Calls
            })
            &&& e.status == EdgeStatus::Unchanged <==> base && target
            &&& e.status == EdgeStatus::Added <==> target && !base
            &&& e.status == EdgeStatus::Removed <==> base && !target
            &&& least_certain(seen, from, to, guessed, e.resolution)
            &&& target ==> (e.evidence matches Some((_, line)) && first_line(seen, from, to, guessed, Side::Target, Some(line)))
            &&& !target ==> (e.evidence matches Some((_, line)) && first_line(seen, from, to, guessed, Side::Base, Some(line)))
        }),
{
    lemma_calls_are_summed_up(seen, from, to, guessed);
}

proof fn lemma_yielded<A, B>(items: Seq<A>, pick: spec_fn(A) -> Option<B>, b: B)
    ensures
        yielded(items, pick).contains(b) <==> exists|i: int| 0 <= i < items.len() && pick(#[trigger] items[i]) == Some(b),
    decreases items.len(),
{
    let n = items.len() as int;
    if n > 0 {
        let fewer = items.drop_last();
        lemma_yielded(fewer, pick, b);
        let before = yielded(fewer, pick);
        assert(items[n - 1] == items.last());
        if let Some(own) = pick(items.last()) {
            crate::collections::lemma_push_contains(before, own);
            assert(yielded(items, pick).contains(b) <==> before.contains(b) || b == own);
        }
        if before.contains(b) {
            let i = choose|i: int| 0 <= i < fewer.len() && pick(#[trigger] fewer[i]) == Some(b);
            assert(items[i] == fewer[i]);
        }
        if exists|i: int| 0 <= i < items.len() && pick(#[trigger] items[i]) == Some(b) {
            let i = choose|i: int| 0 <= i < items.len() && pick(#[trigger] items[i]) == Some(b);
            if i < n - 1 {
                assert(fewer[i] == items[i]);
            }
        }
    } else {
        assert(!yielded(items, pick).contains(b));
    }
}

proof fn lemma_in_both<T>(a: Seq<T>, b: Seq<T>, x: T)
    ensures
        (a + b).contains(x) <==> a.contains(x) || b.contains(x),
{
    let all = a + b;
    if a.contains(x) {
        let i = choose|i: int| 0 <= i < a.len() && a[i] == x;
        assert(all[i] == x);
    }
    if b.contains(x) {
        let i = choose|i: int| 0 <= i < b.len() && b[i] == x;
        assert(all[a.len() + i] == x);
    }
    if all.contains(x) {
        let i = choose|i: int| 0 <= i < all.len() && all[i] == x;
        if i < a.len() {
            assert(a[i] == x);
        } else {
            assert(b[i - a.len()] == x);
        }
    }
}

/// Whether one of the first parts holds something.
pub open spec fn in_part<T>(parts: spec_fn(int) -> Seq<T>, n: int, x: T) -> bool {
    exists|i: int| 0 <= i < n && (#[trigger] parts(i)).contains(x)
}

proof fn lemma_joined<T>(parts: spec_fn(int) -> Seq<T>, n: int, x: T)
    ensures
        joined(parts, n).contains(x) <==> in_part(parts, n, x),
    decreases n,
{
    if n > 0 {
        lemma_joined(parts, n - 1, x);
        lemma_in_both(joined(parts, n - 1), parts(n - 1), x);
        if in_part(parts, n - 1, x) {
            let i = choose|i: int| 0 <= i < n - 1 && (#[trigger] parts(i)).contains(x);
            assert(parts(i).contains(x));
        }
    } else {
        assert(!joined(parts, n).contains(x));
    }
}

/// Whether a call is written in a function of the file, on a side.
pub open spec fn writes(scene: Scene, side: Side, i: int, call: CallView) -> bool {
    0 <= i < scene.file.functions.len() && match side {
        Side::Base => scene.file.functions[i].calls_before.contains(call),
        Side::Target => scene.file.functions[i].calls_after.contains(call),
    }
}

proof fn lemma_written(scene: Scene, side: Side, i: int, call: CallView, parts: spec_fn(int) -> Seq<SeenView>, pick: spec_fn(Side) -> spec_fn(CallView) -> Option<SeenView>, seen: SeenView)
    requires
        writes(scene, side, i, call),
        parts(i) == yielded(written_calls(scene.file.functions[i], Side::Base), pick(Side::Base)) + yielded(
            written_calls(scene.file.functions[i], Side::Target),
            pick(Side::Target),
        ),
        pick(side)(call) == Some(seen),
    ensures
        joined(parts, scene.file.functions.len() as int).contains(seen),
{
    let n = scene.file.functions.len() as int;
    let calls = written_calls(scene.file.functions[i], side);
    let k = choose|k: int| 0 <= k < calls.len() && calls[k] == call;
    assert(pick(side)(calls[k]) == Some(seen));
    lemma_yielded(calls, pick(side), seen);
    lemma_in_both(
        yielded(written_calls(scene.file.functions[i], Side::Base), pick(Side::Base)),
        yielded(written_calls(scene.file.functions[i], Side::Target), pick(Side::Target)),
        seen,
    );
    assert(parts(i).contains(seen));
    lemma_joined(parts, n, seen);
}

/// A call without a receiver, of a name that one function of the file alone has
/// on that side, is a call of that function.
pub proof fn lemma_local_call_is_seen(scene: Scene, side: Side, i: int, call: CallView, j: int)
    requires
        writes(scene, side, i, call),
        call.receiver is None,
        declares_alone(scene.file.functions, side, call.name, j),
    ensures
        exists|k: int|
            0 <= k < all_seen(scene).len() && (#[trigger] all_seen(scene)[k]).from == own_identity(scene.file, i) && all_seen(scene)[k].to == own_identity(
                scene.file,
                j,
            ) && !all_seen(scene)[k].guessed && all_seen(scene)[k].resolution == Resolution::DirectLocalSymbol && all_seen(scene)[k].side == side
                && all_seen(scene)[k].line == call.line && all_seen(scene)[k].site == scene.path,
{
    let n = scene.file.functions.len() as int;
    let other = choose|x: int| #[trigger] declares_alone(scene.file.functions, side, call.name, x);
    assert(declares_at(scene.file.functions, side, call.name, other));
    assert(other == j);
    assert(local_target(scene.file.functions, side, call) == Some(j));
    let seen = local_call(scene.file, scene.path, side, i)(call)->0;
    let pick = |s: Side| local_call(scene.file, scene.path, s, i);
    lemma_written(scene, side, i, call, local_part(scene), pick, seen);
    lemma_all_seen(scene, seen);
}

proof fn lemma_all_seen(scene: Scene, seen: SeenView)
    ensures
        joined(local_part(scene), scene.file.functions.len() as int).contains(seen) ==> all_seen(scene).contains(seen),
        joined(outward_part(scene), scene.file.functions.len() as int).contains(seen) ==> all_seen(scene).contains(seen),
        inward_on(scene, Side::Base).contains(seen) ==> all_seen(scene).contains(seen),
        inward_on(scene, Side::Target).contains(seen) ==> all_seen(scene).contains(seen),
{
    let n = scene.file.functions.len() as int;
    let a = joined(local_part(scene), n);
    let b = joined(outward_part(scene), n);
    lemma_in_both(a, b, seen);
    lemma_in_both(a + b, inward_on(scene, Side::Base), seen);
    lemma_in_both(a + b + inward_on(scene, Side::Base), inward_on(scene, Side::Target), seen);
}

/// A call that no function of the file alone answers to, and that leads to a
/// function elsewhere, is a call of that function.
pub proof fn lemma_outward_call_is_seen(scene: Scene, side: Side, i: int, call: CallView)
    requires
        writes(scene, side, i, call),
        local_target(scene.file.functions, side, call) is None,
        callee_of(scene.revisions, scene.guess, side, scene.path, call) is Some,
        ({
            let callee = callee_of(scene.revisions, scene.guess, side, scene.path, call)->0;
            node_at(scene.files, scene.revisions, callee.path, callee.range) is Some
        }),
    ensures
        ({
            let callee = callee_of(scene.revisions, scene.guess, side, scene.path, call)->0;
            let node = node_at(scene.files, scene.revisions, callee.path, callee.range)->0;
            exists|k: int|
                0 <= k < all_seen(scene).len() && (#[trigger] all_seen(scene)[k]).from == own_identity(scene.file, i) && all_seen(scene)[k].to == node.id
                    && all_seen(scene)[k].guessed == callee.guessed && all_seen(scene)[k].resolution == callee.resolution && all_seen(scene)[k].side == side
                    && all_seen(scene)[k].line == call.line && all_seen(scene)[k].site == scene.path
        }),
{
    let seen = outward_call(scene, side, i)(call)->0;
    let pick = |s: Side| outward_call(scene, s, i);
    lemma_written(scene, side, i, call, outward_part(scene), pick, seen);
    lemma_all_seen(scene, seen);
}

/// Whether a module imports the file on a side, and a caller in it writes a
/// call.
pub open spec fn caller_writes(scene: Scene, side: Side, k: int, c: int, call: CallView) -> bool {
    let importers = listed(index_on(scene.revisions, side).importers_of(scene.path));
    0 <= k < importers.len() && {
        let callers = callers_in(scene.files, scene.revisions, importers[k], side);
        0 <= c < callers.len() && callers[c].calls.contains(call)
    }
}

/// A call in a module that imports the file, which leads to a function of the
/// file, is a call of that function.
pub proof fn lemma_inward_call_is_seen(scene: Scene, side: Side, k: int, c: int, call: CallView, seen: SeenView)
    requires
        caller_writes(scene, side, k, c, call),
        ({
            let importer = listed(index_on(scene.revisions, side).importers_of(scene.path))[k];
            let range = callers_in(scene.files, scene.revisions, importer, side)[c].range;
            inward_call(scene, side, importer, range)(call) == Some(seen)
        }),
    ensures
        all_seen(scene).contains(seen),
        seen.side == side,
        seen.line == call.line,
        seen.site == listed(index_on(scene.revisions, side).importers_of(scene.path))[k],
        ({
            let importer = listed(index_on(scene.revisions, side).importers_of(scene.path))[k];
            callee_of(scene.revisions, scene.guess, side, importer, call) matches Some(callee) && callee.path == scene.path && seen.guessed
                == callee.guessed && seen.resolution == callee.resolution
        }),
{
    let importers = listed(index_on(scene.revisions, side).importers_of(scene.path));
    let importer = importers[k];
    let callers = callers_in(scene.files, scene.revisions, importer, side);
    let pick = inward_call(scene, side, importer, callers[c].range);
    let calls = callers[c].calls;
    let at = choose|at: int| 0 <= at < calls.len() && calls[at] == call;
    assert(pick(calls[at]) == Some(seen));
    lemma_yielded(calls, pick, seen);
    let parts = caller_part(scene, side, importer);
    assert(parts(c).contains(seen));
    lemma_joined(parts, callers.len() as int, seen);
    let outer = importer_part(scene, side);
    assert(outer(k).contains(seen));
    lemma_joined(outer, importers.len() as int, seen);
    lemma_all_seen(scene, seen);
}

/// A name that was imported stands for the export it was imported as, `default`
/// for a default import; a name behind a whole module stands for that export of
/// it. No other call names an import.
pub proof fn lemma_call_names_import(index: IndexView, from: Seq<char>, call: CallView, receiver: Seq<char>, name: Seq<char>)
    requires
        index.bindings.contains_key(from),
    ensures
        ({
            let bindings = index.bindings[from];
            &&& call.receiver is None && bindings.contains_key(call.name) && bindings[call.name].imported == ImportedView::Named(name) ==> named_import(
                index,
                from,
                call,
            ) == Some((bindings[call.name].specifier, name))
            &&& call.receiver is None && bindings.contains_key(call.name) && bindings[call.name].imported == ImportedView::Default ==> named_import(
                index,
                from,
                call,
            ) == Some((bindings[call.name].specifier, "default"@))
            &&& call.receiver is None && bindings.contains_key(call.name) && bindings[call.name].imported == ImportedView::Namespace ==> named_import(
                index,
                from,
                call,
            ) is None
            &&& call.receiver is None && !bindings.contains_key(call.name) ==> named_import(index, from, call) is None
            &&& call.receiver == Some(receiver) && bindings.contains_key(receiver) && bindings[receiver].imported == ImportedView::Namespace
                ==> named_import(index, from, call) == Some((bindings[receiver].specifier, call.name))
            &&& call.receiver == Some(receiver) && !(bindings.contains_key(receiver) && bindings[receiver].imported == ImportedView::Namespace)
                ==> named_import(index, from, call) is None
        }),
{
}

/// An imported callee is certain, and told apart by whether it was re-exported.
/// Only where no import is named, and guesses are asked for, is a callee
/// guessed, by its property name.
pub proof fn lemma_callee_is_imported_or_guessed(r: RevisionsView, guess: bool, side: Side, from: Seq<char>, call: CallView)
    ensures
        ({
            let index = match side {
                Side::Base => r.base,
                Side::Target => r.target,
            };
            let symbols = match side {
                Side::Base => r.base_symbols,
                Side::Target => r.target_symbols,
            };
            let imported = imported_callee(index, symbols, from, call);
            let callee = callee_of(r, guess, side, from, call);
            &&& imported matches Some(found) ==> (callee matches Some(c) && !c.guessed && c.path == found.path && c.range == found.range && c.resolution
                == (if found.hops == 0 {
                Resolution::ImportedSymbol
            } else {
                Resolution::ReExportedSymbol
            }))
            &&& imported is None && !guess ==> callee is None
            &&& imported is None && call.receiver is None ==> callee is None
            &&& imported is None && guess && call.receiver is Some ==> match sole_place(in_sight(index, symbols, from, call.name)) {
                Some((path, range)) => callee matches Some(c) && c.guessed && c.resolution == Resolution::PropertyNameMatch && c.path == path && c.range
                    == range,
                None => callee is None,
            }
        }),
{
}

/// A place stands alone where all places start where it does.
pub proof fn lemma_sole_place(places: Seq<Place>, i: int, j: int)
    requires
        0 <= i < places.len(),
        0 <= j < places.len(),
    ensures
        !(places[i].0 == places[j].0 && places[i].1.start_line == places[j].1.start_line && places[i].1.start_column == places[j].1.start_column)
            ==> sole_place(places) is None,
        places.len() == 1 ==> sole_place(places) == Some(places[0]),
        sole_place(places) matches Some(place) ==> place.0 == places[i].0 && place.1.start_line == places[i].1.start_line && place.1.start_column
            == places[i].1.start_column,
{
    if sole_place(places) is Some {
        assert(same_start(places[i], places.last()));
        assert(same_start(places[j], places.last()));
    }
}

/// What stands in sight under a name are the functions of the file with that
/// last name, and what the modules it imports export under it.
pub proof fn lemma_in_sight(index: IndexView, symbols: Map<Seq<char>, FileSymbolsView>, from: Seq<char>, name: Seq<char>, i: int, k: int)
    ensures
        symbols.contains_key(from) && 0 <= i < symbols[from].functions.len() && crate::graph::calls::leaf(symbols[from].functions[i].qualified_name)
            == name ==> in_sight(index, symbols, from, name).contains((from, symbols[from].functions[i].range)),
        ({
            let modules = listed(crate::imports::links::linked(index.edges, from));
            0 <= k < modules.len() ==> (defined(symbols, index.targets, modules[k], name, 0) matches Some(found) ==> in_sight(
                index,
                symbols,
                from,
                name,
            ).contains((found.path, found.range)))
        }),
{
    let own = if symbols.contains_key(from) {
        yielded(symbols[from].functions, crate::graph::calls::own_place(from, name))
    } else {
        Seq::empty()
    };
    let modules = listed(crate::imports::links::linked(index.edges, from));
    let published = yielded(modules, crate::graph::calls::published_place(index, symbols, name));
    if symbols.contains_key(from) && 0 <= i < symbols[from].functions.len() && crate::graph::calls::leaf(symbols[from].functions[i].qualified_name)
        == name {
        let place = (from, symbols[from].functions[i].range);
        assert(crate::graph::calls::own_place(from, name)(symbols[from].functions[i]) == Some(place));
        lemma_yielded(symbols[from].functions, crate::graph::calls::own_place(from, name), place);
        lemma_in_both(own, published, place);
    }
    if 0 <= k < modules.len() {
        if let Some(found) = defined(symbols, index.targets, modules[k], name, 0) {
            let place = (found.path, found.range);
            assert(crate::graph::calls::published_place(index, symbols, name)(modules[k]) == Some(place));
            lemma_yielded(modules, crate::graph::calls::published_place(index, symbols, name), place);
            lemma_in_both(own, published, place);
        }
    }
}

/// A function that is in both revisions, or in neither, is unchanged; one that
/// is only in the target was added, and one that is only in the base removed.
pub proof fn lemma_presence(in_base: bool, in_target: bool)
    ensures
        presence(in_base, in_target) == NodeStatus::Unchanged <==> in_base == in_target,
        presence(in_base, in_target) == NodeStatus::Added <==> in_target && !in_base,
        presence(in_base, in_target) == NodeStatus::Removed <==> in_base && !in_target,
{
}

/// A call that the view shows and that leads to nothing counts as unresolved.
pub proof fn lemma_unresolved_call_is_missed(scene: Scene, side: Side, i: int, call: CallView, range: SourceRange)
    requires
        writes(scene, side, i, call),
        local_target(scene.file.functions, side, call) is None,
        callee_of(scene.revisions, scene.guess, side, scene.path, call) is None,
        scene.view == crate::graph::View::Delta || (scene.view == crate::graph::View::Base && side == Side::Base) || (scene.view
            == crate::graph::View::Target && side == Side::Target),
        crate::graph::calls::range_on(scene.file.functions[i], side) == Some(range),
    ensures
        all_missed(scene).contains(SiteView { side, path: scene.path, start: (range.start_line, range.start_column), call }),
{
    let site = SiteView { side, path: scene.path, start: (range.start_line, range.start_column), call };
    let n = scene.file.functions.len() as int;
    let parts = outward_misses(scene);
    let calls = written_calls(scene.file.functions[i], side);
    let k = choose|k: int| 0 <= k < calls.len() && calls[k] == call;
    assert(outward_miss(scene, side, i)(calls[k]) == Some(site));
    lemma_yielded(calls, outward_miss(scene, side, i), site);
    lemma_in_both(
        yielded(written_calls(scene.file.functions[i], Side::Base), outward_miss(scene, Side::Base, i)),
        yielded(written_calls(scene.file.functions[i], Side::Target), outward_miss(scene, Side::Target, i)),
        site,
    );
    assert(parts(i).contains(site));
    lemma_joined(parts, n, site);
    lemma_in_both(joined(parts, n), inward_misses(scene, Side::Base), site);
    lemma_in_both(joined(parts, n) + inward_misses(scene, Side::Base), inward_misses(scene, Side::Target), site);
}

/// A walk upstream goes from a function to those that call it, a walk
/// downstream to those it calls, along the relations asked for.
pub proof fn lemma_calls_lead(seen: Seq<SeenView>, relations: Seq<Relation>, a: Seq<char>, b: Seq<char>)
    ensures
        call_way(seen, relations)(Direction::Downstream, a, b) <==> exists|k: int|
            0 <= k < seen.len() && (#[trigger] seen[k]).from == a && seen[k].to == b && relations.contains(
                if seen[k].guessed {
                    Relation::PossibleCall
                } else {
                    Relation::Calls
                },
            ),
        call_way(seen, relations)(Direction::Upstream, a, b) <==> call_way(seen, relations)(Direction::Downstream, b, a),
{
    assert(call_way(seen, relations)(Direction::Downstream, a, b) == leads_to(seen, relations, a, b));
    if exists|k: int|
        0 <= k < seen.len() && (#[trigger] seen[k]).from == a && seen[k].to == b && relations.contains(
            if seen[k].guessed {
                Relation::PossibleCall
            } else {
                Relation::Calls
            },
        ) {
        let k = choose|k: int|
            0 <= k < seen.len() && (#[trigger] seen[k]).from == a && seen[k].to == b && relations.contains(
                if seen[k].guessed {
                    Relation::PossibleCall
                } else {
                    Relation::Calls
                },
            );
        assert(crate::graph::callgraph::followed(relations, seen[k]));
    }
}

/// The functions shown are those reached that are known, each at the number of
/// hops it was reached by.
pub proof fn lemma_functions_shown(scene: Scene, seen: Seq<SeenView>, reached: Map<Seq<char>, u32>, id: Seq<char>)
    ensures
        ({
            let nodes = function_nodes(scene, seen, reached);
            &&& nodes.contains_key(id) <==> reached.contains_key(id) && known_node(scene, seen, id) is Some
            &&& nodes.contains_key(id) ==> nodes[id].depth == reached[id] && nodes[id].label == known_node(scene, seen, id)->0.label && nodes[id].status
                == known_node(scene, seen, id)->0.status
        }),
{
}

/// The calls shown are those between functions reached, along the relations
/// asked for.
pub proof fn lemma_calls_asked_for(seen: Seq<SeenView>, relations: Seq<Relation>, reached: Map<Seq<char>, u32>, k: int, e: EdgeView)
    ensures
        0 <= k < seen.len() && reached.contains_key(seen[k].from) && reached.contains_key(seen[k].to) && relations.contains(
            if seen[k].guessed {
                Relation::PossibleCall
            } else {
                Relation::Calls
            },
        ) ==> is_call_edge(seen, relations, reached, call_edge(seen, seen[k].from, seen[k].to, seen[k].guessed)),
        is_call_edge(seen, relations, reached, e) ==> reached.contains_key(e.from) && reached.contains_key(e.to) && relations.contains(e.relation),
{
    if 0 <= k < seen.len() && reached.contains_key(seen[k].from) && reached.contains_key(seen[k].to) && relations.contains(
        if seen[k].guessed {
            Relation::PossibleCall
        } else {
            Relation::Calls
        },
    ) {
        assert(crate::graph::callgraph::followed(relations, seen[k]));
    }
}

} // verus!
