//! Where the calls that a function takes part in lead.
//!
//! A call resolves against a name that the caller's own file declares once,
//! against a name that the caller imports from a module that exports it, or
//! against a name that re-exports forward. Each revision is resolved by itself,
//! so a call that only one of them wrote is seen on one side alone. A property
//! call that no such rule resolves may be guessed at, and only where a single
//! function in sight has its name.

use vstd::prelude::*;
use vstd::view::View as _;

use crate::analysis::saturated;
use crate::collections::{ascending, listed, TextMap};
use crate::graph::assembly::{function_facts, function_node, has_path, Revisions, RevisionsView};
use crate::graph::{function_identity, Node, NodeKind, NodeStatus, NodeView, Resolution};
use crate::imports::links::{linked, map_of};
use crate::imports::symbols::{defined, FileSymbolsView, FoundView, SymbolIndex};
use crate::imports::{ImportIndex, IndexView};
use crate::languages::modules::{ImportedName, ImportedView};
use crate::languages::{call_views, definition_views, symbol, symbol_id, CallSite, CallView, DefinitionView, FunctionDefinition, SourceRange};
use crate::query::rows::{function_id, identity};
use crate::result::{file_views, function_views, AnalysisResult, FileResult, FileView, FunctionResult, FunctionView};
use crate::text::{after_last, behind_last, decimal, join2, number_text, same_text, text_option, texts};

verus! {

/// Which revision a call site was read from.
#[derive(Debug, Clone, Copy, PartialEq, Eq, Structural)]
pub enum Side {
    Base,
    Target,
}

/// The import graph of one side.
pub open spec fn index_on(r: RevisionsView, side: Side) -> IndexView {
    match side {
        Side::Base => r.base,
        Side::Target => r.target,
    }
}

/// The symbols of one side.
pub open spec fn symbols_on(r: RevisionsView, side: Side) -> Map<Seq<char>, FileSymbolsView> {
    match side {
        Side::Base => r.base_symbols,
        Side::Target => r.target_symbols,
    }
}

impl<'a> Revisions<'a> {
    /// The import graph and symbol index of one side.
    pub fn side(&self, side: Side) -> (r: (&'a ImportIndex, &'a SymbolIndex))
        ensures
            r.0@ == index_on(self@, side),
            r.1@ == symbols_on(self@, side),
    {
        match side {
            Side::Base => (self.base, self.base_symbols),
            Side::Target => (self.target, self.target_symbols),
        }
    }
}

/// The first place from one on at which a condition holds.
pub open spec fn first_where<T>(items: Seq<T>, holds: spec_fn(T) -> bool, from: int) -> Option<int>
    decreases items.len() - from,
{
    if from < 0 || from >= items.len() {
        None
    } else if holds(items[from]) {
        Some(from)
    } else {
        first_where(items, holds, from + 1)
    }
}

/// What a function yields for some items, in their order and without those that
/// it yields nothing for.
pub open spec fn yielded<A, B>(items: Seq<A>, pick: spec_fn(A) -> Option<B>) -> Seq<B>
    decreases items.len(),
{
    if items.len() == 0 {
        Seq::empty()
    } else {
        let before = yielded(items.drop_last(), pick);
        match pick(items.last()) {
            Some(b) => before.push(b),
            None => before,
        }
    }
}

/// The parts of the places before one, one after the other.
pub open spec fn joined<T>(parts: spec_fn(int) -> Seq<T>, n: int) -> Seq<T>
    decreases n,
{
    if n <= 0 {
        Seq::empty()
    } else {
        joined(parts, n - 1) + parts(n - 1)
    }
}

/// Where a function is written on one side.
pub open spec fn range_on(function: FunctionView, side: Side) -> Option<SourceRange> {
    match side {
        Side::Base => function.base_range,
        Side::Target => function.target_range,
    }
}

fn side_range(function: &FunctionResult, side: Side) -> (r: Option<SourceRange>)
    ensures
        r == range_on(function@, side),
{
    match side {
        Side::Base => function.base_range,
        Side::Target => function.target_range,
    }
}

/// The path of a file on one side.
pub open spec fn path_on(file: FileView, side: Side) -> Option<Seq<char>> {
    match side {
        Side::Base => file.base_path,
        Side::Target => file.target_path,
    }
}

/// The condition of a definition that it is written at a range.
pub open spec fn written_at(range: SourceRange) -> spec_fn(DefinitionView) -> bool {
    |d: DefinitionView| d.range == range
}

/// The definition that a revision has at a path and a range.
pub open spec fn definition_in(symbols: Map<Seq<char>, FileSymbolsView>, path: Seq<char>, range: SourceRange) -> Option<DefinitionView> {
    if symbols.contains_key(path) {
        match first_where(symbols[path].functions, written_at(range), 0) {
            Some(i) => Some(symbols[path].functions[i]),
            None => None,
        }
    } else {
        None
    }
}

fn find_definition<'a>(symbols: &'a SymbolIndex, path: &str, range: SourceRange) -> (r: Option<&'a FunctionDefinition>)
    ensures
        match r {
            Some(found) => definition_in(symbols@, path@, range) == Some(found@),
            None => definition_in(symbols@, path@, range) is None,
        },
{
    let Some(file) = symbols.file(path) else {
        return None;
    };
    let ghost views = definition_views(file.functions@);
    let ghost holds = written_at(range);
    assert(views == symbols@[path@].functions);
    let mut i: usize = 0;
    while i < file.functions.len()
        invariant
            i <= file.functions.len(),
            views == definition_views(file.functions@),
            views == symbols@[path@].functions,
            symbols@.contains_key(path@),
            holds == written_at(range),
            first_where(views, holds, 0) == first_where(views, holds, i as int),
        decreases file.functions.len() - i,
    {
        assert(views[i as int] == file.functions@[i as int]@);
        if file.functions[i].range == range {
            return Some(&file.functions[i]);
        }
        i = i + 1;
    }
    None
}

/// The calls that a function of the comparison wrote on one side.
pub open spec fn written_calls(function: FunctionView, side: Side) -> Seq<CallView> {
    match side {
        Side::Base => function.calls_before,
        Side::Target => function.calls_after,
    }
}

fn calls_of_record<'f>(function: &'f FunctionResult, side: Side) -> (r: &'f Vec<CallSite>)
    ensures
        call_views(r@) == written_calls(function@, side),
{
    match side {
        Side::Base => &function.calls_before,
        Side::Target => &function.calls_after,
    }
}

/// The name that a call would write for a declaration: what follows the last
/// dot of its qualified name.
pub open spec fn leaf(qualified_name: Seq<char>) -> Seq<char> {
    match behind_last(qualified_name, '.') {
        Some(name) => name,
        None => qualified_name,
    }
}

fn declared_name(qualified_name: &str) -> (r: String)
    ensures
        r@ == leaf(qualified_name@),
{
    match after_last(qualified_name, '.') {
        Some(name) => name,
        None => qualified_name.to_owned(),
    }
}

/// Whether the function at a place is declared on a side under a name.
pub open spec fn declares_at(functions: Seq<FunctionView>, side: Side, name: Seq<char>, i: int) -> bool {
    0 <= i < functions.len() && range_on(functions[i], side) is Some && leaf(functions[i].qualified_name) == name
}

/// Whether the function at a place is the only one declared on a side under a
/// name.
pub open spec fn declares_alone(functions: Seq<FunctionView>, side: Side, name: Seq<char>, i: int) -> bool {
    declares_at(functions, side, name, i) && forall|k: int| #[trigger] declares_at(functions, side, name, k) ==> k == i
}

/// The place of the one function that is declared on a side under a name. Two
/// functions of one name are an ambiguity, and neither is chosen.
pub open spec fn sole_declared(functions: Seq<FunctionView>, side: Side, name: Seq<char>) -> Option<int> {
    if exists|i: int| #[trigger] declares_alone(functions, side, name, i) {
        Some(choose|i: int| #[trigger] declares_alone(functions, side, name, i))
    } else {
        None
    }
}

/// Whether a table names the places of the functions before one by the names
/// that a side declares; a name declared twice has no place.
spec fn names_of(table: Map<Seq<char>, Option<usize>>, functions: Seq<FunctionView>, side: Side, n: int) -> bool {
    forall|name: Seq<char>|
        if #[trigger] table.contains_key(name) {
            match table[name] {
                Some(i) => i < n && declares_at(functions, side, name, i as int) && forall|k: int|
                    0 <= k < n && #[trigger] declares_at(functions, side, name, k) ==> k == i,
                None => exists|a: int, b: int|
                    0 <= a < b < n && #[trigger] declares_at(functions, side, name, a) && #[trigger] declares_at(functions, side, name, b),
            }
        } else {
            forall|k: int| 0 <= k < n ==> !#[trigger] declares_at(functions, side, name, k)
        }
}

/// The declarations one revision side has, by the name a call would use.
fn declared_names(functions: &Vec<FunctionResult>, side: Side) -> (r: TextMap<Option<usize>>)
    ensures
        names_of(r@, function_views(functions@), side, functions@.len() as int),
{
    let ghost views = function_views(functions@);
    let mut names: TextMap<Option<usize>> = TextMap::new();
    let mut i: usize = 0;
    while i < functions.len()
        invariant
            i <= functions.len(),
            views == function_views(functions@),
            names_of(names@, views, side, i as int),
        decreases functions.len() - i,
    {
        let ghost before = names@;
        assert(views[i as int] == functions@[i as int]@);
        if side_range(&functions[i], side).is_some() {
            let name = declared_name(functions[i].qualified_name.as_str());
            let ghost own = name@;
            assert(declares_at(views, side, own, i as int));
            let known = names.contains_key(name.as_str());
            if known {
                names.insert(name, None);
            } else {
                names.insert(name, Some(i));
            }
            proof {
                assert forall|other: Seq<char>| if #[trigger] names@.contains_key(other) {
                    match names@[other] {
                        Some(j) => j < i + 1 && declares_at(views, side, other, j as int) && forall|k: int|
                            0 <= k < i + 1 && #[trigger] declares_at(views, side, other, k) ==> k == j,
                        None => exists|a: int, b: int|
                            0 <= a < b < i + 1 && #[trigger] declares_at(views, side, other, a) && #[trigger] declares_at(views, side, other, b),
                    }
                } else {
                    forall|k: int| 0 <= k < i + 1 ==> !#[trigger] declares_at(views, side, other, k)
                } by {
                    if other == own {
                        if known {
                            assert(before.contains_key(own));
                            let a = match before[own] {
                                Some(j) => j as int,
                                None => choose|a: int| 0 <= a < i && #[trigger] declares_at(views, side, own, a),
                            };
                            assert(declares_at(views, side, own, a) && a < i);
                        } else {
                            assert(!before.contains_key(own));
                        }
                    } else {
                        assert(!declares_at(views, side, other, i as int));
                        assert(before.contains_key(other) == names@.contains_key(other));
                    }
                }
            }
        } else {
            proof {
                assert(forall|other: Seq<char>| !declares_at(views, side, other, i as int));
                assert forall|other: Seq<char>| if #[trigger] names@.contains_key(other) {
                    match names@[other] {
                        Some(j) => j < i + 1 && declares_at(views, side, other, j as int) && forall|k: int|
                            0 <= k < i + 1 && #[trigger] declares_at(views, side, other, k) ==> k == j,
                        None => exists|a: int, b: int|
                            0 <= a < b < i + 1 && #[trigger] declares_at(views, side, other, a) && #[trigger] declares_at(views, side, other, b),
                    }
                } else {
                    forall|k: int| 0 <= k < i + 1 ==> !#[trigger] declares_at(views, side, other, k)
                } by {
                    assert(before.contains_key(other) == names@.contains_key(other));
                }
            }
        }
        i = i + 1;
    }
    names
}

proof fn lemma_sole(table: Map<Seq<char>, Option<usize>>, functions: Seq<FunctionView>, side: Side, name: Seq<char>)
    requires
        names_of(table, functions, side, functions.len() as int),
    ensures
        sole_declared(functions, side, name) == (if table.contains_key(name) {
            match table[name] {
                Some(i) => Some(i as int),
                None => None,
            }
        } else {
            None
        }),
{
    if table.contains_key(name) {
        match table[name] {
            Some(i) => {
                assert(declares_alone(functions, side, name, i as int));
                let other = choose|j: int| #[trigger] declares_alone(functions, side, name, j);
                assert(declares_at(functions, side, name, other));
            },
            None => {
                let (a, b) = choose|a: int, b: int|
                    0 <= a < b < functions.len() && #[trigger] declares_at(functions, side, name, a) && #[trigger] declares_at(
                        functions,
                        side,
                        name,
                        b,
                    );
                assert forall|i: int| !#[trigger] declares_alone(functions, side, name, i) by {
                    if declares_alone(functions, side, name, i) {
                        assert(a == i && b == i);
                    }
                }
            },
        }
    } else {
        assert forall|i: int| !#[trigger] declares_alone(functions, side, name, i) by {
            if declares_alone(functions, side, name, i) {
                assert(declares_at(functions, side, name, i));
            }
        }
    }
}

/// What a call names in the module that a binding was imported from: the
/// specifier, and the name that the module exports. A bare call of a namespace
/// and a member call on anything else name nothing.
pub open spec fn named_import(index: IndexView, from: Seq<char>, call: CallView) -> Option<(Seq<char>, Seq<char>)> {
    let bindings = map_of(index.bindings, from);
    match call.receiver {
        Some(receiver) => if bindings.contains_key(receiver) && bindings[receiver].imported is Namespace {
            Some((bindings[receiver].specifier, call.name))
        } else {
            None
        },
        None => if bindings.contains_key(call.name) {
            match bindings[call.name].imported {
                ImportedView::Named(name) => Some((bindings[call.name].specifier, name)),
                ImportedView::Default => Some((bindings[call.name].specifier, "default"@)),
                ImportedView::Namespace => None,
            }
        } else {
            None
        },
    }
}

/// The definition that a call names in another module, when it names one.
pub open spec fn imported_callee(index: IndexView, symbols: Map<Seq<char>, FileSymbolsView>, from: Seq<char>, call: CallView) -> Option<FoundView> {
    match named_import(index, from, call) {
        Some((specifier, exported)) => if index.targets.contains_key((from, specifier)) {
            defined(symbols, index.targets, index.targets[(from, specifier)], exported, 0)
        } else {
            None
        },
        None => None,
    }
}

/// How a definition in another module was resolved: one that was reached
/// through re-exports crossed one resolution per hop.
pub open spec fn import_resolution(hops: u32) -> Resolution {
    if hops == 0 {
        Resolution::ImportedSymbol
    } else {
        Resolution::ReExportedSymbol
    }
}

fn find_import(imports: &ImportIndex, from: &str, call: &CallSite) -> (r: Option<(String, String)>)
    ensures
        (match r {
            Some((specifier, exported)) => Some((specifier@, exported@)),
            None => None,
        }) == named_import(imports@, from@, call@),
{
    let bindings = imports.bindings(from);
    let ghost known = map_of(imports@.bindings, from@);
    match &call.receiver {
        Some(receiver) => {
            let Some(binding) = bindings.get(receiver.as_str()) else {
                assert(!known.contains_key(receiver@));
                return None;
            };
            assert(known[receiver@] == binding@);
            match &binding.imported {
                ImportedName::Namespace => Some((binding.specifier.clone(), call.name.clone())),
                _ => None,
            }
        },
        None => {
            let Some(binding) = bindings.get(call.name.as_str()) else {
                assert(!known.contains_key(call.name@));
                return None;
            };
            assert(known[call.name@] == binding@);
            match &binding.imported {
                ImportedName::Named(name) => Some((binding.specifier.clone(), name.clone())),
                ImportedName::Default => Some((binding.specifier.clone(), "default".to_owned())),
                ImportedName::Namespace => None,
            }
        },
    }
}

/// Where a function that a call may mean is written.
pub type Place = (Seq<char>, SourceRange);

/// Whether two places are where one function starts.
pub open spec fn same_start(a: Place, b: Place) -> bool {
    a.0 == b.0 && a.1.start_line == b.1.start_line && a.1.start_column == b.1.start_column
}

/// The last of some places, where all are where one function starts.
pub open spec fn sole_place(places: Seq<Place>) -> Option<Place> {
    if places.len() > 0 && forall|i: int| 0 <= i < places.len() ==> same_start(#[trigger] places[i], places.last()) {
        Some(places.last())
    } else {
        None
    }
}

/// The place of a definition in a file, if it has a name.
pub open spec fn own_place(from: Seq<char>, name: Seq<char>) -> spec_fn(DefinitionView) -> Option<Place> {
    |d: DefinitionView|
        if leaf(d.qualified_name) == name {
            Some((from, d.range))
        } else {
            None
        }
}

/// The place of the function that a module publishes under a name.
pub open spec fn published_place(index: IndexView, symbols: Map<Seq<char>, FileSymbolsView>, name: Seq<char>) -> spec_fn(Seq<char>) -> Option<Place> {
    |module: Seq<char>|
        match defined(symbols, index.targets, module, name, 0) {
            Some(found) => Some((found.path, found.range)),
            None => None,
        }
}

/// Where the functions that a file can see under a name are written: those it
/// declares itself, and those that the modules it imports export.
pub open spec fn in_sight(index: IndexView, symbols: Map<Seq<char>, FileSymbolsView>, from: Seq<char>, name: Seq<char>) -> Seq<Place> {
    let own = if symbols.contains_key(from) {
        yielded(symbols[from].functions, own_place(from, name))
    } else {
        Seq::empty()
    };
    own + yielded(listed(linked(index.edges, from)), published_place(index, symbols, name))
}

/// The function that a property call could mean, when it can only mean one. A
/// bare call is never guessed at.
pub open spec fn possible_callee_of(index: IndexView, symbols: Map<Seq<char>, FileSymbolsView>, from: Seq<char>, call: CallView) -> Option<Place> {
    if call.receiver is Some {
        sole_place(in_sight(index, symbols, from, call.name))
    } else {
        None
    }
}

/// What has been seen of the functions under a name: nothing, one place, or
/// more than one.
enum Candidates {
    Nobody,
    One(String, SourceRange),
    Several,
}

/// Whether candidates are those of some places.
spec fn stand_for(candidates: Candidates, places: Seq<Place>) -> bool {
    match candidates {
        Candidates::Nobody => places.len() == 0,
        Candidates::One(path, range) => sole_place(places) == Some((path@, range)),
        Candidates::Several => places.len() > 0 && sole_place(places) is None,
    }
}

/// Take one more place into account.
fn remember(candidates: Candidates, path: String, range: SourceRange, Ghost(places): Ghost<Seq<Place>>) -> (r: Candidates)
    requires
        stand_for(candidates, places),
    ensures
        stand_for(r, places.push((path@, range))),
{
    let ghost item = (path@, range);
    let ghost more = places.push(item);
    match candidates {
        Candidates::Nobody => {
            assert(sole_place(more) == Some(item));
            Candidates::One(path, range)
        },
        Candidates::One(known, at) => {
            let ghost last = places.last();
            let same = same_text(known.as_str(), path.as_str()) && at.start_line == range.start_line && at.start_column == range.start_column;
            proof {
                if same {
                    assert forall|i: int| 0 <= i < more.len() implies same_start(#[trigger] more[i], more.last()) by {
                        if i < places.len() {
                            assert(same_start(places[i], last));
                        }
                    }
                } else {
                    assert(more[places.len() - 1] == last);
                    assert(!same_start(more[places.len() - 1], more.last()));
                }
            }
            if same {
                Candidates::One(path, range)
            } else {
                Candidates::Several
            }
        },
        Candidates::Several => {
            proof {
                let i = choose|i: int| 0 <= i < places.len() && !same_start(#[trigger] places[i], places.last());
                assert(more[i] == places[i]);
                assert(more[places.len() - 1] == places.last());
                assert(!same_start(more[i], more.last()) || !same_start(more[places.len() - 1], more.last()));
            }
            Candidates::Several
        },
    }
}

/// Take the functions that a file declares under a name into account.
fn remember_own(functions: &Vec<FunctionDefinition>, from: &str, name: &str) -> (r: Candidates)
    ensures
        stand_for(r, yielded(definition_views(functions@), own_place(from@, name@))),
{
    let ghost views = definition_views(functions@);
    let ghost pick = own_place(from@, name@);
    let mut candidates = Candidates::Nobody;
    let mut i: usize = 0;
    while i < functions.len()
        invariant
            i <= functions.len(),
            views == definition_views(functions@),
            pick == own_place(from@, name@),
            stand_for(candidates, yielded(views.take(i as int), pick)),
        decreases functions.len() - i,
    {
        let function = &functions[i];
        assert(views.take(i + 1).drop_last() =~= views.take(i as int));
        assert(views.take(i + 1).last() == function@);
        if same_text(declared_name(function.qualified_name.as_str()).as_str(), name) {
            candidates = remember(candidates, from.to_owned(), function.range, Ghost(yielded(views.take(i as int), pick)));
        }
        i = i + 1;
    }
    assert(views.take(i as int) =~= views);
    candidates
}

/// The function a property call's name could mean, when it can only mean one.
///
/// Nothing in the file says what the receiver of a property call holds. What
/// the name can be checked against is what the calling file can see a function
/// through, and a name that answers with two or more definitions produces
/// nothing.
fn possible_callee(imports: &ImportIndex, symbols: &SymbolIndex, from: &str, call: &CallSite) -> (r: Option<(String, SourceRange)>)
    ensures
        (match r {
            Some((path, range)) => Some((path@, range)),
            None => None,
        }) == possible_callee_of(imports@, symbols@, from@, call@),
{
    if call.receiver.is_none() {
        return None;
    }
    let name = call.name.as_str();
    let ghost index = imports@;
    let mut candidates = match symbols.file(from) {
        Some(file) => remember_own(&file.functions, from, name),
        None => Candidates::Nobody,
    };
    let ghost own = if symbols@.contains_key(from@) {
        yielded(symbols@[from@].functions, own_place(from@, name@))
    } else {
        Seq::empty()
    };
    let modules = imports.dependencies(from);
    let n: usize = modules.len();
    let ghost keys = modules.keys();
    let ghost pick = published_place(index, symbols@, name@);
    let mut i: usize = 0;
    assert(own + yielded(keys.take(0), pick) =~= own);
    while i < n
        invariant
            n == keys.len(),
            keys == modules.keys(),
            i <= n,
            index == imports@,
            pick == published_place(index, symbols@, name@),
            stand_for(candidates, own + yielded(keys.take(i as int), pick)),
        decreases n - i,
    {
        let module = modules.key_at(i);
        let ghost so_far = yielded(keys.take(i as int), pick);
        assert(keys.take(i + 1).drop_last() =~= keys.take(i as int));
        if let Some(found) = symbols.definition(imports, module, name) {
            let ghost place = (found.path@, found.range);
            assert(pick(keys[i as int]) == Some(place));
            candidates = remember(candidates, found.path, found.range, Ghost(own + so_far));
            assert((own + so_far).push(place) =~= own + so_far.push(place));
        } else {
            assert(pick(keys[i as int]) is None);
        }
        i = i + 1;
    }
    proof {
        assert(keys.take(n as int) =~= keys);
        crate::collections::lemma_listed(keys);
        assert(listed(linked(index.edges, from@)) == keys);
        assert(own + yielded(keys, pick) == in_sight(index, symbols@, from@, name@));
    }
    match candidates {
        Candidates::One(path, range) => Some((path, range)),
        Candidates::Nobody | Candidates::Several => None,
    }
}

/// What a call points at: whether that is a guess, how it was resolved, and
/// where the function is written.
#[verifier::ext_equal]
pub struct CalleeView {
    pub guessed: bool,
    pub resolution: Resolution,
    pub path: Seq<char>,
    pub range: SourceRange,
}

/// What a call of a file points at on one side, exactly or, where guesses are
/// asked for, at a guess. The heuristic only sees what the exact rules leave.
pub open spec fn callee_of(r: RevisionsView, guess: bool, side: Side, from: Seq<char>, call: CallView) -> Option<CalleeView> {
    match imported_callee(index_on(r, side), symbols_on(r, side), from, call) {
        Some(found) => Some(
            CalleeView { guessed: false, resolution: import_resolution(found.hops), path: found.path, range: found.range },
        ),
        None => if guess {
            match possible_callee_of(index_on(r, side), symbols_on(r, side), from, call) {
                Some((path, range)) => Some(CalleeView { guessed: true, resolution: Resolution::PropertyNameMatch, path, range }),
                None => None,
            }
        } else {
            None
        },
    }
}

struct Callee {
    guessed: bool,
    resolution: Resolution,
    path: String,
    range: SourceRange,
}

impl vstd::view::View for Callee {
    type V = CalleeView;

    closed spec fn view(&self) -> CalleeView {
        CalleeView { guessed: self.guessed, resolution: self.resolution, path: self.path@, range: self.range }
    }
}

/// What one call site points at, exactly or at a guess.
fn callee(revisions: &Revisions, guess: bool, side: Side, from: &str, call: &CallSite) -> (r: Option<Callee>)
    ensures
        (match r {
            Some(found) => Some(found@),
            None => None,
        }) == callee_of(revisions@, guess, side, from@, call@),
{
    let (imports, symbols) = revisions.side(side);
    if let Some((specifier, exported)) = find_import(imports, from, call) {
        if let Some(module) = imports.resolve_specifier(from, specifier.as_str()) {
            if let Some(found) = symbols.definition(imports, module, exported.as_str()) {
                let resolution = if found.hops == 0 {
                    Resolution::ImportedSymbol
                } else {
                    Resolution::ReExportedSymbol
                };
                return Some(Callee { guessed: false, resolution, path: found.path, range: found.range });
            }
        }
    }
    if !guess {
        return None;
    }
    match possible_callee(imports, symbols, from, call) {
        Some((path, range)) => Some(Callee { guessed: true, resolution: Resolution::PropertyNameMatch, path, range }),
        None => None,
    }
}

/// The first of the files before a place that has a path on one of its sides.
pub open spec fn first_file(files: Seq<FileView>, path: Seq<char>, n: int) -> Option<int>
    decreases n,
{
    if n <= 0 || n > files.len() {
        None
    } else {
        match first_file(files, path, n - 1) {
            Some(i) => Some(i),
            None => if has_path(files[n - 1], path) {
                Some(n - 1)
            } else {
                None
            },
        }
    }
}

/// Whether a table holds the place of the first file of every path.
spec fn places_files(table: Map<Seq<char>, usize>, files: Seq<FileView>, n: int) -> bool {
    forall|path: Seq<char>|
        first_file(files, path, n) == if #[trigger] table.contains_key(path) {
            Some(table[path] as int)
        } else {
            None
        }
}

/// The files the comparison contains, by the paths they have.
fn changed_files(result: &AnalysisResult) -> (r: TextMap<usize>)
    ensures
        places_files(r@, result@.files, result@.files.len() as int),
{
    let ghost files = result@.files;
    let mut changed: TextMap<usize> = TextMap::new();
    let mut i: usize = 0;
    while i < result.files.len()
        invariant
            i <= result.files.len(),
            files == result@.files,
            files == file_views(result.files@),
            places_files(changed@, files, i as int),
        decreases result.files.len() - i,
    {
        let file = &result.files[i];
        let ghost before = changed@;
        assert(files[i as int] == file@);
        if let Some(path) = &file.target_path {
            if !changed.contains_key(path.as_str()) {
                changed.insert(path.clone(), i);
            }
        }
        if let Some(path) = &file.base_path {
            if !changed.contains_key(path.as_str()) {
                changed.insert(path.clone(), i);
            }
        }
        proof {
            assert forall|path: Seq<char>| first_file(files, path, i + 1) == if #[trigger] changed@.contains_key(path) {
                Some(changed@[path] as int)
            } else {
                None
            } by {
                assert(first_file(files, path, i as int) == if before.contains_key(path) {
                    Some(before[path] as int)
                } else {
                    None
                });
                assert(has_path(files[i as int], path) == has_path(file@, path));
            }
        }
        i = i + 1;
    }
    changed
}

proof fn lemma_first_file(files: Seq<FileView>, path: Seq<char>, n: int)
    requires
        n <= files.len(),
    ensures
        match first_file(files, path, n) {
            Some(i) => 0 <= i < n && has_path(files[i], path),
            None => true,
        },
    decreases n,
{
    if n > 0 {
        lemma_first_file(files, path, n - 1);
    }
}

/// The condition of a function that it is written at a range on either side.
pub open spec fn recorded_at(range: SourceRange) -> spec_fn(FunctionView) -> bool {
    |f: FunctionView| f.base_range == Some(range) || f.target_range == Some(range)
}

/// The identity of a function that the comparison does not contain, read from
/// the side that still has it.
pub open spec fn outside_identity(path: Seq<char>, definition: DefinitionView, range: SourceRange, in_target: bool) -> Seq<char> {
    let side = if in_target {
        "target"@
    } else {
        "base"@
    };
    path + "#"@ + symbol(definition.kind, definition.qualified_name) + "@"@ + side + ":"@ + decimal(range.start_line as nat) + ":"@ + decimal(
        range.start_column as nat,
    )
}

/// The status of something that is in one revision, the other, or both.
pub open spec fn presence(in_base: bool, in_target: bool) -> NodeStatus {
    if in_base == in_target {
        NodeStatus::Unchanged
    } else if in_target {
        NodeStatus::Added
    } else {
        NodeStatus::Removed
    }
}

/// The node of the function at a path and a range. A function in a file of the
/// comparison is the record that the comparison has for it; any other is named
/// from the definition that a revision has.
pub open spec fn node_at(files: Seq<FileView>, r: RevisionsView, path: Seq<char>, range: SourceRange) -> Option<NodeView> {
    match first_file(files, path, files.len() as int) {
        Some(k) => match first_where(files[k].functions, recorded_at(range), 0) {
            Some(i) => Some(function_facts(files[k], path, files[k].functions[i])),
            None => None,
        },
        None => {
            let base = definition_in(r.base_symbols, path, range);
            let target = definition_in(r.target_symbols, path, range);
            let definition = if target is Some {
                target
            } else {
                base
            };
            match definition {
                Some(definition) => Some(
                    NodeView {
                        id: function_identity(outside_identity(path, definition, range, target is Some)),
                        key: Seq::empty(),
                        label: definition.qualified_name,
                        kind: NodeKind::Function,
                        path,
                        status: presence(base is Some, target is Some),
                        depth: 0,
                    },
                ),
                None => None,
            }
        },
    }
}

fn record_at(functions: &Vec<FunctionResult>, range: SourceRange) -> (r: Option<usize>)
    ensures
        match r {
            Some(i) => first_where(function_views(functions@), recorded_at(range), 0) == Some(i as int) && i < functions@.len(),
            None => first_where(function_views(functions@), recorded_at(range), 0) is None,
        },
{
    let ghost views = function_views(functions@);
    let ghost holds = recorded_at(range);
    let mut i: usize = 0;
    while i < functions.len()
        invariant
            i <= functions.len(),
            views == function_views(functions@),
            holds == recorded_at(range),
            first_where(views, holds, 0) == first_where(views, holds, i as int),
        decreases functions.len() - i,
    {
        let function = &functions[i];
        assert(views[i as int] == function@);
        if function.base_range == Some(range) || function.target_range == Some(range) {
            return Some(i);
        }
        i = i + 1;
    }
    None
}

/// Name the node one definition belongs to.
fn place_function(result: &AnalysisResult, changed: &TextMap<usize>, revisions: &Revisions, path: &str, range: SourceRange) -> (r: Option<Node>)
    requires
        places_files(changed@, result@.files, result@.files.len() as int),
    ensures
        (match r {
            Some(node) => Some(node@),
            None => None,
        }) == node_at(result@.files, revisions@, path@, range),
{
    let ghost files = result@.files;
    proof {
        lemma_first_file(files, path@, files.len() as int);
    }
    if let Some(k) = changed.get(path) {
        let file = &result.files[*k];
        assert(files[*k as int] == file@);
        return match record_at(&file.functions, range) {
            Some(i) => {
                assert(file@.functions[i as int] == file.functions@[i as int]@);
                Some(function_node(file, path, &file.functions[i]))
            },
            None => None,
        };
    }
    let base = find_definition(revisions.base_symbols, path, range);
    let target = find_definition(revisions.target_symbols, path, range);
    let in_base = base.is_some();
    let in_target = target.is_some();
    let definition = match target {
        Some(found) => found,
        None => match base {
            Some(found) => found,
            None => {
                return None;
            },
        },
    };
    let mut id = join2(path, "#");
    id.append(symbol_id(definition.kind, definition.qualified_name.as_str()).as_str());
    id.append("@");
    id.append(if in_target {
        "target"
    } else {
        "base"
    });
    id.append(":");
    id.append(number_text(range.start_line as u64).as_str());
    id.append(":");
    id.append(number_text(range.start_column as u64).as_str());
    assert(id@ =~= outside_identity(path@, definition@, range, in_target));
    let node = Node {
        id: Node::function_id(id.as_str()),
        key: String::new(),
        label: definition.qualified_name.clone(),
        kind: NodeKind::Function,
        path: path.to_owned(),
        status: if in_base == in_target {
            NodeStatus::Unchanged
        } else if in_target {
            NodeStatus::Added
        } else {
            NodeStatus::Removed
        },
        depth: 0,
    };
    assert(node@ =~= node_at(files, revisions@, path@, range)->0);
    Some(node)
}

/// The last of the functions before a place that has a record id.
pub open spec fn last_named(functions: Seq<FunctionView>, id: Seq<char>, n: int) -> Option<int>
    decreases n,
{
    if n <= 0 || n > functions.len() {
        None
    } else if functions[n - 1].id == id {
        Some(n - 1)
    } else {
        last_named(functions, id, n - 1)
    }
}

/// The identity of the node that stands for the function at a place of a file:
/// that of the record with its record id.
pub open spec fn own_identity(file: FileView, i: int) -> Seq<char> {
    match last_named(file.functions, file.functions[i].id, file.functions.len() as int) {
        Some(j) => function_identity(identity(file, file.functions[j])),
        None => function_identity(identity(file, file.functions[i])),
    }
}

/// The identities of the nodes that stand for a file's functions.
pub open spec fn own_identities(file: FileView) -> Seq<Seq<char>> {
    Seq::new(file.functions.len(), |i: int| own_identity(file, i))
}

fn node_ids(file: &FileResult) -> (r: Vec<String>)
    ensures
        texts(r@) == own_identities(file@),
{
    let ghost functions = file@.functions;
    let n: usize = file.functions.len();
    let mut last: TextMap<usize> = TextMap::new();
    let mut i: usize = 0;
    while i < n
        invariant
            n == file.functions.len(),
            functions == function_views(file.functions@),
            i <= n,
            forall|id: Seq<char>|
                last_named(functions, id, i as int) == if #[trigger] last@.contains_key(id) {
                    Some(last@[id] as int)
                } else {
                    None
                },
        decreases n - i,
    {
        assert(functions[i as int] == file.functions@[i as int]@);
        last.insert(file.functions[i].id.clone(), i);
        i = i + 1;
    }
    let mut out: Vec<String> = Vec::new();
    let mut i: usize = 0;
    while i < n
        invariant
            n == file.functions.len(),
            functions == function_views(file.functions@),
            functions == file@.functions,
            i <= n,
            forall|id: Seq<char>|
                last_named(functions, id, n as int) == if #[trigger] last@.contains_key(id) {
                    Some(last@[id] as int)
                } else {
                    None
                },
            texts(out@) =~= own_identities(file@).take(i as int),
        decreases n - i,
    {
        assert(functions[i as int] == file.functions@[i as int]@);
        let ghost so_far = texts(out@);
        let ghost own = functions[i as int].id;
        let at: usize = match last.get(file.functions[i].id.as_str()) {
            Some(at) => *at,
            None => i,
        };
        proof {
            assert(last_named(functions, own, n as int) == if last@.contains_key(own) {
                Some(last@[own] as int)
            } else {
                None
            });
            lemma_last_named(functions, own, n as int);
            assert(functions[at as int] == file.functions@[at as int]@);
        }
        let id = function_id(file, &file.functions[at]);
        out.push(Node::function_id(id.as_str()));
        assert(texts(out@) =~= so_far.push(own_identity(file@, i as int)));
        i = i + 1;
    }
    assert(texts(out@) =~= own_identities(file@));
    out
}

proof fn lemma_last_named(functions: Seq<FunctionView>, id: Seq<char>, n: int)
    requires
        n <= functions.len(),
    ensures
        match last_named(functions, id, n) {
            Some(i) => 0 <= i < n,
            None => true,
        },
    decreases n,
{
    if n > 0 {
        lemma_last_named(functions, id, n - 1);
    }
}

/// One call as a graph sees it: the nodes of caller and callee, whether it is a
/// guess, how it was resolved, where it is written, and the node that it brings
/// in from beyond the root's own file.
#[verifier::ext_equal]
pub struct SeenView {
    pub from: Seq<char>,
    pub to: Seq<char>,
    pub guessed: bool,
    pub resolution: Resolution,
    pub side: Side,
    pub line: u32,
    pub site: Seq<char>,
    pub place: Option<NodeView>,
}

/// One call as it was found.
pub struct Seen {
    pub from: String,
    pub to: String,
    pub guessed: bool,
    pub resolution: Resolution,
    pub side: Side,
    pub line: u32,
    pub site: String,
    pub place: Option<Node>,
}

impl vstd::view::View for Seen {
    type V = SeenView;

    open spec fn view(&self) -> SeenView {
        SeenView {
            from: self.from@,
            to: self.to@,
            guessed: self.guessed,
            resolution: self.resolution,
            side: self.side,
            line: self.line,
            site: self.site@,
            place: match self.place {
                Some(node) => Some(node@),
                None => None,
            },
        }
    }
}

/// The views of calls seen.
pub open spec fn seen_views(seen: Seq<Seen>) -> Seq<SeenView> {
    seen.map_values(|s: Seen| s@)
}

/// The place of the function that a call names in its own file. A member call
/// is never local.
pub open spec fn local_target(functions: Seq<FunctionView>, side: Side, call: CallView) -> Option<int> {
    if call.receiver is Some {
        None
    } else {
        sole_declared(functions, side, call.name)
    }
}

/// What is seen of a call to a name that the caller's own file declares.
pub open spec fn local_call(file: FileView, path: Seq<char>, side: Side, i: int) -> spec_fn(CallView) -> Option<SeenView> {
    |call: CallView|
        match local_target(file.functions, side, call) {
            Some(j) => Some(
                SeenView {
                    from: own_identity(file, i),
                    to: own_identity(file, j),
                    guessed: false,
                    resolution: Resolution::DirectLocalSymbol,
                    side,
                    line: call.line,
                    site: path,
                    place: None,
                },
            ),
            None => None,
        }
}

/// What one comparison's graph of a function is resolved against.
#[verifier::ext_equal]
pub struct Scene {
    pub files: Seq<FileView>,
    pub revisions: RevisionsView,
    /// Whether guesses are asked for.
    pub guess: bool,
    /// Which revision's relationships are shown.
    pub view: crate::graph::View,
    /// The file of the function, and the path that it is reported under.
    pub file: FileView,
    pub path: Seq<char>,
}

/// What is seen of a call that leads out of the root's file.
pub open spec fn outward_call(scene: Scene, side: Side, i: int) -> spec_fn(CallView) -> Option<SeenView> {
    |call: CallView|
        if local_target(scene.file.functions, side, call) is Some {
            None
        } else {
            match callee_of(scene.revisions, scene.guess, side, scene.path, call) {
                Some(callee) => match node_at(scene.files, scene.revisions, callee.path, callee.range) {
                    Some(node) => Some(
                        SeenView {
                            from: own_identity(scene.file, i),
                            to: node.id,
                            guessed: callee.guessed,
                            resolution: callee.resolution,
                            side,
                            line: call.line,
                            site: scene.path,
                            place: Some(node),
                        },
                    ),
                    None => None,
                },
                None => None,
            }
        }
}

/// The condition of a function that it is written at a range on one side.
pub open spec fn written_on(range: SourceRange, side: Side) -> spec_fn(FunctionView) -> bool {
    |f: FunctionView| range_on(f, side) == Some(range)
}

/// What is seen of a call that another file's function, written at a range,
/// makes into the root's file.
pub open spec fn inward_call(scene: Scene, side: Side, importer: Seq<char>, range: SourceRange) -> spec_fn(CallView) -> Option<SeenView> {
    |call: CallView|
        match callee_of(scene.revisions, scene.guess, side, importer, call) {
            Some(callee) => if callee.path == scene.path {
                match (
                    first_where(scene.file.functions, written_on(callee.range, side), 0),
                    node_at(scene.files, scene.revisions, importer, range),
                ) {
                    (Some(j), Some(node)) => Some(
                        SeenView {
                            from: node.id,
                            to: function_identity(identity(scene.file, scene.file.functions[j])),
                            guessed: callee.guessed,
                            resolution: callee.resolution,
                            side,
                            line: call.line,
                            site: importer,
                            place: Some(node),
                        },
                    ),
                    _ => None,
                }
            } else {
                None
            },
            None => None,
        }
}

/// A function that may call into the root's file: where it is written, and the
/// calls it makes.
#[verifier::ext_equal]
pub struct CallerView {
    pub range: SourceRange,
    pub calls: Seq<CallView>,
}

/// One function that may call into the root's file, wherever it was read from.
struct Caller<'a> {
    range: SourceRange,
    calls: &'a Vec<CallSite>,
}

impl<'a> vstd::view::View for Caller<'a> {
    type V = CallerView;

    closed spec fn view(&self) -> CallerView {
        CallerView { range: self.range, calls: call_views(self.calls@) }
    }
}

spec fn caller_views(callers: Seq<Caller>) -> Seq<CallerView> {
    callers.map_values(|c: Caller| c@)
}

/// A function of the comparison as a caller on one side, if it is written
/// there.
pub open spec fn recorded_caller(side: Side) -> spec_fn(FunctionView) -> Option<CallerView> {
    |f: FunctionView|
        match range_on(f, side) {
            Some(range) => Some(CallerView { range, calls: written_calls(f, side) }),
            None => None,
        }
}

/// The functions one importing file declares on one side: those that the
/// comparison records where it contains the file, else those of the revision.
pub open spec fn callers_in(files: Seq<FileView>, r: RevisionsView, importer: Seq<char>, side: Side) -> Seq<CallerView> {
    match first_file(files, importer, files.len() as int) {
        Some(k) => yielded(files[k].functions, recorded_caller(side)),
        None => if symbols_on(r, side).contains_key(importer) {
            symbols_on(r, side)[importer].functions.map_values(|d: DefinitionView| CallerView { range: d.range, calls: d.calls })
        } else {
            Seq::empty()
        },
    }
}

/// The calls of the root's own functions that lead within their file, function
/// by function.
pub open spec fn local_part(scene: Scene) -> spec_fn(int) -> Seq<SeenView> {
    |i: int|
        yielded(written_calls(scene.file.functions[i], Side::Base), local_call(scene.file, scene.path, Side::Base, i))
            + yielded(written_calls(scene.file.functions[i], Side::Target), local_call(scene.file, scene.path, Side::Target, i))
}

/// The calls of the root's own functions that lead out of their file, function
/// by function.
pub open spec fn outward_part(scene: Scene) -> spec_fn(int) -> Seq<SeenView> {
    |i: int|
        yielded(written_calls(scene.file.functions[i], Side::Base), outward_call(scene, Side::Base, i)) + yielded(
            written_calls(scene.file.functions[i], Side::Target),
            outward_call(scene, Side::Target, i),
        )
}

/// The calls into the root's file of the functions of one importer, function by
/// function.
pub open spec fn caller_part(scene: Scene, side: Side, importer: Seq<char>) -> spec_fn(int) -> Seq<SeenView> {
    |c: int|
        {
            let caller = callers_in(scene.files, scene.revisions, importer, side)[c];
            yielded(caller.calls, inward_call(scene, side, importer, caller.range))
        }
}

/// The calls into the root's file, importer by importer.
pub open spec fn importer_part(scene: Scene, side: Side) -> spec_fn(int) -> Seq<SeenView> {
    |k: int|
        {
            let importer = listed(index_on(scene.revisions, side).importers_of(scene.path))[k];
            joined(caller_part(scene, side, importer), callers_in(scene.files, scene.revisions, importer, side).len() as int)
        }
}

/// The calls into the root's file that one side has. Only direct importers are
/// read: a file can only call into a module it imports.
pub open spec fn inward_on(scene: Scene, side: Side) -> Seq<SeenView> {
    joined(importer_part(scene, side), listed(index_on(scene.revisions, side).importers_of(scene.path)).len() as int)
}

/// Every call that the functions of the root's file take part in.
pub open spec fn all_seen(scene: Scene) -> Seq<SeenView> {
    let n = scene.file.functions.len() as int;
    joined(local_part(scene), n) + joined(outward_part(scene), n) + inward_on(scene, Side::Base) + inward_on(scene, Side::Target)
}

/// Whether a view reports what is observed on a side.
pub open spec fn view_has_side(view: crate::graph::View, side: Side) -> bool {
    match view {
        crate::graph::View::Delta => true,
        crate::graph::View::Base => side == Side::Base,
        crate::graph::View::Target => side == Side::Target,
    }
}

/// Whether a view reports what is observed on a side.
pub(crate) fn view_includes_side(view: crate::graph::View, side: Side) -> (r: bool)
    ensures
        r == view_has_side(view, side),
{
    match view {
        crate::graph::View::Delta => true,
        crate::graph::View::Base => side == Side::Base,
        crate::graph::View::Target => side == Side::Target,
    }
}

/// A call site that no rule resolved: its side and file, where the function
/// around it starts, and what it writes.
#[verifier::ext_equal]
pub struct SiteView {
    pub side: Side,
    pub path: Seq<char>,
    pub start: (u32, u32),
    pub call: CallView,
}

struct Site {
    side: Side,
    path: String,
    start: (u32, u32),
    name: String,
    receiver: Option<String>,
    line: u32,
}

impl vstd::view::View for Site {
    type V = SiteView;

    closed spec fn view(&self) -> SiteView {
        SiteView {
            side: self.side,
            path: self.path@,
            start: self.start,
            call: CallView { name: self.name@, receiver: text_option(self.receiver), line: self.line },
        }
    }
}

spec fn site_views(sites: Seq<Site>) -> Seq<SiteView> {
    sites.map_values(|s: Site| s@)
}

/// The site of a call in the function at a range.
pub open spec fn site_of(side: Side, path: Seq<char>, range: SourceRange, call: CallView) -> SiteView {
    SiteView { side, path, start: (range.start_line, range.start_column), call }
}

fn new_site(side: Side, path: &str, range: SourceRange, call: &CallSite) -> (r: Site)
    ensures
        r@ == site_of(side, path@, range, call@),
{
    let r = Site {
        side,
        path: path.to_owned(),
        start: (range.start_line, range.start_column),
        name: call.name.clone(),
        receiver: crate::collections::copy_option(&call.receiver),
        line: call.line,
    };
    assert(r@ =~= site_of(side, path@, range, call@));
    r
}

/// What is left unresolved of a call of the root's own function at a place.
pub open spec fn outward_miss(scene: Scene, side: Side, i: int) -> spec_fn(CallView) -> Option<SiteView> {
    |call: CallView|
        if local_target(scene.file.functions, side, call) is Some || !view_has_side(scene.view, side) || callee_of(
            scene.revisions,
            scene.guess,
            side,
            scene.path,
            call,
        ) is Some {
            None
        } else {
            match range_on(scene.file.functions[i], side) {
                Some(range) => Some(site_of(side, scene.path, range, call)),
                None => None,
            }
        }
}

/// What is left unresolved of a call of another file's function.
pub open spec fn inward_miss(scene: Scene, side: Side, importer: Seq<char>, range: SourceRange) -> spec_fn(CallView) -> Option<SiteView> {
    |call: CallView|
        if !view_has_side(scene.view, side) || callee_of(scene.revisions, scene.guess, side, importer, call) is Some {
            None
        } else {
            Some(site_of(side, importer, range, call))
        }
}

/// The unresolved calls of the root's own functions, function by function.
pub open spec fn outward_misses(scene: Scene) -> spec_fn(int) -> Seq<SiteView> {
    |i: int|
        yielded(written_calls(scene.file.functions[i], Side::Base), outward_miss(scene, Side::Base, i)) + yielded(
            written_calls(scene.file.functions[i], Side::Target),
            outward_miss(scene, Side::Target, i),
        )
}

/// The unresolved calls of the functions of one importer, function by function.
pub open spec fn caller_misses(scene: Scene, side: Side, importer: Seq<char>) -> spec_fn(int) -> Seq<SiteView> {
    |c: int|
        {
            let caller = callers_in(scene.files, scene.revisions, importer, side)[c];
            yielded(caller.calls, inward_miss(scene, side, importer, caller.range))
        }
}

/// The unresolved calls of the importers, importer by importer.
pub open spec fn importer_misses(scene: Scene, side: Side) -> spec_fn(int) -> Seq<SiteView> {
    |k: int|
        {
            let importer = listed(index_on(scene.revisions, side).importers_of(scene.path))[k];
            joined(caller_misses(scene, side, importer), callers_in(scene.files, scene.revisions, importer, side).len() as int)
        }
}

/// The unresolved calls of the importers on one side.
pub open spec fn inward_misses(scene: Scene, side: Side) -> Seq<SiteView> {
    joined(importer_misses(scene, side), listed(index_on(scene.revisions, side).importers_of(scene.path)).len() as int)
}

/// Every call site that was examined and that no rule resolved.
pub open spec fn all_missed(scene: Scene) -> Seq<SiteView> {
    joined(outward_misses(scene), scene.file.functions.len() as int) + inward_misses(scene, Side::Base) + inward_misses(scene, Side::Target)
}

fn same_site(a: &Site, b: &Site) -> (r: bool)
    ensures
        r == (a@ == b@),
{
    let same_receiver = match (&a.receiver, &b.receiver) {
        (None, None) => true,
        (Some(x), Some(y)) => same_text(x.as_str(), y.as_str()),
        _ => false,
    };
    let r = a.line == b.line && a.side == b.side && a.start.0 == b.start.0 && a.start.1 == b.start.1 && same_receiver && same_text(
        a.name.as_str(),
        b.name.as_str(),
    ) && same_text(a.path.as_str(), b.path.as_str());
    proof {
        if r {
            assert(a@ =~= b@);
        }
    }
    r
}

/// How many sites there are, each counted once.
fn count_sites(sites: &Vec<Site>) -> (r: u32)
    ensures
        r == saturated(site_views(sites@).to_set().len()),
{
    let ghost views = site_views(sites@);
    let mut firsts: Vec<usize> = Vec::new();
    let ghost mut once = Seq::<SiteView>::empty();
    let mut i: usize = 0;
    while i < sites.len()
        invariant
            i <= sites.len(),
            views == site_views(sites@),
            once.len() == firsts@.len(),
            once.no_duplicates(),
            forall|k: int| 0 <= k < firsts@.len() ==> (#[trigger] firsts@[k]) < sites@.len() && once[k] == views[firsts@[k] as int],
            forall|x: SiteView| #[trigger] once.contains(x) <==> views.take(i as int).contains(x),
        decreases sites.len() - i,
    {
        let ghost v = views[i as int];
        assert(v == sites@[i as int]@);
        let mut known = false;
        let mut j: usize = 0;
        while j < firsts.len() && !known
            invariant
                i < sites.len(),
                j <= firsts.len(),
                views == site_views(sites@),
                v == sites@[i as int]@,
                once.len() == firsts@.len(),
                forall|k: int| 0 <= k < firsts@.len() ==> (#[trigger] firsts@[k]) < sites@.len() && once[k] == views[firsts@[k] as int],
                known ==> once.contains(v),
                !known ==> forall|k: int| 0 <= k < j ==> #[trigger] once[k] != v,
            decreases firsts.len() - j + (if known {
                0int
            } else {
                1int
            }),
        {
            assert(once[j as int] == views[firsts@[j as int] as int]);
            assert(views[firsts@[j as int] as int] == sites@[firsts@[j as int] as int]@);
            if same_site(&sites[firsts[j]], &sites[i]) {
                assert(once.contains(v));
                known = true;
            } else {
                j = j + 1;
            }
        }
        proof {
            assert(views.take(i + 1) =~= views.take(i as int).push(v));
            crate::collections::lemma_push_contains(views.take(i as int), v);
            crate::collections::lemma_push_contains(once, v);
        }
        if !known {
            let ghost before = once;
            firsts.push(i);
            proof {
                assert(!before.contains(v));
                once = before.push(v);
            }
        }
        i = i + 1;
    }
    proof {
        assert(views.take(i as int) =~= views);
        assert(once.to_set() =~= views.to_set());
        once.unique_seq_to_set();
    }
    crate::graph::count(firsts.len())
}

/// What the root's own file declares: the node identity of every record, and
/// the definitions each side has by the name a call would write.
struct Locals {
    ids: Vec<String>,
    base: TextMap<Option<usize>>,
    target: TextMap<Option<usize>>,
}

impl Locals {
    spec fn are_of(self, file: FileView) -> bool {
        &&& texts(self.ids@) == own_identities(file)
        &&& names_of(self.base@, file.functions, Side::Base, file.functions.len() as int)
        &&& names_of(self.target@, file.functions, Side::Target, file.functions.len() as int)
    }

    fn target_of(&self, call: &CallSite, side: Side, Ghost(file): Ghost<FileView>) -> (r: Option<usize>)
        requires
            self.are_of(file),
        ensures
            match r {
                Some(i) => local_target(file.functions, side, call@) == Some(i as int) && i < file.functions.len(),
                None => local_target(file.functions, side, call@) is None,
            },
    {
        if call.receiver.is_some() {
            return None;
        }
        let names = match side {
            Side::Base => &self.base,
            Side::Target => &self.target,
        };
        proof {
            lemma_sole(names@, file.functions, side, call.name@);
        }
        match names.get(call.name.as_str()) {
            Some(Some(i)) => Some(*i),
            _ => None,
        }
    }
}

/// What calls are resolved against.
pub(crate) struct Resolver<'a> {
    result: &'a AnalysisResult,
    changed: TextMap<usize>,
    revisions: &'a Revisions<'a>,
    guess: bool,
    view: crate::graph::View,
    file: &'a FileResult,
    path: &'a str,
}

impl<'a> Resolver<'a> {
    pub closed spec fn scene(self) -> Scene {
        Scene {
            files: self.result@.files,
            revisions: self.revisions@,
            guess: self.guess,
            view: self.view,
            file: self.file@,
            path: self.path@,
        }
    }

    pub closed spec fn ready(self) -> bool {
        places_files(self.changed@, self.result@.files, self.result@.files.len() as int)
    }

    /// The node of the function at a place of the root's file.
    pub(crate) fn own_node(&self, at: usize) -> (r: Node)
        requires
            at < self.scene().file.functions.len(),
        ensures
            r@ == function_facts(self.scene().file, self.scene().path, self.scene().file.functions[at as int]),
    {
        assert(self.file@.functions[at as int] == self.file.functions@[at as int]@);
        function_node(self.file, self.path, &self.file.functions[at])
    }

    /// The path that the root's file is reported under.
    pub(crate) fn root_path(&self) -> (r: &str)
        ensures
            r@ == self.scene().path,
    {
        self.path
    }

    /// Which sides declare the function at a place of the root's file.
    pub(crate) fn sides_of(&self, at: usize) -> (r: (bool, bool))
        requires
            at < self.scene().file.functions.len(),
        ensures
            r.0 == (self.scene().file.functions[at as int].base_range is Some),
            r.1 == (self.scene().file.functions[at as int].target_range is Some),
    {
        assert(self.file@.functions[at as int] == self.file.functions@[at as int]@);
        let function = &self.file.functions[at];
        (function.base_range.is_some(), function.target_range.is_some())
    }

    /// Record the calls one side of one function wrote to names its own file
    /// declares.
    fn see_local(&self, locals: &Locals, i: usize, side: Side, calls: &Vec<CallSite>, out: &mut Vec<Seen>)
        requires
            locals.are_of(self.file@),
            i < self.file@.functions.len(),
        ensures
            seen_views(final(out)@) == seen_views(old(out)@) + yielded(
                call_views(calls@),
                local_call(self.scene().file, self.scene().path, side, i as int),
            ),
    {
        let ghost file = self.file@;
        let ghost given = seen_views(out@);
        let ghost views = call_views(calls@);
        let ghost pick = local_call(file, self.path@, side, i as int);
        let mut k: usize = 0;
        assert(given + yielded(views.take(0), pick) =~= given);
        while k < calls.len()
            invariant
                k <= calls.len(),
                locals.are_of(file),
                i < file.functions.len(),
                views == call_views(calls@),
                pick == local_call(file, self.path@, side, i as int),
                seen_views(out@) == given + yielded(views.take(k as int), pick),
            decreases calls.len() - k,
        {
            let call = &calls[k];
            let ghost so_far = yielded(views.take(k as int), pick);
            let ghost before = seen_views(out@);
            assert(views.take(k + 1).drop_last() =~= views.take(k as int));
            assert(views.take(k + 1).last() == call@);
            if let Some(j) = locals.target_of(call, side, Ghost(file)) {
                assert(locals.ids@.len() == texts(locals.ids@).len());
                assert(texts(locals.ids@)[i as int] == own_identity(file, i as int));
                assert(texts(locals.ids@)[j as int] == own_identity(file, j as int));
                let seen = Seen {
                    from: locals.ids[i].clone(),
                    to: locals.ids[j].clone(),
                    guessed: false,
                    resolution: Resolution::DirectLocalSymbol,
                    side,
                    line: call.line,
                    site: self.path.to_owned(),
                    place: None,
                };
                assert(Some(seen@) == pick(call@));
                let ghost item = seen@;
                out.push(seen);
                assert(seen_views(out@) =~= before.push(item));
                assert(given + so_far.push(item) =~= before.push(item));
            }
            k = k + 1;
        }
        assert(views.take(k as int) =~= views);
    }

    /// Record the calls one side of one function makes into other modules.
    fn see_outward(&self, locals: &Locals, i: usize, side: Side, calls: &Vec<CallSite>, out: &mut Vec<Seen>, missed: &mut Vec<Site>)
        requires
            self.ready(),
            locals.are_of(self.file@),
            i < self.file@.functions.len(),
        ensures
            seen_views(final(out)@) == seen_views(old(out)@) + yielded(call_views(calls@), outward_call(self.scene(), side, i as int)),
            site_views(final(missed)@) == site_views(old(missed)@) + yielded(call_views(calls@), outward_miss(self.scene(), side, i as int)),
    {
        let ghost lacking = site_views(missed@);
        let ghost miss = outward_miss(self.scene(), side, i as int);
        let ghost scene = self.scene();
        let ghost given = seen_views(out@);
        let ghost views = call_views(calls@);
        let ghost pick = outward_call(scene, side, i as int);
        let mut k: usize = 0;
        assert(given + yielded(views.take(0), pick) =~= given);
        assert(lacking + yielded(views.take(0), miss) =~= lacking);
        while k < calls.len()
            invariant
                k <= calls.len(),
                self.ready(),
                scene == self.scene(),
                locals.are_of(scene.file),
                i < scene.file.functions.len(),
                views == call_views(calls@),
                pick == outward_call(scene, side, i as int),
                miss == outward_miss(scene, side, i as int),
                scene.file.functions == function_views(self.file.functions@),
                site_views(missed@) == lacking + yielded(views.take(k as int), miss),
                seen_views(out@) == given + yielded(views.take(k as int), pick),
            decreases calls.len() - k,
        {
            let call = &calls[k];
            let ghost so_far = yielded(views.take(k as int), pick);
            let ghost before = seen_views(out@);
            assert(views.take(k + 1).drop_last() =~= views.take(k as int));
            assert(views.take(k + 1).last() == call@);
            if locals.target_of(call, side, Ghost(scene.file)).is_none() {
                if let Some(found) = callee(self.revisions, self.guess, side, self.path, call) {
                    if let Some(node) = place_function(self.result, &self.changed, self.revisions, found.path.as_str(), found.range) {
                        assert(locals.ids@.len() == texts(locals.ids@).len());
                        assert(texts(locals.ids@)[i as int] == own_identity(scene.file, i as int));
                        let seen = Seen {
                            from: locals.ids[i].clone(),
                            to: node.id.clone(),
                            guessed: found.guessed,
                            resolution: found.resolution,
                            side,
                            line: call.line,
                            site: self.path.to_owned(),
                            place: Some(node),
                        };
                        assert(Some(seen@) == pick(call@));
                        let ghost item = seen@;
                        out.push(seen);
                        assert(seen_views(out@) =~= before.push(item));
                        assert(given + so_far.push(item) =~= before.push(item));
                    }
                } else if view_includes_side(self.view, side) {
                    assert(scene.file.functions[i as int] == self.file.functions@[i as int]@);
                    if let Some(range) = side_range(&self.file.functions[i], side) {
                        let ghost held = site_views(missed@);
                        let site = new_site(side, self.path, range, call);
                        let ghost item = site@;
                        assert(Some(item) == miss(call@));
                        missed.push(site);
                        assert(site_views(missed@) =~= held.push(item));
                        assert(lacking + yielded(views.take(k as int), miss).push(item) =~= held.push(item));
                    }
                }
            }
            k = k + 1;
        }
        assert(views.take(k as int) =~= views);
    }

    /// The root file's function a call points at, by the range that side
    /// reported.
    fn root_file_function(&self, range: SourceRange, side: Side) -> (r: Option<usize>)
        ensures
            match r {
                Some(j) => first_where(self.scene().file.functions, written_on(range, side), 0) == Some(j as int) && j
                    < self.file.functions@.len(),
                None => first_where(self.scene().file.functions, written_on(range, side), 0) is None,
            },
    {
        let ghost views = self.file@.functions;
        let ghost holds = written_on(range, side);
        let mut i: usize = 0;
        while i < self.file.functions.len()
            invariant
                i <= self.file.functions.len(),
                views == function_views(self.file.functions@),
                views == self.scene().file.functions,
                holds == written_on(range, side),
                first_where(views, holds, 0) == first_where(views, holds, i as int),
            decreases self.file.functions.len() - i,
        {
            assert(views[i as int] == self.file.functions@[i as int]@);
            if side_range(&self.file.functions[i], side) == Some(range) {
                return Some(i);
            }
            i = i + 1;
        }
        None
    }

    /// Record the calls that one function of an importing file makes into the
    /// root's file.
    fn see_inward(&self, importer: &str, range: SourceRange, side: Side, calls: &Vec<CallSite>, out: &mut Vec<Seen>, missed: &mut Vec<Site>)
        requires
            self.ready(),
        ensures
            seen_views(final(out)@) == seen_views(old(out)@) + yielded(call_views(calls@), inward_call(self.scene(), side, importer@, range)),
            site_views(final(missed)@) == site_views(old(missed)@) + yielded(call_views(calls@), inward_miss(self.scene(), side, importer@, range)),
    {
        let ghost lacking = site_views(missed@);
        let ghost miss = inward_miss(self.scene(), side, importer@, range);
        let ghost scene = self.scene();
        let ghost given = seen_views(out@);
        let ghost views = call_views(calls@);
        let ghost pick = inward_call(scene, side, importer@, range);
        let mut k: usize = 0;
        assert(given + yielded(views.take(0), pick) =~= given);
        assert(lacking + yielded(views.take(0), miss) =~= lacking);
        while k < calls.len()
            invariant
                k <= calls.len(),
                self.ready(),
                scene == self.scene(),
                views == call_views(calls@),
                pick == inward_call(scene, side, importer@, range),
                miss == inward_miss(scene, side, importer@, range),
                site_views(missed@) == lacking + yielded(views.take(k as int), miss),
                seen_views(out@) == given + yielded(views.take(k as int), pick),
            decreases calls.len() - k,
        {
            let call = &calls[k];
            let ghost so_far = yielded(views.take(k as int), pick);
            let ghost before = seen_views(out@);
            assert(views.take(k + 1).drop_last() =~= views.take(k as int));
            assert(views.take(k + 1).last() == call@);
            if let Some(found) = callee(self.revisions, self.guess, side, importer, call) {
                if same_text(found.path.as_str(), self.path) {
                    if let Some(j) = self.root_file_function(found.range, side) {
                        if let Some(node) = place_function(self.result, &self.changed, self.revisions, importer, range) {
                            assert(scene.file.functions[j as int] == self.file.functions@[j as int]@);
                            let to = function_id(self.file, &self.file.functions[j]);
                            let seen = Seen {
                                from: node.id.clone(),
                                to: Node::function_id(to.as_str()),
                                guessed: found.guessed,
                                resolution: found.resolution,
                                side,
                                line: call.line,
                                site: importer.to_owned(),
                                place: Some(node),
                            };
                            assert(Some(seen@) == pick(call@));
                            let ghost item = seen@;
                            out.push(seen);
                            assert(seen_views(out@) =~= before.push(item));
                            assert(given + so_far.push(item) =~= before.push(item));
                        }
                    }
                }
            } else if view_includes_side(self.view, side) {
                let ghost held = site_views(missed@);
                let site = new_site(side, importer, range, call);
                let ghost item = site@;
                assert(Some(item) == miss(call@));
                missed.push(site);
                assert(site_views(missed@) =~= held.push(item));
                assert(lacking + yielded(views.take(k as int), miss).push(item) =~= held.push(item));
            }
            k = k + 1;
        }
        assert(views.take(k as int) =~= views);
    }

    /// The functions one importing file declares on one side.
    ///
    /// The analysis is preferred when the diff contains the file, because its
    /// records are what every other answer names that file's functions by.
    fn callers_of(&self, importer: &str, side: Side) -> (r: Vec<Caller<'a>>)
        requires
            self.ready(),
        ensures
            caller_views(r@) == callers_in(self.scene().files, self.scene().revisions, importer@, side),
    {
        let ghost files = self.result@.files;
        let ghost rev = self.revisions@;
        let mut out: Vec<Caller<'a>> = Vec::new();
        proof {
            lemma_first_file(files, importer@, files.len() as int);
        }
        if let Some(k) = self.changed.get(importer) {
            let result: &'a AnalysisResult = self.result;
            let file = &result.files[*k];
            assert(files[*k as int] == file@);
            let ghost views = file@.functions;
            let ghost pick = recorded_caller(side);
            let mut i: usize = 0;
            assert(caller_views(out@) =~= yielded(views.take(0), pick));
            while i < file.functions.len()
                invariant
                    i <= file.functions.len(),
                    views == function_views(file.functions@),
                    rev == self.revisions@,
                    pick == recorded_caller(side),
                    caller_views(out@) == yielded(views.take(i as int), pick),
                decreases file.functions.len() - i,
            {
                let function = &file.functions[i];
                let ghost so_far = caller_views(out@);
                assert(views.take(i + 1).drop_last() =~= views.take(i as int));
                assert(views.take(i + 1).last() == function@);
                if let Some(range) = side_range(function, side) {
                    let caller = Caller { range, calls: calls_of_record(function, side) };
                    let ghost item = caller@;
                    assert(Some(item) == pick(function@));
                    out.push(caller);
                    assert(caller_views(out@) =~= so_far.push(item));
                }
                i = i + 1;
            }
            assert(views.take(i as int) =~= views);
            return out;
        }
        let Some(file) = self.revisions.side(side).1.file(importer) else {
            assert(caller_views(out@) =~= Seq::<CallerView>::empty());
            return out;
        };
        let ghost views = symbols_on(rev, side)[importer@].functions;
        let ghost shown = views.map_values(|d: DefinitionView| CallerView { range: d.range, calls: d.calls });
        let mut i: usize = 0;
        while i < file.functions.len()
            invariant
                i <= file.functions.len(),
                views == definition_views(file.functions@),
                shown == views.map_values(|d: DefinitionView| CallerView { range: d.range, calls: d.calls }),
                caller_views(out@) =~= shown.take(i as int),
            decreases file.functions.len() - i,
        {
            let function = &file.functions[i];
            let ghost so_far = caller_views(out@);
            assert(views[i as int] == function@);
            let caller = Caller { range: function.range, calls: &function.calls };
            let ghost item = caller@;
            assert(item =~= shown[i as int]);
            out.push(caller);
            assert(caller_views(out@) =~= so_far.push(item));
            i = i + 1;
        }
        assert(shown.take(i as int) =~= shown);
        out
    }

    /// Record the calls into the root's file that one importing file makes.
    fn see_importer(&self, importer: &str, side: Side, out: &mut Vec<Seen>, missed: &mut Vec<Site>)
        requires
            self.ready(),
        ensures
            seen_views(final(out)@) == seen_views(old(out)@) + joined(
                caller_part(self.scene(), side, importer@),
                callers_in(self.scene().files, self.scene().revisions, importer@, side).len() as int,
            ),
            site_views(final(missed)@) == site_views(old(missed)@) + joined(
                caller_misses(self.scene(), side, importer@),
                callers_in(self.scene().files, self.scene().revisions, importer@, side).len() as int,
            ),
    {
        let ghost lacking = site_views(missed@);
        let ghost gaps = caller_misses(self.scene(), side, importer@);
        let ghost scene = self.scene();
        let ghost given = seen_views(out@);
        let ghost part = caller_part(scene, side, importer@);
        let callers = self.callers_of(importer, side);
        let ghost views = callers_in(scene.files, scene.revisions, importer@, side);
        assert(views.len() == callers@.len());
        let mut c: usize = 0;
        assert(given + joined(part, 0) =~= given);
        assert(lacking + joined(gaps, 0) =~= lacking);
        while c < callers.len()
            invariant
                c <= callers.len(),
                self.ready(),
                scene == self.scene(),
                views == callers_in(scene.files, scene.revisions, importer@, side),
                views == caller_views(callers@),
                part == caller_part(scene, side, importer@),
                gaps == caller_misses(scene, side, importer@),
                site_views(missed@) == lacking + joined(gaps, c as int),
                seen_views(out@) == given + joined(part, c as int),
            decreases callers.len() - c,
        {
            let caller = &callers[c];
            let ghost so_far = joined(part, c as int);
            let ghost gaps_so_far = joined(gaps, c as int);
            assert(views[c as int] == caller@);
            assert(part(c as int) == yielded(caller@.calls, inward_call(scene, side, importer@, caller.range)));
            assert(gaps(c as int) == yielded(caller@.calls, inward_miss(scene, side, importer@, caller.range)));
            self.see_inward(importer, caller.range, side, caller.calls, out, missed);
            assert(given + so_far + part(c as int) =~= given + (so_far + part(c as int)));
            assert(seen_views(out@) =~= given + joined(part, c + 1));
            assert(lacking + gaps_so_far + gaps(c as int) =~= lacking + (gaps_so_far + gaps(c as int)));
            assert(site_views(missed@) =~= lacking + joined(gaps, c + 1));
            c = c + 1;
        }
    }

    /// Record every call into the root's file from a module that imports it, on
    /// one side.
    ///
    /// The importers come from each revision's import graph, so a caller only
    /// the base has is discovered from the base.
    fn see_callers(&self, side: Side, out: &mut Vec<Seen>, missed: &mut Vec<Site>)
        requires
            self.ready(),
        ensures
            seen_views(final(out)@) == seen_views(old(out)@) + inward_on(self.scene(), side),
            site_views(final(missed)@) == site_views(old(missed)@) + inward_misses(self.scene(), side),
    {
        let ghost lacking = site_views(missed@);
        let ghost gaps = importer_misses(self.scene(), side);
        let ghost scene = self.scene();
        let ghost given = seen_views(out@);
        let ghost part = importer_part(scene, side);
        let importers = self.revisions.side(side).0.importers(self.path);
        let n: usize = importers.len();
        let ghost keys = importers.keys();
        proof {
            crate::collections::lemma_listed(keys);
        }
        assert(keys == listed(index_on(scene.revisions, side).importers_of(scene.path)));
        let mut k: usize = 0;
        assert(given + joined(part, 0) =~= given);
        assert(lacking + joined(gaps, 0) =~= lacking);
        while k < n
            invariant
                n == keys.len(),
                keys == importers.keys(),
                k <= n,
                self.ready(),
                scene == self.scene(),
                keys == listed(index_on(scene.revisions, side).importers_of(scene.path)),
                part == importer_part(scene, side),
                gaps == importer_misses(scene, side),
                site_views(missed@) == lacking + joined(gaps, k as int),
                seen_views(out@) == given + joined(part, k as int),
            decreases n - k,
        {
            let importer = importers.key_at(k);
            let ghost so_far = joined(part, k as int);
            assert(part(k as int) == joined(
                caller_part(scene, side, importer@),
                callers_in(scene.files, scene.revisions, importer@, side).len() as int,
            ));
            let ghost gaps_so_far = joined(gaps, k as int);
            assert(gaps(k as int) == joined(
                caller_misses(scene, side, importer@),
                callers_in(scene.files, scene.revisions, importer@, side).len() as int,
            ));
            self.see_importer(importer, side, out, missed);
            assert(lacking + gaps_so_far + gaps(k as int) =~= lacking + (gaps_so_far + gaps(k as int)));
            assert(given + so_far + part(k as int) =~= given + (so_far + part(k as int)));
            k = k + 1;
        }
    }

    fn locals(&self) -> (r: Locals)
        ensures
            r.are_of(self.file@),
    {
        Locals {
            ids: node_ids(self.file),
            base: declared_names(&self.file.functions, Side::Base),
            target: declared_names(&self.file.functions, Side::Target),
        }
    }

    /// Record every local call relationship of the root's file.
    ///
    /// Both revisions' call sites are resolved, so a relationship only one
    /// revision has is recorded as well.
    fn local_calls(&self, locals: &Locals, out: &mut Vec<Seen>)
        requires
            locals.are_of(self.file@),
        ensures
            seen_views(final(out)@) == seen_views(old(out)@) + joined(local_part(self.scene()), self.scene().file.functions.len() as int),
    {
        let ghost scene = self.scene();
        let ghost given = seen_views(out@);
        let ghost part = local_part(scene);
        let mut i: usize = 0;
        assert(given + joined(part, 0) =~= given);
        while i < self.file.functions.len()
            invariant
                i <= self.file.functions.len(),
                locals.are_of(self.file@),
                scene == self.scene(),
                part == local_part(scene),
                scene.file.functions == function_views(self.file.functions@),
                seen_views(out@) == given + joined(part, i as int),
            decreases self.file.functions.len() - i,
        {
            let function = &self.file.functions[i];
            let ghost so_far = joined(part, i as int);
            assert(scene.file.functions[i as int] == function@);
            let ghost base = yielded(
                written_calls(function@, Side::Base),
                local_call(scene.file, scene.path, Side::Base, i as int),
            );
            let ghost target = yielded(
                written_calls(function@, Side::Target),
                local_call(scene.file, scene.path, Side::Target, i as int),
            );
            self.see_local(locals, i, Side::Base, calls_of_record(function, Side::Base), out);
            assert(seen_views(out@) =~= given + so_far + base);
            self.see_local(locals, i, Side::Target, calls_of_record(function, Side::Target), out);
            assert(seen_views(out@) =~= given + so_far + base + target);
            assert(given + so_far + base + target =~= given + (so_far + (base + target)));
            assert(part(i as int) == base + target);
            i = i + 1;
        }
    }

    /// Record every call the root's file makes into another module.
    fn add_cross_file_callees(&self, locals: &Locals, out: &mut Vec<Seen>, missed: &mut Vec<Site>)
        requires
            self.ready(),
            locals.are_of(self.file@),
        ensures
            seen_views(final(out)@) == seen_views(old(out)@) + joined(outward_part(self.scene()), self.scene().file.functions.len() as int),
            site_views(final(missed)@) == site_views(old(missed)@) + joined(outward_misses(self.scene()), self.scene().file.functions.len() as int),
    {
        let ghost lacking = site_views(missed@);
        let ghost gaps = outward_misses(self.scene());
        let ghost scene = self.scene();
        let ghost given = seen_views(out@);
        let ghost part = outward_part(scene);
        let mut i: usize = 0;
        assert(given + joined(part, 0) =~= given);
        assert(lacking + joined(gaps, 0) =~= lacking);
        while i < self.file.functions.len()
            invariant
                i <= self.file.functions.len(),
                self.ready(),
                locals.are_of(self.file@),
                scene == self.scene(),
                part == outward_part(scene),
                gaps == outward_misses(scene),
                site_views(missed@) == lacking + joined(gaps, i as int),
                scene.file.functions == function_views(self.file.functions@),
                seen_views(out@) == given + joined(part, i as int),
            decreases self.file.functions.len() - i,
        {
            let function = &self.file.functions[i];
            let ghost so_far = joined(part, i as int);
            assert(scene.file.functions[i as int] == function@);
            let ghost base = yielded(written_calls(function@, Side::Base), outward_call(scene, Side::Base, i as int));
            let ghost target = yielded(
                written_calls(function@, Side::Target),
                outward_call(scene, Side::Target, i as int),
            );
            let ghost gaps_so_far = joined(gaps, i as int);
            let ghost base_gaps = yielded(written_calls(function@, Side::Base), outward_miss(scene, Side::Base, i as int));
            let ghost target_gaps = yielded(
                written_calls(function@, Side::Target),
                outward_miss(scene, Side::Target, i as int),
            );
            self.see_outward(locals, i, Side::Base, calls_of_record(function, Side::Base), out, missed);
            assert(seen_views(out@) =~= given + so_far + base);
            assert(site_views(missed@) =~= lacking + gaps_so_far + base_gaps);
            self.see_outward(locals, i, Side::Target, calls_of_record(function, Side::Target), out, missed);
            assert(seen_views(out@) =~= given + so_far + base + target);
            assert(given + so_far + base + target =~= given + (so_far + (base + target)));
            assert(part(i as int) == base + target);
            assert(site_views(missed@) =~= lacking + (gaps_so_far + (base_gaps + target_gaps)));
            assert(gaps(i as int) == base_gaps + target_gaps);
            i = i + 1;
        }
    }

    pub(crate) fn new(
        result: &'a AnalysisResult,
        revisions: &'a Revisions<'a>,
        guess: bool,
        view: crate::graph::View,
        file: &'a FileResult,
        path: &'a str,
    ) -> (r: Self)
        ensures
            r.ready(),
            r.scene() == (Scene { files: result@.files, revisions: revisions@, guess, view, file: file@, path: path@ }),
    {
        Resolver { result, changed: changed_files(result), revisions, guess, view, file, path }
    }

    /// Every call that the functions of the root's file take part in, on either
    /// side of the change, and how many call sites no rule resolved.
    pub(crate) fn sightings(&self) -> (r: (Vec<Seen>, u32))
        requires
            self.ready(),
        ensures
            seen_views(r.0@) == all_seen(self.scene()),
            r.1 == saturated(all_missed(self.scene()).to_set().len()),
    {
        let ghost scene = self.scene();
        let ghost n = scene.file.functions.len() as int;
        let locals = self.locals();
        let mut out: Vec<Seen> = Vec::new();
        let mut missed: Vec<Site> = Vec::new();
        assert(seen_views(out@) =~= Seq::<SeenView>::empty());
        assert(site_views(missed@) =~= Seq::<SiteView>::empty());
        self.local_calls(&locals, &mut out);
        assert(seen_views(out@) =~= joined(local_part(scene), n));
        self.add_cross_file_callees(&locals, &mut out, &mut missed);
        assert(site_views(missed@) =~= joined(outward_misses(scene), n));
        self.see_callers(Side::Base, &mut out, &mut missed);
        self.see_callers(Side::Target, &mut out, &mut missed);
        let unresolved = count_sites(&missed);
        (out, unresolved)
    }
}

/// A name that two functions of one side share names neither of them.
pub proof fn lemma_shared_name_names_nobody(functions: Seq<FunctionView>, side: Side, call: CallView, a: int, b: int)
    requires
        a != b,
        declares_at(functions, side, call.name, a),
        declares_at(functions, side, call.name, b),
    ensures
        local_target(functions, side, call) is None,
{
    assert forall|i: int| !#[trigger] declares_alone(functions, side, call.name, i) by {
        if declares_alone(functions, side, call.name, i) {
            assert(a == i && b == i);
        }
    }
}

/// The calls among those seen that were resolved exactly.
pub open spec fn exact(seen: Seq<SeenView>) -> Seq<SeenView> {
    seen.filter(|s: SeenView| !s.guessed)
}

/// A function as far as it gives exact calls.
spec fn exactly(pick: spec_fn(CallView) -> Option<SeenView>) -> spec_fn(CallView) -> Option<SeenView> {
    |call: CallView|
        match pick(call) {
            Some(seen) => if seen.guessed {
                None
            } else {
                Some(seen)
            },
            None => None,
        }
}

proof fn lemma_exact_push(seen: Seq<SeenView>, item: SeenView)
    ensures
        exact(seen.push(item)) == if item.guessed {
            exact(seen)
        } else {
            exact(seen).push(item)
        },
{
    reveal(Seq::filter);
    assert(seen.push(item).drop_last() =~= seen);
}

proof fn lemma_exact_joins(a: Seq<SeenView>, b: Seq<SeenView>)
    ensures
        exact(a + b) == exact(a) + exact(b),
    decreases b.len(),
{
    if b.len() == 0 {
        assert(a + b =~= a);
        reveal(Seq::filter);
        assert(exact(a) + exact(b) =~= exact(a));
    } else {
        let shorter = b.drop_last();
        lemma_exact_joins(a, shorter);
        assert(a + b =~= (a + shorter).push(b.last()));
        assert(b =~= shorter.push(b.last()));
        lemma_exact_push(a + shorter, b.last());
        lemma_exact_push(shorter, b.last());
        if !b.last().guessed {
            assert((exact(a) + exact(shorter)).push(b.last()) =~= exact(a) + exact(shorter).push(b.last()));
        }
    }
}

proof fn lemma_exact_yielded(calls: Seq<CallView>, pick: spec_fn(CallView) -> Option<SeenView>, other: spec_fn(CallView) -> Option<SeenView>)
    requires
        forall|call: CallView| #[trigger] other(call) == exactly(pick)(call),
    ensures
        exact(yielded(calls, pick)) == yielded(calls, other),
    decreases calls.len(),
{
    if calls.len() == 0 {
        reveal(Seq::filter);
        assert(exact(yielded(calls, pick)) =~= yielded(calls, other));
    } else {
        let shorter = calls.drop_last();
        lemma_exact_yielded(shorter, pick, other);
        assert(other(calls.last()) == exactly(pick)(calls.last()));
        match pick(calls.last()) {
            Some(item) => {
                lemma_exact_push(yielded(shorter, pick), item);
            },
            None => {},
        }
    }
}

proof fn lemma_exact_joined(parts: spec_fn(int) -> Seq<SeenView>, others: spec_fn(int) -> Seq<SeenView>, n: int)
    requires
        forall|i: int| exact(#[trigger] parts(i)) == others(i),
    ensures
        exact(joined(parts, n)) == joined(others, n),
    decreases n,
{
    if n <= 0 {
        reveal(Seq::filter);
        assert(exact(joined(parts, n)) =~= joined(others, n));
    } else {
        lemma_exact_joined(parts, others, n - 1);
        lemma_exact_joins(joined(parts, n - 1), parts(n - 1));
        assert(exact(parts(n - 1)) == others(n - 1));
    }
}

proof fn lemma_exact_inward(scene: Scene, sure: Scene, side: Side)
    requires
        scene.guess,
        sure == (Scene { guess: false, ..scene }),
    ensures
        exact(inward_on(scene, side)) == inward_on(sure, side),
{
    let importers = listed(index_on(scene.revisions, side).importers_of(scene.path));
    assert forall|k: int| exact(#[trigger] importer_part(scene, side)(k)) == importer_part(sure, side)(k) by {
        let importer = importers[k];
        let callers = callers_in(scene.files, scene.revisions, importer, side);
        assert forall|c: int| exact(#[trigger] caller_part(scene, side, importer)(c)) == caller_part(sure, side, importer)(c) by {
            let caller = callers[c];
            lemma_exact_yielded(
                caller.calls,
                inward_call(scene, side, importer, caller.range),
                inward_call(sure, side, importer, caller.range),
            );
        }
        lemma_exact_joined(caller_part(scene, side, importer), caller_part(sure, side, importer), callers.len() as int);
    }
    lemma_exact_joined(importer_part(scene, side), importer_part(sure, side), importers.len() as int);
}

/// To ask for guesses changes nothing about the calls that resolve exactly:
/// a call that the exact rules resolve is never also a guess.
pub proof fn lemma_guesses_change_no_exact_call(scene: Scene)
    requires
        scene.guess,
    ensures
        exact(all_seen(scene)) == all_seen(Scene { guess: false, ..scene }),
{
    let sure = Scene { guess: false, ..scene };
    let n = scene.file.functions.len() as int;
    assert forall|i: int| exact(#[trigger] local_part(scene)(i)) == local_part(sure)(i) by {
        let function = scene.file.functions[i];
        let base = written_calls(function, Side::Base);
        let target = written_calls(function, Side::Target);
        let pick_base = local_call(scene.file, scene.path, Side::Base, i);
        let pick_target = local_call(scene.file, scene.path, Side::Target, i);
        lemma_exact_yielded(base, pick_base, pick_base);
        lemma_exact_yielded(target, pick_target, pick_target);
        lemma_exact_joins(yielded(base, pick_base), yielded(target, pick_target));
    }
    assert forall|i: int| exact(#[trigger] outward_part(scene)(i)) == outward_part(sure)(i) by {
        let function = scene.file.functions[i];
        let base = written_calls(function, Side::Base);
        let target = written_calls(function, Side::Target);
        lemma_exact_yielded(base, outward_call(scene, Side::Base, i), outward_call(sure, Side::Base, i));
        lemma_exact_yielded(target, outward_call(scene, Side::Target, i), outward_call(sure, Side::Target, i));
        lemma_exact_joins(yielded(base, outward_call(scene, Side::Base, i)), yielded(target, outward_call(scene, Side::Target, i)));
    }
    let local = joined(local_part(scene), n);
    let outward = joined(outward_part(scene), n);
    lemma_exact_joined(local_part(scene), local_part(sure), n);
    lemma_exact_joined(outward_part(scene), outward_part(sure), n);
    lemma_exact_inward(scene, sure, Side::Base);
    lemma_exact_inward(scene, sure, Side::Target);
    lemma_exact_joins(local, outward);
    lemma_exact_joins(local + outward, inward_on(scene, Side::Base));
    lemma_exact_joins(local + outward + inward_on(scene, Side::Base), inward_on(scene, Side::Target));
}

proof fn lemma_joined_member<T>(parts: spec_fn(int) -> Seq<T>, n: int, x: T)
    requires
        joined(parts, n).contains(x),
    ensures
        exists|i: int| 0 <= i < n && #[trigger] parts(i).contains(x),
    decreases n,
{
    if n > 0 {
        let head = joined(parts, n - 1);
        let tail = parts(n - 1);
        let k = choose|k: int| 0 <= k < (head + tail).len() && (head + tail)[k] == x;
        if k < head.len() {
            assert(head[k] == x);
            lemma_joined_member(parts, n - 1, x);
        } else {
            assert(tail[k - head.len()] == x);
            assert(parts(n - 1).contains(x));
        }
    }
}

proof fn lemma_yielded_member<A, B>(items: Seq<A>, pick: spec_fn(A) -> Option<B>, x: B)
    requires
        yielded(items, pick).contains(x),
    ensures
        exists|i: int| 0 <= i < items.len() && pick(#[trigger] items[i]) == Some(x),
    decreases items.len(),
{
    if items.len() > 0 {
        let shorter = items.drop_last();
        let before = yielded(shorter, pick);
        if before.contains(x) {
            lemma_yielded_member(shorter, pick, x);
            let i = choose|i: int| 0 <= i < shorter.len() && pick(#[trigger] shorter[i]) == Some(x);
            assert(items[i] == shorter[i]);
        } else {
            let all = yielded(items, pick);
            let k = choose|k: int| 0 <= k < all.len() && all[k] == x;
            if k < before.len() {
                assert(before[k] == x);
            }
            assert(pick(items[items.len() - 1]) == Some(x));
        }
    }
}

/// A call into the root's file is written in a file that imports it directly:
/// no other file is read for callers.
pub proof fn lemma_callers_import_directly(scene: Scene, side: Side, call: SeenView)
    requires
        inward_on(scene, side).contains(call),
        exists|keys: Seq<Seq<char>>| #[trigger] ascending(keys) && keys.to_set() == index_on(scene.revisions, side).importers_of(scene.path),
    ensures
        index_on(scene.revisions, side).edges.contains((call.site, scene.path)),
        call.side == side,
{
    let importers = index_on(scene.revisions, side).importers_of(scene.path);
    let keys = choose|keys: Seq<Seq<char>>| #[trigger] ascending(keys) && keys.to_set() == importers;
    crate::collections::lemma_listed(keys);
    let parts = importer_part(scene, side);
    lemma_joined_member(parts, keys.len() as int, call);
    let k = choose|k: int| 0 <= k < keys.len() && #[trigger] parts(k).contains(call);
    let importer = keys[k];
    let callers = callers_in(scene.files, scene.revisions, importer, side);
    let own = caller_part(scene, side, importer);
    lemma_joined_member(own, callers.len() as int, call);
    let c = choose|c: int| 0 <= c < callers.len() && #[trigger] own(c).contains(call);
    lemma_yielded_member(callers[c].calls, inward_call(scene, side, importer, callers[c].range), call);
    assert(keys.contains(importer));
    assert(importers.contains(importer));
}

} // verus!
