//! One function in full, and the diagnostics of an analysis.

use vstd::prelude::*;

use crate::collections::arranged;
use crate::imports::{ImportIndex, IndexView};
use crate::languages::SourceRange;
use crate::order::{by_rank, picked};
use crate::output::{diagnostic_code, diagnostic_code_word, severity, severity_word};
use crate::query::classify::classify;
use crate::query::files::{borrow_all, borrowed, borrowed_text, impact_row, impact_view, reported_impact, ImpactRow, ImpactView};
use crate::query::functions::{direct_importers, importer_count, index_view, row_order, selected, selected_in, FilterFacts};
use crate::query::page::window;
use crate::query::rows::{changed_function, display_path, function_id, identity, path_of, row_of, ChangedFunction, FunctionRow};
use crate::query::totals::DiagnosticCounts;
use crate::result::{
    diagnostic_views, file_views, function_views, AnalysisResult, Diagnostic, DiagnosticView as Reported, FileResult, FileView, FunctionResult, FunctionView,
    ResultView,
};
use crate::text::{contains_text, occurs_in, same_text, texts};
use crate::DiffHunk;

verus! {

/// Identities named before a list of them is cut short.
pub const SUGGESTIONS: usize = 10;

/// A hunk, as an answer reports it.
#[derive(Debug, Clone, Copy, PartialEq, Eq)]
pub struct HunkView {
    pub base_start: u32,
    pub base_count: u32,
    pub target_start: u32,
    pub target_count: u32,
}

/// A diagnostic, as an answer reports it.
#[derive(Debug, Clone)]
pub struct DiagnosticView<'a> {
    pub code: &'static str,
    pub severity: &'static str,
    pub message: &'a str,
    pub path: Option<&'a str>,
    pub related_entity_ids: Vec<&'a str>,
}

/// A reported diagnostic by what it holds.
#[verifier::ext_equal]
pub struct DiagnosticRow {
    pub code: Seq<char>,
    pub severity: Seq<char>,
    pub message: Seq<char>,
    pub path: Option<Seq<char>>,
    pub related_entity_ids: Seq<Seq<char>>,
}

impl<'a> View for DiagnosticView<'a> {
    type V = DiagnosticRow;

    open spec fn view(&self) -> DiagnosticRow {
        DiagnosticRow {
            code: self.code@,
            severity: self.severity@,
            message: self.message@,
            path: borrowed_text(self.path),
            related_entity_ids: borrowed(self.related_entity_ids@),
        }
    }
}

/// Reported diagnostics by what they hold.
pub open spec fn diagnostic_rows(all: Seq<DiagnosticView>) -> Seq<DiagnosticRow> {
    Seq::new(all.len(), |i: int| all[i]@)
}

/// How a diagnostic is reported.
pub open spec fn diagnostic_row(d: Reported) -> DiagnosticRow {
    DiagnosticRow {
        code: diagnostic_code_word(d.code),
        severity: severity_word(d.severity),
        message: d.message,
        path: d.path,
        related_entity_ids: d.related_entity_ids,
    }
}

/// How several diagnostics are reported.
pub open spec fn reported_rows(all: Seq<Reported>) -> Seq<DiagnosticRow> {
    Seq::new(all.len(), |i: int| diagnostic_row(all[i]))
}

impl<'a> DiagnosticView<'a> {
    /// Project a diagnostic into the response shape.
    pub fn of(diagnostic: &'a Diagnostic) -> (r: DiagnosticView<'a>)
        ensures
            r@ == diagnostic_row(diagnostic@),
    {
        DiagnosticView {
            code: diagnostic_code(diagnostic.code),
            severity: severity(diagnostic.severity),
            message: diagnostic.message.as_str(),
            path: match &diagnostic.path {
                Some(path) => Some(path.as_str()),
                None => None,
            },
            related_entity_ids: borrow_all(&diagnostic.related_entity_ids),
        }
    }
}

/// One function in full.
#[derive(Debug, Clone)]
pub struct FunctionDetail<'a> {
    pub function: ChangedFunction<'a>,
    /// Hunks of the containing file that touch this function.
    pub hunks: Vec<HunkView>,
    /// Tests likely to exercise this file, each saying how it was connected.
    pub impact: Option<ImpactView>,
    pub diagnostics: Vec<DiagnosticView<'a>>,
}

/// A function in full by what it holds.
#[verifier::ext_equal]
pub struct DetailFacts {
    pub function: FunctionRow,
    pub hunks: Seq<HunkView>,
    pub impact: Option<ImpactRow>,
    pub diagnostics: Seq<DiagnosticRow>,
}

impl<'a> View for FunctionDetail<'a> {
    type V = DetailFacts;

    open spec fn view(&self) -> DetailFacts {
        DetailFacts {
            function: self.function@,
            hunks: self.hunks@,
            impact: impact_row(self.impact),
            diagnostics: diagnostic_rows(self.diagnostics@),
        }
    }
}

/// A detail query named a function the analysis does not contain.
#[derive(Debug, Clone, PartialEq, Eq)]
pub struct UnknownFunction {
    pub function_id: String,
    /// Identities in this analysis that come closest to what was asked for.
    pub known_function_ids: Vec<String>,
}

/// Whether one side of a hunk reaches a range, or the line right before it.
pub open spec fn spans(range: Option<SourceRange>, start: u32, count: u32) -> bool {
    match range {
        Some(range) => {
            let end = if count > 1 {
                start + count - 1
            } else {
                start as int
            };
            let last = if end > u32::MAX {
                u32::MAX as int
            } else {
                end
            };
            start <= range.end_line && last + 1 >= range.start_line
        },
        None => false,
    }
}

/// Whether a hunk touches a function on either side.
pub open spec fn hunk_reaches(function: FunctionView) -> spec_fn(DiffHunk) -> bool {
    |hunk: DiffHunk| spans(function.base_range, hunk.base_start, hunk.base_count) || spans(function.target_range, hunk.target_start, hunk.target_count)
}

/// How a hunk is reported.
pub open spec fn hunk_row(hunk: DiffHunk) -> HunkView {
    HunkView { base_start: hunk.base_start, base_count: hunk.base_count, target_start: hunk.target_start, target_count: hunk.target_count }
}

/// How several hunks are reported.
pub open spec fn hunk_rows(hunks: Seq<DiffHunk>) -> Seq<HunkView> {
    Seq::new(hunks.len(), |i: int| hunk_row(hunks[i]))
}

fn side_spans(range: &Option<SourceRange>, start: u32, count: u32) -> (r: bool)
    ensures
        r == spans(*range, start, count),
{
    match range {
        Some(range) => {
            let end: u64 = if count > 1 {
                start as u64 + count as u64 - 1
            } else {
                start as u64
            };
            let last: u64 = if end > u32::MAX as u64 {
                u32::MAX as u64
            } else {
                end
            };
            start <= range.end_line && last + 1 >= range.start_line as u64
        },
        None => false,
    }
}

fn touching_hunks(file: &FileResult, function: &FunctionResult) -> (r: Vec<HunkView>)
    ensures
        r@ == hunk_rows(picked(file@.hunks, hunk_reaches(function@))),
{
    let ghost hunks = file@.hunks;
    let ghost keep = hunk_reaches(function@);
    let mut out: Vec<HunkView> = Vec::new();
    let mut i: usize = 0;
    assert(out@ =~= hunk_rows(picked(hunks.take(0), keep)));
    while i < file.hunks.len()
        invariant
            i <= file.hunks.len(),
            hunks == file.hunks@,
            keep == hunk_reaches(function@),
            out@ == hunk_rows(picked(hunks.take(i as int), keep)),
        decreases file.hunks.len() - i,
    {
        let hunk = &file.hunks[i];
        let ghost so_far = picked(hunks.take(i as int), keep);
        assert(hunks.take(i + 1).drop_last() =~= hunks.take(i as int));
        if side_spans(&function.base_range, hunk.base_start, hunk.base_count) || side_spans(&function.target_range, hunk.target_start, hunk.target_count) {
            out.push(
                HunkView {
                    base_start: hunk.base_start,
                    base_count: hunk.base_count,
                    target_start: hunk.target_start,
                    target_count: hunk.target_count,
                },
            );
            assert(hunk_rows(so_far.push(*hunk)) =~= hunk_rows(so_far).push(hunk_row(*hunk)));
        }
        i = i + 1;
    }
    assert(hunks.take(i as int) =~= hunks);
    out
}

/// The condition of being related to a name.
pub open spec fn relates_to(name: Seq<char>) -> spec_fn(Reported) -> bool {
    |d: Reported| d.related_entity_ids.contains(name)
}

fn names_entity(diagnostic: &Diagnostic, name: &str) -> (r: bool)
    ensures
        r == relates_to(name@)(diagnostic@),
{
    let ghost ids = diagnostic@.related_entity_ids;
    let mut i: usize = 0;
    while i < diagnostic.related_entity_ids.len()
        invariant
            i <= diagnostic.related_entity_ids.len(),
            ids == texts(diagnostic.related_entity_ids@),
            ids == diagnostic@.related_entity_ids,
            forall|k: int| 0 <= k < i ==> #[trigger] ids[k] != name@,
        decreases diagnostic.related_entity_ids.len() - i,
    {
        assert(ids[i as int] == diagnostic.related_entity_ids@[i as int]@);
        if same_text(diagnostic.related_entity_ids[i].as_str(), name) {
            assert(ids.contains(name@));
            return true;
        }
        i = i + 1;
    }
    assert(!ids.contains(name@));
    false
}

/// The diagnostics of a function: those of its file that name it, and its own.
pub open spec fn diagnostics_about(file: FileView, function: FunctionView) -> Seq<Reported> {
    picked(file.diagnostics, relates_to(function.qualified_name)) + function.diagnostics
}

fn function_diagnostics<'a>(file: &'a FileResult, function: &'a FunctionResult) -> (r: Vec<DiagnosticView<'a>>)
    ensures
        diagnostic_rows(r@) == reported_rows(diagnostics_about(file@, function@)),
{
    let ghost all = file@.diagnostics;
    let ghost keep = relates_to(function@.qualified_name);
    let mut out: Vec<DiagnosticView<'a>> = Vec::new();
    let mut i: usize = 0;
    assert(diagnostic_rows(out@) =~= reported_rows(picked(all.take(0), keep)));
    while i < file.diagnostics.len()
        invariant
            i <= file.diagnostics.len(),
            all == diagnostic_views(file.diagnostics@),
            keep == relates_to(function@.qualified_name),
            diagnostic_rows(out@) == reported_rows(picked(all.take(i as int), keep)),
        decreases file.diagnostics.len() - i,
    {
        let diagnostic = &file.diagnostics[i];
        let ghost so_far = picked(all.take(i as int), keep);
        let ghost rows = diagnostic_rows(out@);
        assert(all.take(i + 1).drop_last() =~= all.take(i as int));
        assert(all.take(i + 1).last() == diagnostic@);
        if names_entity(diagnostic, function.qualified_name.as_str()) {
            out.push(DiagnosticView::of(diagnostic));
            assert(diagnostic_rows(out@) =~= rows.push(diagnostic_row(diagnostic@)));
            assert(reported_rows(so_far.push(diagnostic@)) =~= reported_rows(so_far).push(diagnostic_row(diagnostic@)));
        }
        i = i + 1;
    }
    assert(all.take(i as int) =~= all);
    report_all(&mut out, &function.diagnostics);
    assert(diagnostic_rows(out@) =~= reported_rows(diagnostics_about(file@, function@)));
    out
}

/// Report diagnostics behind what a list holds already.
fn report_all<'a>(out: &mut Vec<DiagnosticView<'a>>, diagnostics: &'a Vec<Diagnostic>)
    ensures
        diagnostic_rows(final(out)@) == diagnostic_rows(old(out)@) + reported_rows(diagnostic_views(diagnostics@)),
{
    let ghost given = diagnostic_rows(out@);
    let ghost all = reported_rows(diagnostic_views(diagnostics@));
    let mut i: usize = 0;
    while i < diagnostics.len()
        invariant
            i <= diagnostics.len(),
            all == reported_rows(diagnostic_views(diagnostics@)),
            diagnostic_rows(out@) =~= given + all.take(i as int),
        decreases diagnostics.len() - i,
    {
        let ghost so_far = diagnostic_rows(out@);
        out.push(DiagnosticView::of(&diagnostics[i]));
        assert(diagnostic_rows(out@) =~= so_far.push(all[i as int]));
        i = i + 1;
    }
    assert(all.take(i as int) =~= all);
}

/// The place of the first function of a file, from a place on, that has an
/// identity.
pub open spec fn place_in(file: FileView, id: Seq<char>, from: int) -> Option<int>
    decreases file.functions.len() - from,
{
    if from < 0 || from >= file.functions.len() {
        None
    } else if identity(file, file.functions[from]) == id {
        Some(from)
    } else {
        place_in(file, id, from + 1)
    }
}

/// The place of the first function, by its file from a place on and its place
/// there, that has an identity.
pub open spec fn place_of(files: Seq<FileView>, id: Seq<char>, from: int) -> Option<(int, int)>
    decreases files.len() - from,
{
    if from < 0 || from >= files.len() {
        None
    } else {
        match place_in(files[from], id, 0) {
            Some(at) => Some((from, at)),
            None => place_of(files, id, from + 1),
        }
    }
}

pub(crate) fn find_in(file: &FileResult, id: &str) -> (r: Option<usize>)
    ensures
        match r {
            Some(at) => place_in(file@, id@, 0) == Some(at as int) && at < file.functions@.len(),
            None => place_in(file@, id@, 0) is None,
        },
{
    let ghost functions = file@.functions;
    let mut i: usize = 0;
    while i < file.functions.len()
        invariant
            i <= file.functions.len(),
            functions == function_views(file.functions@),
            functions == file@.functions,
            place_in(file@, id@, i as int) == place_in(file@, id@, 0),
        decreases file.functions.len() - i,
    {
        assert(functions[i as int] == file.functions@[i as int]@);
        if same_text(function_id(file, &file.functions[i]).as_str(), id) {
            return Some(i);
        }
        i = i + 1;
    }
    None
}

pub(crate) fn find_function(result: &AnalysisResult, id: &str) -> (r: Option<(usize, usize)>)
    ensures
        match r {
            Some((file, at)) => place_of(result@.files, id@, 0) == Some((file as int, at as int)) && file < result.files@.len() && at
                < result.files@[file as int].functions@.len(),
            None => place_of(result@.files, id@, 0) is None,
        },
{
    let ghost files = result@.files;
    let mut i: usize = 0;
    while i < result.files.len()
        invariant
            i <= result.files.len(),
            files == file_views(result.files@),
            files == result@.files,
            place_of(files, id@, i as int) == place_of(files, id@, 0),
        decreases result.files.len() - i,
    {
        assert(files[i as int] == result.files@[i as int]@);
        if let Some(at) = find_in(&result.files[i], id) {
            return Some((i, at));
        }
        i = i + 1;
    }
    None
}

/// The identities of a file's functions, in their order.
pub open spec fn ids_in(file: FileView) -> Seq<Seq<char>> {
    Seq::new(file.functions.len(), |i: int| identity(file, file.functions[i]))
}

/// The identities of an analysis, in the order of files and functions.
pub open spec fn all_ids(files: Seq<FileView>) -> Seq<Seq<char>>
    decreases files.len(),
{
    if files.len() == 0 {
        Seq::empty()
    } else {
        all_ids(files.drop_last()) + ids_in(files.last())
    }
}

/// The condition of holding a text.
pub open spec fn holds(text: Seq<char>) -> spec_fn(Seq<char>) -> bool {
    |id: Seq<char>| occurs_in(text, id)
}

/// The first few of a list.
pub open spec fn first_few(ids: Seq<Seq<char>>) -> Seq<Seq<char>> {
    if ids.len() <= SUGGESTIONS {
        ids
    } else {
        ids.take(SUGGESTIONS as int)
    }
}

/// The identities offered for one that does not resolve: the first few that
/// hold what was asked for, or the first few of all where none does.
pub open spec fn offered(ids: Seq<Seq<char>>, requested: Seq<char>) -> Seq<Seq<char>> {
    let matching = first_few(picked(ids, holds(requested)));
    if matching.len() == 0 {
        first_few(ids)
    } else {
        matching
    }
}

/// Add an identity to a list that holds the first few of others.
fn offer(list: &mut Vec<String>, id: &str, Ghost(so_far): Ghost<Seq<Seq<char>>>)
    requires
        texts(old(list)@) == first_few(so_far),
    ensures
        texts(final(list)@) == first_few(so_far.push(id@)),
{
    let ghost before = texts(list@);
    if list.len() < SUGGESTIONS {
        list.push(id.to_owned());
        assert(texts(list@) =~= before.push(id@));
    } else {
        assert(first_few(so_far.push(id@)) =~= first_few(so_far));
    }
}

/// Identities to offer when a requested one does not resolve.
///
/// What a caller most likely meant comes first: the identities that name the
/// same symbol or path. A caller that guessed blindly gets the first few
/// identities of the analysis instead, so it can see the shape of a real one.
pub fn closest_function_ids(result: &AnalysisResult, requested: &str) -> (r: Vec<String>)
    ensures
        texts(r@) == offered(all_ids(result@.files), requested@),
        r@.len() <= SUGGESTIONS,
{
    let ghost files = result@.files;
    let ghost keep = holds(requested@);
    let mut matching: Vec<String> = Vec::new();
    let mut leading: Vec<String> = Vec::new();
    let mut i: usize = 0;
    let ghost mut seen = Seq::<Seq<char>>::empty();
    assert(files.take(0) =~= Seq::<FileView>::empty());
    assert(texts(matching@) =~= Seq::<Seq<char>>::empty());
    assert(texts(leading@) =~= Seq::<Seq<char>>::empty());
    while i < result.files.len()
        invariant
            i <= result.files.len(),
            files == file_views(result.files@),
            keep == holds(requested@),
            seen == all_ids(files.take(i as int)),
            texts(matching@) == first_few(picked(seen, keep)),
            texts(leading@) == first_few(seen),
        decreases result.files.len() - i,
    {
        let file = &result.files[i];
        let ghost before = seen;
        let ghost ids = ids_in(file@);
        assert(files.take(i + 1).drop_last() =~= files.take(i as int));
        assert(files.take(i + 1).last() == file@);
        let mut j: usize = 0;
        assert(before + ids.take(0) =~= before);
        while j < file.functions.len()
            invariant
                j <= file.functions.len(),
                ids == ids_in(file@),
                file@.functions == function_views(file.functions@),
                keep == holds(requested@),
                seen == before + ids.take(j as int),
                texts(matching@) == first_few(picked(seen, keep)),
                texts(leading@) == first_few(seen),
            decreases file.functions.len() - j,
        {
            let id = function_id(file, &file.functions[j]);
            let ghost was = seen;
            proof {
                assert(id@ == ids[j as int]);
                seen = was.push(id@);
                assert(seen =~= before + ids.take(j + 1));
                assert(seen.drop_last() =~= was);
            }
            if contains_text(id.as_str(), requested) {
                offer(&mut matching, id.as_str(), Ghost(picked(was, keep)));
            }
            offer(&mut leading, id.as_str(), Ghost(was));
            j = j + 1;
        }
        assert(ids.take(j as int) =~= ids);
        i = i + 1;
    }
    assert(files.take(i as int) =~= files);
    if matching.len() == 0 {
        leading
    } else {
        matching
    }
}

/// What is reported of the function at a place.
pub open spec fn detail_at(files: Seq<FileView>, file: int, at: int, index: Option<IndexView>) -> DetailFacts {
    let path = path_of(files[file]);
    let function = files[file].functions[at];
    DetailFacts {
        function: row_of(files[file], function, importer_count(index, path)),
        hunks: hunk_rows(picked(files[file].hunks, hunk_reaches(function))),
        impact: reported_impact(index, path),
        diagnostics: reported_rows(diagnostics_about(files[file], function)),
    }
}

/// Describe one function in full.
///
/// Fails with identities this analysis does contain when the requested one is
/// not among them, so a caller that guessed can correct itself in one step.
pub fn get_function_change<'a>(result: &'a AnalysisResult, id: &str, index: Option<&ImportIndex>) -> (r: Result<FunctionDetail<'a>, UnknownFunction>)
    ensures
        match place_of(result@.files, id@, 0) {
            Some((file, at)) => r is Ok && r->Ok_0@ == detail_at(result@.files, file, at, index_view(index)),
            None => r is Err && r->Err_0.function_id@ == id@ && texts(r->Err_0.known_function_ids@) == offered(all_ids(result@.files), id@),
        },
        r is Ok <==> exists|file: int, at: int| #[trigger] stands_at(result@.files, id@, file, at),
        r matches Ok(detail) ==> detail@.function.function_id == id@,
        r matches Err(unknown) ==> unknown.known_function_ids@.len() <= SUGGESTIONS,
{
    proof {
        lemma_identity_resolves_or_is_answered(result@.files, id@);
    }
    let Some((at_file, at)) = find_function(result, id) else {
        return Err(UnknownFunction { function_id: id.to_owned(), known_function_ids: closest_function_ids(result, id) });
    };
    let file = &result.files[at_file];
    let function = &file.functions[at];
    assert(result@.files[at_file as int] == file@);
    assert(file@.functions[at as int] == function@);
    let path = display_path(file);
    let r = FunctionDetail {
        function: changed_function(classify(path), file, function, direct_importers(index, path)),
        hunks: touching_hunks(file, function),
        impact: impact_view(index, path),
        diagnostics: function_diagnostics(file, function),
    };
    assert(r@ =~= detail_at(result@.files, at_file as int, at as int, index_view(index)));
    Ok(r)
}

proof fn lemma_place_in(file: FileView, id: Seq<char>, from: int, at: int)
    requires
        0 <= from <= at < file.functions.len(),
        identity(file, file.functions[at]) == id,
    ensures
        place_in(file, id, from) is Some,
    decreases at - from,
{
    if identity(file, file.functions[from]) != id {
        lemma_place_in(file, id, from + 1, at);
    }
}

proof fn lemma_placed_in(file: FileView, id: Seq<char>, from: int)
    requires
        0 <= from,
        place_in(file, id, from) is Some,
    ensures
        from <= place_in(file, id, from)->0 < file.functions.len(),
        identity(file, file.functions[place_in(file, id, from)->0]) == id,
    decreases file.functions.len() - from,
{
    if from < file.functions.len() && identity(file, file.functions[from]) != id {
        lemma_placed_in(file, id, from + 1);
    }
}

proof fn lemma_place_of(files: Seq<FileView>, id: Seq<char>, from: int, file: int, at: int)
    requires
        0 <= from <= file < files.len(),
        0 <= at < files[file].functions.len(),
        identity(files[file], files[file].functions[at]) == id,
    ensures
        match place_of(files, id, from) {
            Some((f, a)) => from <= f < files.len() && 0 <= a < files[f].functions.len() && identity(files[f], files[f].functions[a]) == id,
            None => false,
        },
    decreases file - from,
{
    if place_in(files[from], id, 0) is Some {
        lemma_placed_in(files[from], id, 0);
    } else {
        if from == file {
            lemma_place_in(files[file], id, 0, at);
        }
        lemma_place_of(files, id, from + 1, file, at);
    }
}

/// Whether a function of some files stands at a place under an identity.
pub open spec fn stands_at(files: Seq<FileView>, id: Seq<char>, file: int, at: int) -> bool {
    0 <= file < files.len() && 0 <= at < files[file].functions.len() && identity(files[file], files[file].functions[at]) == id
}

proof fn lemma_placed_of(files: Seq<FileView>, id: Seq<char>, from: int)
    requires
        0 <= from,
        place_of(files, id, from) is Some,
    ensures
        place_of(files, id, from) matches Some((file, at)) && stands_at(files, id, file, at),
    decreases files.len() - from,
{
    if from < files.len() {
        if place_in(files[from], id, 0) is Some {
            lemma_placed_in(files[from], id, 0);
        } else {
            lemma_placed_of(files, id, from + 1);
        }
    }
}

/// The identities of an analysis are those that its functions stand under.
proof fn lemma_all_ids(files: Seq<FileView>, id: Seq<char>)
    ensures
        all_ids(files).contains(id) <==> exists|file: int, at: int| #[trigger] stands_at(files, id, file, at),
    decreases files.len(),
{
    if files.len() > 0 {
        let shorter = files.drop_last();
        let before = all_ids(shorter);
        let own = ids_in(files.last());
        let last = files.len() - 1;
        lemma_all_ids(shorter, id);
        if all_ids(files).contains(id) {
            let k = choose|k: int| 0 <= k < (before + own).len() && (before + own)[k] == id;
            if k < before.len() {
                assert(before[k] == id);
                let (file, at) = choose|file: int, at: int| #[trigger] stands_at(shorter, id, file, at);
                assert(stands_at(files, id, file, at));
            } else {
                assert(stands_at(files, id, last, k - before.len()));
            }
        }
        if exists|file: int, at: int| #[trigger] stands_at(files, id, file, at) {
            let (file, at) = choose|file: int, at: int| #[trigger] stands_at(files, id, file, at);
            if file < last {
                assert(stands_at(shorter, id, file, at));
                let k = choose|k: int| 0 <= k < before.len() && before[k] == id;
                assert((before + own)[k] == id);
            } else {
                assert((before + own)[before.len() + at] == own[at]);
            }
        }
    } else {
        assert forall|file: int, at: int| !#[trigger] stands_at(files, id, file, at) by {}
    }
}

/// An identity resolves exactly where a function of the analysis has it, and to
/// a function that has it. One that does not is answered with identities of the
/// analysis that resolve: with ten at most, and with none only where the
/// analysis has no function.
pub proof fn lemma_identity_resolves_or_is_answered(files: Seq<FileView>, id: Seq<char>)
    ensures
        place_of(files, id, 0) is Some <==> exists|file: int, at: int| #[trigger] stands_at(files, id, file, at),
        place_of(files, id, 0) matches Some((file, at)) ==> stands_at(files, id, file, at),
        offered(all_ids(files), id).len() <= 10,
        offered(all_ids(files), id).len() == 0 <==> forall|file: int|
            0 <= file < files.len() ==> (#[trigger] files[file]).functions.len() == 0,
        forall|known: Seq<char>| #[trigger]
            offered(all_ids(files), id).contains(known) ==> all_ids(files).contains(known) && place_of(files, known, 0) is Some,
{
    let ids = all_ids(files);
    let some = offered(ids, id);
    if exists|file: int, at: int| #[trigger] stands_at(files, id, file, at) {
        let (file, at) = choose|file: int, at: int| #[trigger] stands_at(files, id, file, at);
        lemma_place_of(files, id, 0, file, at);
    }
    if place_of(files, id, 0) is Some {
        lemma_placed_of(files, id, 0);
    }
    crate::order::lemma_picked(ids, holds(id));
    assert forall|known: Seq<char>| #[trigger] some.contains(known) implies ids.contains(known) && place_of(files, known, 0) is Some by {
        let k = choose|k: int| 0 <= k < some.len() && some[k] == known;
        let matching = picked(ids, holds(id));
        if first_few(matching).len() == 0 {
            assert(ids[k] == known);
        } else {
            assert(matching[k] == known);
            assert(matching.contains(known));
        }
        lemma_all_ids(files, known);
        let (file, at) = choose|file: int, at: int| #[trigger] stands_at(files, known, file, at);
        lemma_place_of(files, known, 0, file, at);
    }
    if some.len() == 0 {
        assert forall|file: int| 0 <= file < files.len() implies (#[trigger] files[file]).functions.len() == 0 by {
            if files[file].functions.len() > 0 {
                let known = identity(files[file], files[file].functions[0]);
                assert(stands_at(files, known, file, 0));
                lemma_all_ids(files, known);
                assert(ids.contains(known));
            }
        }
    } else {
        assert(some.contains(some[0]));
        lemma_all_ids(files, some[0]);
        let (file, at) = choose|file: int, at: int| #[trigger] stands_at(files, some[0], file, at);
        assert(files[file].functions.len() > 0);
    }
}

proof fn lemma_selected_in(filter: FilterFacts, file: FileView, functions: Seq<FunctionView>, importers: Option<u32>, row: FunctionRow)
    requires
        selected_in(filter, file, functions, importers).contains(row),
    ensures
        exists|at: int| 0 <= at < functions.len() && row == row_of(file, #[trigger] functions[at], importers),
    decreases functions.len(),
{
    if functions.len() > 0 {
        let shorter = functions.drop_last();
        let before = selected_in(filter, file, shorter, importers);
        let all = selected_in(filter, file, functions, importers);
        let k = choose|k: int| 0 <= k < all.len() && all[k] == row;
        if k < before.len() {
            assert(before[k] == row);
            lemma_selected_in(filter, file, shorter, importers, row);
            let at = choose|at: int| 0 <= at < shorter.len() && row == row_of(file, #[trigger] shorter[at], importers);
            assert(functions[at] == shorter[at]);
        } else {
            assert(row == row_of(file, functions[functions.len() - 1], importers));
        }
    }
}

proof fn lemma_selected(filter: FilterFacts, files: Seq<FileView>, index: Option<IndexView>, row: FunctionRow)
    requires
        selected(filter, files, index).contains(row),
    ensures
        exists|file: int, at: int| #[trigger] stands_at(files, row.function_id, file, at),
    decreases files.len(),
{
    if files.len() > 0 {
        let shorter = files.drop_last();
        let before = selected(filter, shorter, index);
        let all = selected(filter, files, index);
        let last = files.len() - 1;
        let k = choose|k: int| 0 <= k < all.len() && all[k] == row;
        if k < before.len() {
            assert(before[k] == row);
            lemma_selected(filter, shorter, index, row);
            let (file, at) = choose|file: int, at: int| #[trigger] stands_at(shorter, row.function_id, file, at);
            assert(stands_at(files, row.function_id, file, at));
        } else {
            let file = files.last();
            let importers = importer_count(index, path_of(file));
            let own = selected_in(filter, file, file.functions, importers);
            assert(own[k - before.len()] == row);
            lemma_selected_in(filter, file, file.functions, importers, row);
            let at = choose|at: int| 0 <= at < file.functions.len() && row == row_of(file, #[trigger] file.functions[at], importers);
            assert(stands_at(files, row.function_id, last, at));
        }
    }
}

/// Every row of a listing, whatever was asked for, is found again by its
/// identity, and what is found is reported under that identity.
pub proof fn lemma_listed_row_is_found(filter: FilterFacts, files: Seq<FileView>, index: Option<IndexView>, row: FunctionRow)
    requires
        arranged(selected(filter, files, index), by_rank(row_order())).contains(row),
    ensures
        match place_of(files, row.function_id, 0) {
            Some((file, at)) => stands_at(files, row.function_id, file, at) && detail_at(files, file, at, index).function.function_id
                == row.function_id,
            None => false,
        },
{
    let some = selected(filter, files, index);
    let all = arranged(some, by_rank(row_order()));
    crate::collections::lemma_arranged_keeps(some, by_rank(row_order()));
    crate::order::lemma_same_multiset(all, some);
    assert(all.to_set().contains(row));
    assert(some.to_set().contains(row));
    lemma_selected(filter, files, index, row);
    lemma_identity_resolves_or_is_answered(files, row.function_id);
}

/// Every row of a page of a listing is found again by its identity.
pub proof fn lemma_paged_row_is_found(filter: FilterFacts, files: Seq<FileView>, index: Option<IndexView>, offset: int, limit: int, row: FunctionRow)
    requires
        0 <= offset,
        0 <= limit,
        window(arranged(selected(filter, files, index), by_rank(row_order())), offset, limit).contains(row),
    ensures
        match place_of(files, row.function_id, 0) {
            Some((file, at)) => stands_at(files, row.function_id, file, at) && detail_at(files, file, at, index).function.function_id
                == row.function_id,
            None => false,
        },
{
    let all = arranged(selected(filter, files, index), by_rank(row_order()));
    let page = window(all, offset, limit);
    let k = choose|k: int| 0 <= k < page.len() && page[k] == row;
    assert(all[offset + k] == row);
    lemma_listed_row_is_found(filter, files, index, row);
}

/// The diagnostics of an analysis or one of its files.
#[derive(Debug, Clone)]
pub struct DiagnosticList<'a> {
    pub diagnostics: Vec<DiagnosticView<'a>>,
    pub counts: DiagnosticCounts,
}

/// The diagnostics of the files that are asked for, in the order of files.
pub open spec fn file_diagnostics(files: Seq<FileView>, path: Option<Seq<char>>) -> Seq<Reported>
    decreases files.len(),
{
    if files.len() == 0 {
        Seq::empty()
    } else {
        let before = file_diagnostics(files.drop_last(), path);
        if path is None || path_of(files.last()) == path->0 {
            before + files.last().diagnostics
        } else {
            before
        }
    }
}

/// The diagnostics that are asked for: those of a file, or of every file and
/// the analysis itself.
pub open spec fn wanted_diagnostics(result: ResultView, path: Option<Seq<char>>) -> Seq<Reported> {
    if path is None {
        file_diagnostics(result.files, path) + result.diagnostics
    } else {
        file_diagnostics(result.files, path)
    }
}

/// Report diagnostics, for the whole analysis or for one file.
#[must_use]
pub fn get_analysis_diagnostics<'a>(result: &'a AnalysisResult, file_path: Option<&str>) -> (r: DiagnosticList<'a>)
    ensures
        diagnostic_rows(r.diagnostics@) == reported_rows(wanted_diagnostics(result@, borrowed_text(file_path))),
        r.counts == crate::query::totals::counts_of(wanted_diagnostics(result@, borrowed_text(file_path))),
{
    let ghost files = result@.files;
    let ghost path = borrowed_text(file_path);
    let mut out: Vec<DiagnosticView<'a>> = Vec::new();
    let mut tally = crate::query::totals::SeverityTally::new();
    let mut i: usize = 0;
    assert(files.take(0) =~= Seq::<FileView>::empty());
    assert(diagnostic_rows(out@) =~= Seq::<DiagnosticRow>::empty());
    while i < result.files.len()
        invariant
            i <= result.files.len(),
            files == file_views(result.files@),
            path == borrowed_text(file_path),
            diagnostic_rows(out@) =~= reported_rows(file_diagnostics(files.take(i as int), path)),
            tally.counts(file_diagnostics(files.take(i as int), path)),
        decreases result.files.len() - i,
    {
        let file = &result.files[i];
        assert(files.take(i + 1).drop_last() =~= files.take(i as int));
        assert(files.take(i + 1).last() == file@);
        let wanted = match file_path {
            Some(wanted) => same_text(display_path(file), wanted),
            None => true,
        };
        if wanted {
            report_all(&mut out, &file.diagnostics);
            tally.add_all(&file.diagnostics, Ghost(file_diagnostics(files.take(i as int), path)));
        }
        i = i + 1;
    }
    assert(files.take(i as int) =~= files);
    if file_path.is_none() {
        report_all(&mut out, &result.diagnostics);
        tally.add_all(&result.diagnostics, Ghost(file_diagnostics(files, path)));
    }
    assert(diagnostic_rows(out@) =~= reported_rows(wanted_diagnostics(result@, path)));
    DiagnosticList { diagnostics: out, counts: tally.to_counts(Ghost(wanted_diagnostics(result@, path))) }
}

} // verus!
