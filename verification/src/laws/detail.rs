//! What is told of one function, and which diagnostics are listed.

use vstd::prelude::*;

use crate::languages::{DiagnosticSeverity, SourceRange};
use crate::laws::words::{lemma_occurs_is_standing, stands_in};
use crate::order::{lemma_picked, picked};

use crate::query::detail::{
    detail_at, diagnostic_row, diagnostics_about, file_diagnostics, holds, hunk_reaches, offered, place_in, place_of, relates_to, spans,
    wanted_diagnostics,
};
use crate::query::rows::{identity, path_of};
use crate::result::{DiagnosticCode, DiagnosticView as Reported, FileView, FunctionView, ResultView};
use crate::DiffHunk;

verus! {

/// A hunk is shown with a function where one of its lines, or the line it
/// stands behind, is in the function or directly above it.
pub proof fn lemma_hunk_is_near(range: SourceRange, start: u32, count: u32)
    requires
        range.start_line <= range.end_line,
        start + count <= u32::MAX,
    ensures
        !spans(None, start, count),
        spans(Some(range), start, count) <==> exists|line: int|
            #![trigger range_has(range, line)]
            range_has(range, line) && start <= line && (line < start + count || line == start),
{
    if spans(Some(range), start, count) {
        let line = if start >= range.start_line - 1 {
            start as int
        } else {
            range.start_line - 1
        };
        assert(range_has(range, line));
    }
}

/// Whether a line is in a range, or directly above it.
pub open spec fn range_has(range: SourceRange, line: int) -> bool {
    range.start_line - 1 <= line <= range.end_line
}

/// The hunks told with a function are those of the file that are near it before
/// or after the change, each as it is written.
pub proof fn lemma_hunks_of_function(files: Seq<FileView>, file: int, at: int, index: Option<crate::imports::IndexView>, hunk: DiffHunk, i: int)
    requires
        0 <= file < files.len(),
        0 <= at < files[file].functions.len(),
    ensures
        ({
            let function = files[file].functions[at];
            let near = picked(files[file].hunks, hunk_reaches(function));
            let shown = detail_at(files, file, at, index).hunks;
            &&& near.contains(hunk) <==> files[file].hunks.contains(hunk) && (spans(function.base_range, hunk.base_start, hunk.base_count) || spans(
                function.target_range,
                hunk.target_start,
                hunk.target_count,
            ))
            &&& shown.len() == near.len()
            &&& 0 <= i < shown.len() ==> shown[i].base_start == near[i].base_start && shown[i].base_count == near[i].base_count && shown[i].target_start
                == near[i].target_start && shown[i].target_count == near[i].target_count
        }),
{
    let function = files[file].functions[at];
    lemma_picked(files[file].hunks, hunk_reaches(function));
}

/// The diagnostics told with a function are its own, and those of its file that
/// name it.
pub proof fn lemma_diagnostics_of_function(file: FileView, function: FunctionView, d: Reported)
    ensures
        diagnostics_about(file, function).contains(d) <==> function.diagnostics.contains(d) || (file.diagnostics.contains(d)
            && d.related_entity_ids.contains(function.qualified_name)),
{
    let named = picked(file.diagnostics, relates_to(function.qualified_name));
    lemma_picked(file.diagnostics, relates_to(function.qualified_name));
    lemma_joined(named, function.diagnostics, d);
}

proof fn lemma_joined<T>(a: Seq<T>, b: Seq<T>, x: T)
    ensures
        (a + b).contains(x) <==> a.contains(x) || b.contains(x),
{
    let all = a + b;
    if a.contains(x) {
        let i = choose|i: int| 0 <= i < a.len() && a[i] == x;
        assert(all[i] == x);
    }
    if b.contains(x) {
        let i = choose|i: int| 0 <= i < b.len() && b[i] == x;
        assert(all[a.len() + i] == x);
    }
    if all.contains(x) {
        let i = choose|i: int| 0 <= i < all.len() && all[i] == x;
        if i < a.len() {
            assert(a[i] == x);
        } else {
            assert(b[i - a.len()] == x);
        }
    }
}

/// A listing of diagnostics holds those of every file, and those of the whole,
/// where no file is asked for, and else those of the file alone.
pub proof fn lemma_diagnostics_listed(result: ResultView, path: Seq<char>, d: Reported)
    ensures
        wanted_diagnostics(result, None).contains(d) <==> result.diagnostics.contains(d) || exists|i: int|
            0 <= i < result.files.len() && (#[trigger] result.files[i]).diagnostics.contains(d),
        wanted_diagnostics(result, Some(path)).contains(d) <==> exists|i: int|
            0 <= i < result.files.len() && path_of(#[trigger] result.files[i]) == path && result.files[i].diagnostics.contains(d),
{
    lemma_file_diagnostics(result.files, None, d);
    lemma_file_diagnostics(result.files, Some(path), d);
    lemma_joined(file_diagnostics(result.files, None), result.diagnostics, d);
}

proof fn lemma_file_diagnostics(files: Seq<FileView>, path: Option<Seq<char>>, d: Reported)
    ensures
        file_diagnostics(files, path).contains(d) <==> exists|i: int|
            0 <= i < files.len() && (path is None || path_of(#[trigger] files[i]) == path->0) && files[i].diagnostics.contains(d),
    decreases files.len(),
{
    let n = files.len() as int;
    if n > 0 {
        let fewer = files.drop_last();
        lemma_file_diagnostics(fewer, path, d);
        lemma_joined(file_diagnostics(fewer, path), files.last().diagnostics, d);
        assert(files[n - 1] == files.last());
        if file_diagnostics(fewer, path).contains(d) {
            let i = choose|i: int|
                0 <= i < fewer.len() && (path is None || path_of(#[trigger] fewer[i]) == path->0) && fewer[i].diagnostics.contains(d);
            assert(files[i] == fewer[i]);
        }
        if exists|i: int| 0 <= i < files.len() && (path is None || path_of(#[trigger] files[i]) == path->0) && files[i].diagnostics.contains(d) {
            let i = choose|i: int|
                0 <= i < files.len() && (path is None || path_of(#[trigger] files[i]) == path->0) && files[i].diagnostics.contains(d);
            if i < n - 1 {
                assert(fewer[i] == files[i]);
            }
        }
    } else {
        assert(!file_diagnostics(files, path).contains(d));
    }
}

/// A diagnostic is told with the words for its code and its severity.
pub proof fn lemma_diagnostic_words(d: Reported)
    ensures
        diagnostic_row(d).message == d.message,
        diagnostic_row(d).path == d.path,
        diagnostic_row(d).related_entity_ids == d.related_entity_ids,
        diagnostic_row(d).severity == match d.severity {
            DiagnosticSeverity::Info => "info"@,
            DiagnosticSeverity::Warning => "warning"@,
            DiagnosticSeverity::Error => "error"@,
        },
        diagnostic_row(d).code == match d.code {
            DiagnosticCode::UnsupportedLanguage => "unsupported_language"@,
            DiagnosticCode::BinaryFile => "binary_file"@,
            DiagnosticCode::MalformedSource => "malformed_source"@,
            DiagnosticCode::ParseError => "parse_error"@,
            DiagnosticCode::InvalidUtf8 => "invalid_utf8"@,
            DiagnosticCode::OversizedFile => "oversized_file"@,
            DiagnosticCode::MissingBlob => "missing_blob"@,
            DiagnosticCode::GitError => "git_error"@,
            DiagnosticCode::AmbiguousFunctionMatch => "ambiguous_function_match"@,
            DiagnosticCode::MetricUnavailable => "metric_unavailable"@,
        },
{
}

/// An unknown function is answered with the first ten that hold the text asked
/// for, or with the first ten of all where none does.
pub proof fn lemma_close_functions_are_offered(ids: Seq<Seq<char>>, requested: Seq<char>, id: Seq<char>, i: int)
    ensures
        ({
            let close = picked(ids, holds(requested));
            let some = offered(ids, requested);
            &&& close.contains(id) <==> ids.contains(id) && stands_in(requested, id)
            &&& some.len() <= 10
            &&& 0 < close.len() <= 10 ==> some == close
            &&& close.len() > 10 ==> some.len() == 10 && (0 <= i < 10 ==> some[i] == close[i])
            &&& close.len() == 0 && ids.len() <= 10 ==> some == ids
            &&& close.len() == 0 && ids.len() > 10 ==> some.len() == 10 && (0 <= i < 10 ==> some[i] == ids[i])
        }),
{
    lemma_picked(ids, holds(requested));
    lemma_occurs_is_standing(requested, id);
}

/// A function is found at the first place in the first file that has its
/// identity.
pub proof fn lemma_function_is_found_first(files: Seq<FileView>, id: Seq<char>, from: int, file: int, at: int)
    requires
        0 <= from <= file < files.len(),
        0 <= at < files[file].functions.len(),
        identity(files[file], files[file].functions[at]) == id,
    ensures
        place_of(files, id, from) matches Some((f, a)) && f <= file && (f == file ==> a <= at) && 0 <= a < files[f].functions.len() && identity(
            files[f],
            files[f].functions[a],
        ) == id,
    decreases file - from,
{
    if from < file {
        lemma_place_in(files[from], id, 0, 0);
        if place_in(files[from], id, 0) is None {
            lemma_function_is_found_first(files, id, from + 1, file, at);
        }
    } else {
        lemma_place_in(files[file], id, 0, at);
    }
}

proof fn lemma_place_in(file: FileView, id: Seq<char>, from: int, at: int)
    requires
        0 <= from,
    ensures
        place_in(file, id, from) matches Some(a) ==> from <= a < file.functions.len() && identity(file, file.functions[a]) == id,
        from <= at < file.functions.len() && identity(file, file.functions[at]) == id ==> (place_in(file, id, from) matches Some(a) && a <= at),
    decreases file.functions.len() - from,
{
    if from < file.functions.len() && identity(file, file.functions[from]) != id {
        lemma_place_in(file, id, from + 1, at);
    }
}

} // verus!
