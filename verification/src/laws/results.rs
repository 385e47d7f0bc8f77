//! What an analysis reports.

use vstd::prelude::*;

use crate::analysis::{without_repeats, FileFunctionsView, FunctionChangeStatus, FunctionChangeView, FunctionMappingDiagnosticCode, MappingDiagnosticView};
use crate::application::{
    analysis_summary, binary_file, counted, counted_files, file_diagnostics, file_result, file_results, function_result, function_total, gathered,
    identity_order, parsed_bytes, reported, supported_count, ByteBudget,
};
use crate::collections::{arranged, lemma_arranged_keeps};
use crate::languages::{DiagnosticSeverity, Language};
use crate::laws::counting::{how_many, lemma_how_many_same, sum};
use crate::laws::listing::lemma_sum_same;
use crate::laws::totals::grows;
use crate::metrics::FunctionMetrics;
use crate::order::{by_rank, lemma_same_multiset};
use crate::output::{
    diagnostic_line, diagnostic_lines, file_lines, file_status_word, function_line, function_lines, language_word, shown_metrics, shown_path,
};
use crate::result::{diagnostic_order, diagnostic_rank, DiagnosticCode, DiagnosticCounts, DiagnosticView, FileView, FunctionView};
use crate::text::{decimal, Rank};
use crate::{BlobView, ChangeSummary, FileChangeView, FileStatus};

verus! {

/// Outcomes come together where all are good, each at its place, and else fail
/// with the first that is not.
pub proof fn lemma_outcomes_come_together<T, E>(outcomes: Seq<Result<T, E>>, k: int)
    ensures
        gathered(outcomes) is Ok <==> forall|i: int| 0 <= i < outcomes.len() ==> #[trigger] outcomes[i] is Ok,
        gathered(outcomes) matches Ok(values) ==> values.len() == outcomes.len() && forall|i: int|
            0 <= i < outcomes.len() ==> outcomes[i] == Ok::<T, E>(#[trigger] values[i]),
        0 <= k < outcomes.len() && outcomes[k] is Err && (forall|i: int| 0 <= i < k ==> #[trigger] outcomes[i] is Ok) ==> gathered(outcomes) == Err::<
            Seq<T>,
            E,
        >(outcomes[k]->Err_0),
    decreases outcomes.len(),
{
    let n = outcomes.len() as int;
    if n > 0 {
        let fewer = outcomes.drop_last();
        lemma_outcomes_come_together(fewer, k);
        assert(forall|i: int| 0 <= i < n - 1 ==> #[trigger] fewer[i] == outcomes[i]);
        assert(outcomes[n - 1] == outcomes.last());
        if gathered(fewer) is Ok {
            assert forall|i: int| 0 <= i < n - 1 implies #[trigger] outcomes[i] is Ok by {
                assert(fewer[i] is Ok);
            }
        } else {
            let i = choose|i: int| 0 <= i < fewer.len() && !(#[trigger] fewer[i] is Ok);
            assert(!(outcomes[i] is Ok));
        }
        if 0 <= k < n && outcomes[k] is Err && (forall|i: int| 0 <= i < k ==> #[trigger] outcomes[i] is Ok) {
            if k < n - 1 {
                assert(fewer[k] == outcomes[k]);
            } else {
                assert forall|i: int| 0 <= i < fewer.len() implies #[trigger] fewer[i] is Ok by {
                    assert(outcomes[i] is Ok);
                }
            }
        }
    }
}

/// A diagnostic of a mapping is reported under the code that stands for it,
/// with its file and the function it names.
pub proof fn lemma_diagnostic_is_reported(d: MappingDiagnosticView, path: Option<Seq<char>>)
    ensures
        ({
            let out = reported(d, path);
            &&& out.severity == d.severity
            &&& out.message == d.message
            &&& out.range == d.range
            &&& out.path == path
            &&& d.qualified_name matches Some(name) ==> out.related_entity_ids == seq![name]
            &&& d.qualified_name is None ==> out.related_entity_ids.len() == 0
            &&& out.code == match d.code {
                FunctionMappingDiagnosticCode::AmbiguousFunctionMatch => DiagnosticCode::AmbiguousFunctionMatch,
                FunctionMappingDiagnosticCode::UnsupportedLanguage => DiagnosticCode::UnsupportedLanguage,
                FunctionMappingDiagnosticCode::MalformedSource => DiagnosticCode::MalformedSource,
                FunctionMappingDiagnosticCode::ParseError => DiagnosticCode::ParseError,
                FunctionMappingDiagnosticCode::InvalidUtf8 => DiagnosticCode::InvalidUtf8,
                FunctionMappingDiagnosticCode::OversizedFile => DiagnosticCode::OversizedFile,
                FunctionMappingDiagnosticCode::BlobUnavailable => DiagnosticCode::MissingBlob,
            }
        }),
        binary_file(path).code == DiagnosticCode::BinaryFile,
        binary_file(path).severity == DiagnosticSeverity::Info,
        binary_file(path).path == path,
{
}

proof fn lemma_without_repeats<T>(items: Seq<T>, x: T)
    ensures
        without_repeats(items).contains(x) <==> items.contains(x),
    decreases items.len(),
{
    let n = items.len() as int;
    if n > 0 {
        let fewer = items.drop_last();
        lemma_without_repeats(fewer, x);
        assert(items =~= fewer.push(items.last()));
        crate::collections::lemma_push_contains(fewer, items.last());
        crate::collections::lemma_push_contains(without_repeats(fewer), items.last());
        assert(items.contains(x) <==> fewer.contains(x) || x == items.last());
        if n > 1 && items[n - 2] == items.last() {
            assert(fewer[n - 2] == items.last());
        }
    }
}

proof fn lemma_arranged_contains<T>(items: Seq<T>, in_order: spec_fn(T, T) -> bool, x: T)
    ensures
        arranged(items, in_order).contains(x) <==> items.contains(x),
{
    lemma_arranged_keeps(items, in_order);
    let out = arranged(items, in_order);
    lemma_same_multiset(out, items);
    assert(out.to_set().contains(x) <==> items.to_set().contains(x));
}

/// A file reports every diagnostic of its mapping, and that it is binary where
/// it is, and nothing else.
pub proof fn lemma_file_reports(file: FileChangeView, mapped: FileFunctionsView, d: DiagnosticView)
    ensures
        ({
            let path = if file.target_path is Some {
                file.target_path
            } else {
                file.base_path
            };
            file_diagnostics(file, mapped).contains(d) <==> (exists|i: int|
                0 <= i < mapped.diagnostics.len() && d == reported(#[trigger] mapped.diagnostics[i], path)) || (file.status == FileStatus::Binary && d
                == binary_file(path))
        }),
{
    let path = crate::git::change_key(file);
    let passed = mapped.diagnostics.map_values(|m: MappingDiagnosticView| reported(m, path));
    let binary = if file.status == FileStatus::Binary {
        seq![binary_file(path)]
    } else {
        Seq::empty()
    };
    let all = passed + binary;
    let sorted = arranged(all, by_rank(identity_order()));
    lemma_arranged_contains(all, by_rank(identity_order()), d);
    lemma_without_repeats(sorted, d);
    lemma_arranged_contains(without_repeats(sorted), by_rank(diagnostic_order()), d);
    if all.contains(d) {
        let k = choose|k: int| 0 <= k < all.len() && all[k] == d;
        if k < passed.len() {
            assert(d == reported(mapped.diagnostics[k], path));
        } else {
            assert(binary[k - passed.len()] == d);
        }
    }
    if exists|i: int| 0 <= i < mapped.diagnostics.len() && d == reported(#[trigger] mapped.diagnostics[i], path) {
        let i = choose|i: int| 0 <= i < mapped.diagnostics.len() && d == reported(#[trigger] mapped.diagnostics[i], path);
        assert(all[i] == d);
    }
    if file.status == FileStatus::Binary && d == binary_file(path) {
        assert(all[passed.len() as int] == d);
    }
}

/// A function is reported as it changed, under its number.
pub proof fn lemma_function_is_reported(change: FunctionChangeView, number: nat)
    requires
        number <= u64::MAX,
    ensures
        ({
            let out = function_result(change, number);
            &&& out.id == "function-"@ + decimal(number)
            &&& out.status == change.status && out.kind == change.kind && out.qualified_name == change.qualified_name
            &&& out.base_range == change.base_range && out.target_range == change.target_range
            &&& out.metrics_before == change.metrics_before && out.metrics_after == change.metrics_after
            &&& out.calls_before == change.calls_before && out.calls_after == change.calls_after
            &&& out.churn == change.churn && out.match_confidence == change.match_confidence
        }),
{
}

proof fn lemma_total(mapped: Seq<FileFunctionsView>)
    ensures
        function_total(mapped) == sum(mapped.len() as int, |i: int| mapped[i].functions.len()),
    decreases mapped.len(),
{
    let n = mapped.len() as int;
    if n > 0 {
        let fewer = mapped.drop_last();
        lemma_total(fewer);
        lemma_sum_same(n - 1, |i: int| mapped[i].functions.len(), |i: int| fewer[i].functions.len());
    }
}

/// Files are reported at their places, and their functions are numbered from
/// one on over all files.
pub proof fn lemma_files_are_reported(files: Seq<FileChangeView>, mapped: Seq<FileFunctionsView>, k: int)
    requires
        files.len() == mapped.len(),
        0 <= k < files.len(),
    ensures
        file_results(files, mapped).len() == files.len(),
        file_results(files, mapped)[k] == file_result(files[k], mapped[k], 1 + sum(k, |i: int| mapped[i].functions.len())),
    decreases files.len(),
{
    let n = files.len() as int;
    let fewer = files.drop_last();
    let rest = mapped.drop_last();
    if k < n - 1 {
        lemma_files_are_reported(fewer, rest, k);
        assert(fewer[k] == files[k] && rest[k] == mapped[k]);
        lemma_sum_same(k, |i: int| mapped[i].functions.len(), |i: int| rest[i].functions.len());
    } else {
        if n > 1 {
            lemma_files_are_reported(fewer, rest, 0);
        } else {
            assert(file_results(fewer, rest) =~= Seq::empty());
        }
        assert(file_results(fewer, rest).len() == k);
        assert(files.last() == files[k] && mapped.last() == mapped[k]);
        lemma_total(rest);
        lemma_sum_same(k, |i: int| mapped[i].functions.len(), |i: int| rest[i].functions.len());
    }
}

/// A file is reported with its paths, its status, its lines and its exports.
pub proof fn lemma_file_is_reported(file: FileChangeView, mapped: FileFunctionsView, first: nat, i: int)
    ensures
        ({
            let out = file_result(file, mapped, first);
            &&& out.base_path == file.base_path && out.target_path == file.target_path
            &&& out.status == file.status
            &&& out.is_binary <==> file.status == FileStatus::Binary
            &&& out.added_lines == file.added_lines && out.removed_lines == file.removed_lines
            &&& out.hunks == file.hunks
            &&& out.exports_added == mapped.exports_added && out.exports_removed == mapped.exports_removed
            &&& out.functions.len() == mapped.functions.len()
            &&& 0 <= i < out.functions.len() ==> out.functions[i] == function_result(mapped.functions[i], (first + i) as nat)
            &&& file.target_path matches Some(path) ==> out.language == crate::languages::language_of(path)
            &&& file.target_path is None ==> (file.base_path matches Some(path) ==> out.language == crate::languages::language_of(path))
        }),
{
}

/// Whether the language of a file is one that is analysed, and it is text.
pub open spec fn is_read(file: FileChangeView) -> bool {
    let path = if file.target_path is Some {
        file.target_path
    } else {
        file.base_path
    };
    path is Some && crate::languages::language_of(path->0) is Some && file.status != FileStatus::Binary
}

proof fn lemma_supported(files: Seq<FileChangeView>)
    ensures
        supported_count(files) == how_many(files.len() as int, |i: int| is_read(files[i])),
        supported_count(files) <= files.len(),
    decreases files.len(),
{
    let n = files.len() as int;
    if n > 0 {
        let fewer = files.drop_last();
        lemma_supported(fewer);
        lemma_how_many_same(n - 1, |i: int| is_read(files[i]), |i: int| is_read(fewer[i]));
    }
}

/// A summary repeats the totals, and counts the files that are read and those
/// that are not.
pub proof fn lemma_summary_counts_files(totals: ChangeSummary, files: Seq<FileChangeView>, results: Seq<FileView>)
    requires
        files.len() <= u32::MAX,
    ensures
        ({
            let out = analysis_summary(totals, files, results);
            &&& out.changed_files == totals.changed_files
            &&& out.added_lines == totals.added_lines
            &&& out.removed_lines == totals.removed_lines
            &&& out.supported_files == how_many(files.len() as int, |i: int| is_read(files[i]))
            &&& out.supported_files + out.unsupported_files == files.len()
        }),
{
    lemma_supported(files);
}

/// The condition of a place that a diagnostic of a severity stands there.
pub open spec fn has_severity(diagnostics: Seq<DiagnosticView>, severity: DiagnosticSeverity) -> spec_fn(int) -> bool {
    |i: int| diagnostics[i].severity == severity
}

proof fn lemma_counted(counts: DiagnosticCounts, diagnostics: Seq<DiagnosticView>)
    ensures
        ({
            let all = counted(counts, diagnostics);
            let n = diagnostics.len() as int;
            &&& grows(counts.info, how_many(n, has_severity(diagnostics, DiagnosticSeverity::Info)), all.info)
            &&& grows(counts.warning, how_many(n, has_severity(diagnostics, DiagnosticSeverity::Warning)), all.warning)
            &&& grows(counts.error, how_many(n, has_severity(diagnostics, DiagnosticSeverity::Error)), all.error)
        }),
    decreases diagnostics.len(),
{
    let n = diagnostics.len() as int;
    if n > 0 {
        let fewer = diagnostics.drop_last();
        lemma_counted(counts, fewer);
        lemma_how_many_same(n - 1, has_severity(diagnostics, DiagnosticSeverity::Info), has_severity(fewer, DiagnosticSeverity::Info));
        lemma_how_many_same(n - 1, has_severity(diagnostics, DiagnosticSeverity::Warning), has_severity(fewer, DiagnosticSeverity::Warning));
        lemma_how_many_same(n - 1, has_severity(diagnostics, DiagnosticSeverity::Error), has_severity(fewer, DiagnosticSeverity::Error));
    }
}

/// The diagnostics of a severity in a file.
pub open spec fn in_file(files: Seq<FileView>, severity: DiagnosticSeverity) -> spec_fn(int) -> nat {
    |i: int| how_many(files[i].diagnostics.len() as int, has_severity(files[i].diagnostics, severity))
}

/// A summary counts the diagnostics of every file by their severity.
pub proof fn lemma_summary_counts_diagnostics(counts: DiagnosticCounts, files: Seq<FileView>)
    ensures
        ({
            let all = counted_files(counts, files);
            let n = files.len() as int;
            &&& grows(counts.info, sum(n, in_file(files, DiagnosticSeverity::Info)), all.info)
            &&& grows(counts.warning, sum(n, in_file(files, DiagnosticSeverity::Warning)), all.warning)
            &&& grows(counts.error, sum(n, in_file(files, DiagnosticSeverity::Error)), all.error)
        }),
    decreases files.len(),
{
    let n = files.len() as int;
    if n > 0 {
        let fewer = files.drop_last();
        lemma_summary_counts_diagnostics(counts, fewer);
        lemma_counted(counted_files(counts, fewer), files.last().diagnostics);
        lemma_sum_same(n - 1, in_file(files, DiagnosticSeverity::Info), in_file(fewer, DiagnosticSeverity::Info));
        lemma_sum_same(n - 1, in_file(files, DiagnosticSeverity::Warning), in_file(fewer, DiagnosticSeverity::Warning));
        lemma_sum_same(n - 1, in_file(files, DiagnosticSeverity::Error), in_file(fewer, DiagnosticSeverity::Error));
    }
}

/// Errors come before warnings, and warnings before what is only told; of two
/// that agree in all else, the one with a range that starts first comes first.
pub proof fn lemma_diagnostics_come_by_severity(a: DiagnosticView, b: DiagnosticView)
    ensures
        a.severity == DiagnosticSeverity::Error && b.severity != DiagnosticSeverity::Error ==> diagnostic_rank(a, b) == Rank::Before,
        a.severity == DiagnosticSeverity::Warning && b.severity == DiagnosticSeverity::Info ==> diagnostic_rank(a, b) == Rank::Before,
        a.severity == b.severity && a.code == b.code && a.path == b.path && a.range is Some && b.range is Some && a.range->0.start_line
            < b.range->0.start_line ==> diagnostic_rank(a, b) == Rank::Before,
        diagnostic_rank(a, b) == Rank::Same ==> a.severity == b.severity && a.code == b.code && a.path == b.path && a.message == b.message,
{
}

/// A source counts against the budget where it is read: up to five mebibytes,
/// and with content.
pub proof fn lemma_bytes_that_count(source: Seq<u8>)
    ensures
        source.len() <= 5242880 ==> parsed_bytes(BlobView::Available(source)) == source.len(),
        source.len() > 5242880 ==> parsed_bytes(BlobView::Available(source)) == 0,
        parsed_bytes(BlobView::Missing) == 0,
        parsed_bytes(BlobView::Binary) == 0,
        parsed_bytes(BlobView::NotApplicable) == 0,
{
}

/// A source is admitted where nothing is in flight, or where it fits into eight
/// mebibytes together with what is.
pub proof fn lemma_budget_admits(budget: ByteBudget, cost: usize)
    ensures
        budget.admits(cost) <==> budget.in_flight == 0 || budget.in_flight + cost <= 8388608,
{
}

/// A file that was renamed is shown with both paths, any other with the one it
/// has.
pub proof fn lemma_path_is_shown(a: Seq<char>, b: Seq<char>)
    ensures
        a != b ==> shown_path(Some(a), Some(b)) == a + " -> "@ + b,
        shown_path(Some(b), Some(b)) == b,
        shown_path(None, Some(b)) == b,
        shown_path(Some(a), None) == a,
        shown_path(None, None) == "<unknown>"@,
{
}

/// The words of a file.
pub proof fn lemma_file_words(status: FileStatus, language: Language)
    ensures
        file_status_word(status) == match status {
            FileStatus::Added => "added"@,
            FileStatus::Deleted => "deleted"@,
            FileStatus::Modified => "modified"@,
            FileStatus::Renamed => "renamed"@,
            FileStatus::Binary => "binary"@,
        },
        language_word(language) == match language {
            Language::TypeScript => "typescript"@,
            Language::Tsx => "tsx"@,
        },
{
}

/// A function is a line of the report: its change, its name, and its measures
/// before and after, a dash where it has none.
pub proof fn lemma_function_is_a_line(f: FunctionView, before: FunctionMetrics, after: FunctionMetrics)
    ensures
        f.status == FunctionChangeStatus::Modified && f.metrics_before == Some(before) && f.metrics_after == Some(after) ==> function_line(f) == "  "@
            + "modified"@ + " "@ + f.qualified_name + " ["@ + shown_metrics(Some(before)) + " -> "@ + shown_metrics(Some(after)) + "]\n"@,
        f.status == FunctionChangeStatus::Added && f.metrics_before is None && f.metrics_after == Some(after) ==> function_line(f) == "  "@ + "added"@
            + " "@ + f.qualified_name + " ["@ + "-"@ + " -> "@ + shown_metrics(Some(after)) + "]\n"@,
        f.status == FunctionChangeStatus::Removed && f.metrics_before == Some(before) && f.metrics_after is None ==> function_line(f) == "  "@
            + "removed"@ + " "@ + f.qualified_name + " ["@ + shown_metrics(Some(before)) + " -> "@ + "-"@ + "]\n"@,
        shown_metrics(Some(after)) == "loc "@ + decimal(after.physical_loc as nat) + "/"@ + decimal(after.source_loc as nat) + ", cyclo "@ + decimal(
            after.cyclomatic_complexity as nat,
        ) + ", cognitive "@ + decimal(after.cognitive_complexity as nat),
{
}

/// Functions are told one after the other.
pub proof fn lemma_function_lines_follow(first: Seq<FunctionView>, f: FunctionView)
    ensures
        function_lines(first.push(f)) == function_lines(first) + function_line(f),
        function_lines(Seq::empty()).len() == 0,
{
    assert(first.push(f).drop_last() =~= first);
}

/// Diagnostics are told one after the other, each on its line, by severity and
/// code.
pub proof fn lemma_diagnostic_lines_follow(first: Seq<DiagnosticView>, d: DiagnosticView, indent: Seq<char>)
    ensures
        diagnostic_lines(first.push(d), indent) == diagnostic_lines(first, indent) + diagnostic_line(d, indent),
        d.severity == DiagnosticSeverity::Error && d.code == DiagnosticCode::MissingBlob ==> diagnostic_line(d, indent) == indent + "error"@ + " "@
            + "missing_blob"@ + ": "@ + d.message + "\n"@,
        d.severity == DiagnosticSeverity::Warning && d.code == DiagnosticCode::ParseError ==> diagnostic_line(d, indent) == indent + "warning"@ + " "@
            + "parse_error"@ + ": "@ + d.message + "\n"@,
{
    assert(first.push(d).drop_last() =~= first);
}

/// A file is told by its change, its path and its lines, and then its functions
/// and its diagnostics follow.
pub proof fn lemma_file_is_told(f: FileView)
    ensures
        file_lines(f) == file_status_word(f.status) + " "@ + shown_path(f.base_path, f.target_path) + " (+"@ + decimal(f.added_lines as nat) + " -"@
            + decimal(f.removed_lines as nat) + ")\n"@ + function_lines(f.functions) + diagnostic_lines(f.diagnostics, "  "@),
{
}

} // verus!
