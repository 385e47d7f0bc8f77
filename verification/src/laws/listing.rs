//! What a listing holds, how it is ordered and how it is cut into pages.

use vstd::prelude::*;

use crate::analysis::{FunctionChangeStatus, MatchConfidence};
use crate::imports::IndexView;
use crate::languages::{symbol, FunctionKind, SourceRange};
use crate::laws::words::lacks;
use crate::laws::counting::{how_many, lemma_how_many_same, sum};
use crate::query::classify::{classification, FileClassification};
use crate::query::files::{reported, admits, file_row, file_row_rank, selected_files, FileFilter, FileRow};
use crate::query::functions::{admits_file, admits_function, importer_count, row_rank, selected, selected_in, FilterFacts};

use crate::query::impact::{impact_of, FileImpactView, TestLink};
use crate::query::page::{applied_limit, window, window_facts, Page};
use crate::query::risk::{assessment_of, ExportStatus, RiskLevel};
use crate::query::rows::{delta_of, identity, leaf_of, path_of, row_of, signals_of, FunctionRow, LineRange, MetricDelta};
use crate::query::summary::{area_rank, AreaFacts};
use crate::result::{FileView, FunctionView};
use crate::text::{before, decimal, lemma_last_of, Rank};

verus! {

/// The change of a measure: what it was, what it is, and the second less the
/// first, where a side without the function counts nothing.
pub proof fn lemma_delta_is_difference(a: u32, b: u32)
    ensures
        delta_of(Some(a), Some(b)).delta == b - a,
        delta_of(None, Some(b)).delta == b,
        delta_of(Some(a), None).delta == -a,
        delta_of(None, None).delta == 0,
        delta_of(Some(a), Some(b)).before == Some(a),
        delta_of(Some(a), Some(b)).after == Some(b),
        delta_of(None, Some(b)).before is None,
        delta_of(Some(a), None).after is None,
{
}

/// Whether a delta tells a measure on both sides of a function.
pub open spec fn tells_both(delta: MetricDelta, before: u32, after: u32) -> bool {
    delta.before == Some(before) && delta.after == Some(after) && delta.delta == after - before
}

/// The row of a function that stands on both sides tells each measure by name,
/// its lines on each side, and its churn as it was counted.
pub proof fn lemma_row_tells_its_function(file: FileView, function: FunctionView, importers: Option<u32>)
    requires
        function.metrics_before is Some,
        function.metrics_after is Some,
        function.base_range is Some,
        function.target_range is Some,
    ensures
        ({
            let row = row_of(file, function, importers);
            let before = function.metrics_before->0;
            let after = function.metrics_after->0;
            &&& tells_both(row.metrics.physical_loc, before.physical_loc, after.physical_loc)
            &&& tells_both(row.metrics.source_loc, before.source_loc, after.source_loc)
            &&& tells_both(row.metrics.cyclomatic_complexity, before.cyclomatic_complexity, after.cyclomatic_complexity)
            &&& tells_both(row.metrics.cognitive_complexity, before.cognitive_complexity, after.cognitive_complexity)
            &&& row.range.before == Some(LineRange { start_line: function.base_range->0.start_line, end_line: function.base_range->0.end_line })
            &&& row.range.after == Some(LineRange { start_line: function.target_range->0.start_line, end_line: function.target_range->0.end_line })
            &&& row.change.changed_hunks == function.churn.changed_hunks
            &&& row.change.lines_added == function.churn.lines_added
            &&& row.change.lines_removed == function.churn.lines_removed
            &&& row.qualified_name == function.qualified_name
        }),
{
}

/// A row names the file by its target path where it has one, and by its base
/// path where it was deleted.
pub proof fn lemma_row_names_its_file(file: FileView, function: FunctionView, importers: Option<u32>, path: Seq<char>)
    ensures
        file.target_path == Some(path) ==> row_of(file, function, importers).file == path && file_row(file, None).path == path,
        file.target_path is None && file.base_path == Some(path) ==> row_of(file, function, importers).file == path && file_row(
            file,
            None,
        ).path == path,
        file.base_path is Some && file.target_path is Some && file.base_path != file.target_path ==> file_row(file, None).renamed_from == file.base_path,
        file.base_path == file.target_path ==> file_row(file, None).renamed_from is None,
{
}

/// A row words the kind, the status and the role, and gives the confidence of
/// the match in tenths.
pub proof fn lemma_row_words(file: FileView, function: FunctionView, importers: Option<u32>)
    ensures
        ({
            let row = row_of(file, function, importers);
            &&& row.kind == match function.kind {
                FunctionKind::Function => "function"@,
                FunctionKind::Method => "method"@,
                FunctionKind::Constructor => "constructor"@,
                FunctionKind::ArrowFunction => "arrow_function"@,
            }
            &&& row.symbol == (match function.kind {
                FunctionKind::Function => "fn"@,
                FunctionKind::Method => "method"@,
                FunctionKind::Constructor => "ctor"@,
                FunctionKind::ArrowFunction => "arrow"@,
            }) + ":"@ + function.qualified_name
            &&& row.status == match function.status {
                FunctionChangeStatus::Added => "added"@,
                FunctionChangeStatus::Removed => "removed"@,
                FunctionChangeStatus::Modified => "modified"@,
                FunctionChangeStatus::Unchanged => "unchanged"@,
            }
            &&& row.classification == match classification(row.file) {
                FileClassification::Lockfile => "lockfile"@,
                FileClassification::Vendored => "vendored"@,
                FileClassification::Generated => "generated"@,
                FileClassification::Test => "test"@,
                FileClassification::Config => "config"@,
                FileClassification::Docs => "docs"@,
                FileClassification::Source => "source"@,
            }
            &&& row.match_confidence == match function.match_confidence {
                MatchConfidence::Exact => 10u32,
                MatchConfidence::IdenticalBody => 9u32,
                MatchConfidence::Positional => 6u32,
            }
        }),
{
}

/// A function is judged by its own measures, its own churn, the export of its
/// last name and the importers of its file.
pub proof fn lemma_signals_are_of_the_function(file: FileView, function: FunctionView, importers: Option<u32>)
    ensures
        ({
            let signals = signals_of(file, function, importers);
            let row = row_of(file, function, importers);
            let name = leaf_of(function.qualified_name);
            &&& row.risk == assessment_of(signals).risk
            &&& row.review_priority == assessment_of(signals).review_priority
            &&& signals.status == function.status
            &&& signals.cyclomatic_delta == row.metrics.cyclomatic_complexity.delta
            &&& signals.cognitive_delta == row.metrics.cognitive_complexity.delta
            &&& function.metrics_after matches Some(m) ==> signals.cognitive_after == m.cognitive_complexity && signals.cyclomatic_after
                == m.cyclomatic_complexity
            &&& function.metrics_after is None ==> signals.cognitive_after == 0 && signals.cyclomatic_after == 0
            &&& function.churn.lines_added + function.churn.lines_removed <= u32::MAX ==> signals.churned_lines == function.churn.lines_added
                + function.churn.lines_removed
            &&& signals.match_confidence == function.match_confidence
            &&& signals.direct_importers == importers
            &&& signals.exported == ExportStatus::Removed <==> file.exports_removed.contains(name)
            &&& signals.exported == ExportStatus::Added <==> file.exports_added.contains(name) && !file.exports_removed.contains(name)
        }),
{
}

/// Whether a level is no lower than another.
pub open spec fn reaches(level: RiskLevel, least: RiskLevel) -> bool {
    match least {
        RiskLevel::Low => true,
        RiskLevel::Medium => level != RiskLevel::Low,
        RiskLevel::High => level == RiskLevel::High,
    }
}

/// Whether a request asks for a function of a file.
pub open spec fn asked_for(filter: FilterFacts, file: FileView, function: FunctionView, row: FunctionRow) -> bool {
    &&& filter.file matches Some(path) ==> path == path_of(file)
    &&& filter.classification matches Some(role) ==> role == classification(path_of(file))
    &&& filter.status matches Some(status) ==> function.status == status
    &&& function.status == FunctionChangeStatus::Unchanged ==> filter.include_unchanged
    &&& filter.minimum_risk matches Some(least) ==> reaches(row.risk.level, least)
    &&& filter.min_complexity_delta matches Some(least) ==> row.metrics.cognitive_complexity.delta >= least
        || row.metrics.cyclomatic_complexity.delta >= least
}

/// The condition of a place among the functions of a file that a request asks
/// for what stands there.
pub open spec fn asked_in(filter: FilterFacts, file: FileView, functions: Seq<FunctionView>, importers: Option<u32>) -> spec_fn(int) -> bool {
    |k: int| asked_for(filter, file, functions[k], row_of(file, functions[k], importers))
}

/// Whether a row is that of a function of a file that a request asks for.
#[verifier::opaque]
pub open spec fn is_row_of(filter: FilterFacts, file: FileView, importers: Option<u32>, r: FunctionRow, k: int) -> bool {
    &&& 0 <= k < file.functions.len()
    &&& asked_for(filter, file, file.functions[k], r)
    &&& r == row_of(file, file.functions[k], importers)
}

/// Whether a row is that of one of the first functions.
spec fn is_row_among(filter: FilterFacts, file: FileView, functions: Seq<FunctionView>, importers: Option<u32>, r: FunctionRow) -> bool {
    exists|k: int| 0 <= k < functions.len() && asked_for(filter, file, #[trigger] functions[k], r) && r == row_of(file, functions[k], importers)
}

#[verifier::rlimit(60)]
#[verifier::spinoff_prover]
proof fn lemma_selected_in(filter: FilterFacts, file: FileView, functions: Seq<FunctionView>, importers: Option<u32>)
    requires
        admits_file(filter, file),
    ensures
        selected_in(filter, file, functions, importers).len() == how_many(functions.len() as int, asked_in(filter, file, functions, importers)),
        forall|r: FunctionRow| #[trigger]
            selected_in(filter, file, functions, importers).contains(r) <==> is_row_among(filter, file, functions, importers, r),
    decreases functions.len(),
{
    let n = functions.len() as int;
    let all = selected_in(filter, file, functions, importers);
    if n == 0 {
        assert forall|r: FunctionRow| #[trigger] all.contains(r) implies false by {}
    } else {
        let fewer = functions.drop_last();
        let before = selected_in(filter, file, fewer, importers);
        lemma_selected_in(filter, file, fewer, importers);
        lemma_how_many_same(n - 1, asked_in(filter, file, functions, importers), asked_in(filter, file, fewer, importers));
        let row = row_of(file, functions.last(), importers);
        assert(admits_function(filter, functions.last(), row) == asked_for(filter, file, functions.last(), row));
        assert forall|r: FunctionRow| #[trigger] all.contains(r) <==> is_row_among(filter, file, functions, importers, r) by {
            if all.contains(r) {
                let at = choose|at: int| 0 <= at < all.len() && all[at] == r;
                if at < before.len() {
                    assert(before[at] == r);
                    assert(before.contains(r));
                    let k = choose|k: int|
                        0 <= k < fewer.len() && asked_for(filter, file, #[trigger] fewer[k], r) && r == row_of(file, fewer[k], importers);
                    assert(functions[k] == fewer[k]);
                } else {
                    assert(functions[n - 1] == functions.last());
                }
            }
            if is_row_among(filter, file, functions, importers, r) {
                let k = choose|k: int|
                    0 <= k < functions.len() && asked_for(filter, file, #[trigger] functions[k], r) && r == row_of(file, functions[k], importers);
                if k < n - 1 {
                    assert(fewer[k] == functions[k]);
                    assert(before.contains(r));
                    let at = choose|at: int| 0 <= at < before.len() && before[at] == r;
                    assert(all[at] == r);
                } else {
                    assert(all[all.len() - 1] == r);
                }
            }
        }
    }
}

/// The rows of a file in a selection.
spec fn own_rows(filter: FilterFacts, file: FileView, importers: Option<u32>) -> Seq<FunctionRow> {
    if admits_file(filter, file) {
        selected_in(filter, file, file.functions, importers)
    } else {
        Seq::empty()
    }
}

#[verifier::rlimit(60)]
#[verifier::spinoff_prover]
proof fn lemma_own_rows(filter: FilterFacts, file: FileView, importers: Option<u32>)
    ensures
        own_rows(filter, file, importers).len() == how_many(file.functions.len() as int, asked_in(filter, file, file.functions, importers)),
        forall|r: FunctionRow| #[trigger]
            own_rows(filter, file, importers).contains(r) <==> exists|k: int| #[trigger] is_row_of(filter, file, importers, r, k),
{
    reveal(is_row_of);
    let own = own_rows(filter, file, importers);
    if admits_file(filter, file) {
        lemma_selected_in(filter, file, file.functions, importers);
        assert forall|r: FunctionRow| #[trigger] own.contains(r) <==> exists|k: int| #[trigger] is_row_of(filter, file, importers, r, k) by {
            if own.contains(r) {
                assert(is_row_among(filter, file, file.functions, importers, r));
                let k = choose|k: int|
                    0 <= k < file.functions.len() && asked_for(filter, file, #[trigger] file.functions[k], r) && r == row_of(
                        file,
                        file.functions[k],
                        importers,
                    );
                assert(is_row_of(filter, file, importers, r, k));
            }
            if exists|k: int| #[trigger] is_row_of(filter, file, importers, r, k) {
                let k = choose|k: int| #[trigger] is_row_of(filter, file, importers, r, k);
                assert(asked_for(filter, file, file.functions[k], r));
                assert(is_row_among(filter, file, file.functions, importers, r));
            }
        }
    } else {
        lemma_refused_in(filter, file, file.functions, importers, file.functions.len() as int);
    }
}

/// How many functions of a file a request asks for.
pub open spec fn asked_count(filter: FilterFacts, files: Seq<FileView>, index: Option<IndexView>) -> spec_fn(int) -> nat {
    |i: int|
        how_many(
            files[i].functions.len() as int,
            asked_in(filter, files[i], files[i].functions, importer_count(index, path_of(files[i]))),
        )
}

proof fn lemma_refused_in(filter: FilterFacts, file: FileView, functions: Seq<FunctionView>, importers: Option<u32>, n: int)
    requires
        !admits_file(filter, file),
        0 <= n <= functions.len(),
    ensures
        how_many(n, asked_in(filter, file, functions, importers)) == 0,
    decreases n,
{
    if n > 0 {
        lemma_refused_in(filter, file, functions, importers, n - 1);
    }
}

proof fn lemma_joined(before: Seq<FunctionRow>, own: Seq<FunctionRow>, r: FunctionRow)
    ensures
        (before + own).contains(r) <==> before.contains(r) || own.contains(r),
{
    let all = before + own;
    if before.contains(r) {
        let at = choose|at: int| 0 <= at < before.len() && before[at] == r;
        assert(all[at] == r);
    }
    if own.contains(r) {
        let at = choose|at: int| 0 <= at < own.len() && own[at] == r;
        assert(all[before.len() + at] == r);
    }
    if all.contains(r) {
        let at = choose|at: int| 0 <= at < all.len() && all[at] == r;
        if at < before.len() {
            assert(before[at] == r);
        } else {
            assert(own[at - before.len()] == r);
        }
    }
}

/// A selection holds the row of each function that is asked for, once for each
/// such function, and no other row.
#[verifier::rlimit(60)]
#[verifier::spinoff_prover]
pub proof fn lemma_selection_is_what_is_asked_for(filter: FilterFacts, files: Seq<FileView>, index: Option<IndexView>)
    ensures
        selected(filter, files, index).len() == sum(files.len() as int, asked_count(filter, files, index)),
        forall|r: FunctionRow| #[trigger]
            selected(filter, files, index).contains(r) <==> exists|i: int, k: int|
                0 <= i < files.len() && #[trigger] is_row_of(filter, files[i], importer_count(index, path_of(files[i])), r, k),
    decreases files.len(),
{
    let n = files.len() as int;
    let all = selected(filter, files, index);
    if n > 0 {
        let fewer = files.drop_last();
        let before = selected(filter, fewer, index);
        let file = files.last();
        let importers = importer_count(index, path_of(file));
        lemma_selection_is_what_is_asked_for(filter, fewer, index);
        lemma_sum_same(n - 1, asked_count(filter, files, index), asked_count(filter, fewer, index));
        let own = own_rows(filter, file, importers);
        lemma_own_rows(filter, file, importers);
        assert(all =~= before + own);
        assert forall|r: FunctionRow| #[trigger] all.contains(r) <==> exists|i: int, k: int|
            0 <= i < files.len() && #[trigger] is_row_of(filter, files[i], importer_count(index, path_of(files[i])), r, k) by {
            lemma_joined(before, own, r);
            if before.contains(r) {
                let (i, k) = choose|i: int, k: int|
                    0 <= i < fewer.len() && #[trigger] is_row_of(filter, fewer[i], importer_count(index, path_of(fewer[i])), r, k);
                assert(files[i] == fewer[i]);
                assert(is_row_of(filter, files[i], importer_count(index, path_of(files[i])), r, k));
            }
            if own.contains(r) {
                let k = choose|k: int| #[trigger] is_row_of(filter, file, importers, r, k);
                assert(is_row_of(filter, files[n - 1], importer_count(index, path_of(files[n - 1])), r, k));
            }
            if exists|i: int, k: int|
                0 <= i < files.len() && #[trigger] is_row_of(filter, files[i], importer_count(index, path_of(files[i])), r, k) {
                let (i, k) = choose|i: int, k: int|
                    0 <= i < files.len() && #[trigger] is_row_of(filter, files[i], importer_count(index, path_of(files[i])), r, k);
                if i < n - 1 {
                    assert(fewer[i] == files[i]);
                    assert(is_row_of(filter, fewer[i], importer_count(index, path_of(fewer[i])), r, k));
                } else {
                    assert(is_row_of(filter, file, importers, r, k));
                }
            }
        }
    }
}

pub(crate) proof fn lemma_sum_same(n: int, a: spec_fn(int) -> nat, b: spec_fn(int) -> nat)
    requires
        forall|i: int| 0 <= i < n ==> #[trigger] a(i) == b(i),
    ensures
        sum(n, a) == sum(n, b),
    decreases n,
{
    if n > 0 {
        lemma_sum_same(n - 1, a, b);
        assert(a(n - 1) == b(n - 1));
    }
}

/// Whether a request asks for a file.
pub open spec fn file_asked_for(filter: FileFilter, file: FileView, row: FileRow) -> bool {
    &&& filter.classification matches Some(role) ==> role == classification(path_of(file))
    &&& filter.minimum_risk matches Some(least) ==> reaches(row.risk.level, least)
}

/// A selection holds the row of each file that is asked for, in their order,
/// and no other row.
pub proof fn lemma_file_selection_is_what_is_asked_for(filter: FileFilter, files: Seq<FileView>, index: Option<IndexView>)
    ensures
        selected_files(filter, files, index).len() == how_many(
            files.len() as int,
            |i: int| file_asked_for(filter, files[i], file_row(files[i], index)),
        ),
        forall|r: FileRow| #[trigger]
            selected_files(filter, files, index).contains(r) <==> exists|i: int|
                0 <= i < files.len() && file_asked_for(filter, #[trigger] files[i], r) && r == file_row(files[i], index),
    decreases files.len(),
{
    let n = files.len() as int;
    let all = selected_files(filter, files, index);
    if n > 0 {
        let fewer = files.drop_last();
        let before = selected_files(filter, fewer, index);
        lemma_file_selection_is_what_is_asked_for(filter, fewer, index);
        lemma_how_many_same(
            n - 1,
            |i: int| file_asked_for(filter, files[i], file_row(files[i], index)),
            |i: int| file_asked_for(filter, fewer[i], file_row(fewer[i], index)),
        );
        let row = file_row(files.last(), index);
        assert(admits(filter, files.last(), row) == file_asked_for(filter, files.last(), row));
        assert forall|r: FileRow| #[trigger] all.contains(r) <==> exists|i: int|
            0 <= i < files.len() && file_asked_for(filter, #[trigger] files[i], r) && r == file_row(files[i], index) by {
            if all.contains(r) {
                let at = choose|at: int| 0 <= at < all.len() && all[at] == r;
                if at < before.len() {
                    assert(before[at] == r);
                    assert(before.contains(r));
                    let i = choose|i: int|
                        0 <= i < fewer.len() && file_asked_for(filter, #[trigger] fewer[i], r) && r == file_row(fewer[i], index);
                    assert(files[i] == fewer[i]);
                } else {
                    assert(files[n - 1] == files.last());
                }
            }
            if exists|i: int| 0 <= i < files.len() && file_asked_for(filter, #[trigger] files[i], r) && r == file_row(files[i], index) {
                let i = choose|i: int| 0 <= i < files.len() && file_asked_for(filter, #[trigger] files[i], r) && r == file_row(files[i], index);
                if i < n - 1 {
                    assert(fewer[i] == files[i]);
                    assert(before.contains(r));
                    let at = choose|at: int| 0 <= at < before.len() && before[at] == r;
                    assert(all[at] == r);
                } else {
                    assert(all[all.len() - 1] == r);
                }
            }
        }
    }
}

/// Functions come by the score of their priority, the highest first, then by
/// that of their risk, then by the growth of their cognitive complexity, then
/// by the lines changed, and then by file and symbol.
pub proof fn lemma_functions_come_by_priority(a: FunctionRow, b: FunctionRow)
    ensures
        ({
            let priority = a.review_priority.score - b.review_priority.score;
            let risk = a.risk.score - b.risk.score;
            let growth = a.metrics.cognitive_complexity.delta - b.metrics.cognitive_complexity.delta;
            let lines = (a.change.lines_added + a.change.lines_removed) - (b.change.lines_added + b.change.lines_removed);
            &&& row_rank(a, b) == Rank::Before <==> {
                ||| priority > 0
                ||| priority == 0 && risk > 0
                ||| priority == 0 && risk == 0 && growth > 0
                ||| priority == 0 && risk == 0 && growth == 0 && lines > 0
                ||| priority == 0 && risk == 0 && growth == 0 && lines == 0 && a.file != b.file && before(a.file, b.file)
                ||| priority == 0 && risk == 0 && growth == 0 && lines == 0 && a.file == b.file && a.symbol != b.symbol && before(
                    a.symbol,
                    b.symbol,
                )
            }
            &&& row_rank(a, b) == Rank::Same <==> priority == 0 && risk == 0 && growth == 0 && lines == 0 && a.file == b.file && a.symbol
                == b.symbol
        }),
{
}

/// How far up a level stands.
pub open spec fn height(level: RiskLevel) -> int {
    match level {
        RiskLevel::High => 3,
        RiskLevel::Medium => 2,
        RiskLevel::Low => 1,
    }
}

/// Files come by the level of their priority, the highest first, then by that
/// of their risk, then by the lines changed, and then by path.
pub proof fn lemma_files_come_by_level(a: FileRow, b: FileRow)
    ensures
        ({
            let priority = height(a.review_priority.level) - height(b.review_priority.level);
            let risk = height(a.risk.level) - height(b.risk.level);
            let lines = (a.lines.added + a.lines.removed) - (b.lines.added + b.lines.removed);
            &&& file_row_rank(a, b) == Rank::Before <==> {
                ||| priority > 0
                ||| priority == 0 && risk > 0
                ||| priority == 0 && risk == 0 && lines > 0
                ||| priority == 0 && risk == 0 && lines == 0 && a.path != b.path && before(a.path, b.path)
            }
            &&& file_row_rank(a, b) == Rank::Same <==> priority == 0 && risk == 0 && lines == 0 && a.path == b.path
        }),
{
}

/// Areas come by the level of their priority, the highest first, then by that
/// of their risk, then by the files changed, and then by name.
pub proof fn lemma_areas_come_by_level(a: AreaFacts, b: AreaFacts)
    ensures
        ({
            let priority = height(a.review_priority) - height(b.review_priority);
            let risk = height(a.risk) - height(b.risk);
            &&& area_rank(a, b) == Rank::Before <==> {
                ||| priority > 0
                ||| priority == 0 && risk > 0
                ||| priority == 0 && risk == 0 && a.files > b.files
                ||| priority == 0 && risk == 0 && a.files == b.files && a.name != b.name && before(a.name, b.name)
            }
            &&& area_rank(a, b) == Rank::Same <==> priority == 0 && risk == 0 && a.files == b.files && a.name == b.name
        }),
{
}

/// A page holds as many rows as were asked for, at least one and at most two
/// hundred, and fifty where nothing was asked.
pub proof fn lemma_page_limit(limit: usize)
    ensures
        applied_limit(None) == 50,
        1 <= applied_limit(Some(limit)) <= 200,
        1 <= limit <= 200 ==> applied_limit(Some(limit)) == limit,
        limit == 0 ==> applied_limit(Some(limit)) == 1,
        limit > 200 ==> applied_limit(Some(limit)) == 200,
{
}

/// The smaller of two numbers.
pub open spec fn least(a: int, b: int) -> int {
    if a < b {
        a
    } else {
        b
    }
}

/// A page holds the rows from its offset on, up to its limit, and tells how
/// many those are, how many rows there are at all, and where to go on where
/// some are left.
pub proof fn lemma_page_holds_its_rows<T>(rows: Seq<T>, page: Page, i: int)
    requires
        rows.len() <= usize::MAX,
        page.offset <= rows.len(),
    ensures
        ({
            let limit = applied_limit(page.limit);
            let shown = window(rows, page.offset as int, limit);
            let facts = window_facts(rows.len(), page);
            &&& shown.len() == least(limit, rows.len() - page.offset)
            &&& 0 <= i < shown.len() ==> shown[i] == rows[page.offset + i]
            &&& facts.returned == shown.len()
            &&& facts.total == rows.len()
            &&& facts.has_more <==> page.offset + shown.len() < rows.len()
            &&& facts.has_more ==> facts.next_offset == Some((page.offset + shown.len()) as usize)
            &&& !facts.has_more ==> facts.next_offset is None
        }),
{
}

/// The identity of a function names its file, its symbol, and where it starts in
/// the target, or in the base where it was removed.
pub proof fn lemma_identity_is_written(file: FileView, function: FunctionView, path: Seq<char>, range: SourceRange)
    requires
        file.target_path == Some(path) || (file.target_path is None && file.base_path == Some(path)),
    ensures
        function.target_range == Some(range) && function.status != FunctionChangeStatus::Removed ==> identity(file, function) == path + "#"@ + symbol(
            function.kind,
            function.qualified_name,
        ) + "@"@ + "target"@ + ":"@ + decimal(range.start_line as nat) + ":"@ + decimal(range.start_column as nat),
        function.base_range == Some(range) && (function.status == FunctionChangeStatus::Removed || function.target_range is None) ==> identity(
            file,
            function,
        ) == path + "#"@ + symbol(function.kind, function.qualified_name) + "@"@ + "base"@ + ":"@ + decimal(range.start_line as nat) + ":"@ + decimal(
            range.start_column as nat,
        ),
        row_of(file, function, None).function_id == identity(file, function),
{
}

/// The last name of a function is what stands behind its last dot.
pub proof fn lemma_last_name(scope: Seq<char>, name: Seq<char>)
    requires
        lacks(name, '.'),
    ensures
        leaf_of(scope + seq!['.'] + name) == name,
        leaf_of(name) == name,
{
    let s = scope + seq!['.'] + name;
    assert forall|k: int| scope.len() < k < s.len() implies #[trigger] s[k] != '.' by {
        assert(s[k] == name[k - scope.len() - 1]);
    }
    assert(s[scope.len() as int] == '.');
    lemma_last_of(s, '.', scope.len());
    assert(s.skip(scope.len() as int + 1) =~= name);
    lemma_last_of(name, '.', name.len());
}

/// A file row tells the change of its file: its lines, its exports, and how many
/// import it where that is known.
pub proof fn lemma_file_row_tells_its_file(file: FileView, index: Option<IndexView>)
    ensures
        ({
            let row = file_row(file, index);
            &&& row.lines.added == file.added_lines && row.lines.removed == file.removed_lines
            &&& row.exports_added == file.exports_added && row.exports_removed == file.exports_removed
            &&& index is None <==> row.impact is None
            &&& (index matches Some(known) ==> (row.impact matches Some(told) && told.direct_importers == impact_of(known, row.path).direct_importers
                && told.nearby_importers == impact_of(known, row.path).nearby_importers && told.related_tests.len() == impact_of(
                known,
                row.path,
            ).related_tests.len()))
        }),
{
}

/// A related test is told with why it is related and how certain that is.
pub proof fn lemma_related_test_is_told(impact: FileImpactView, i: int)
    requires
        0 <= i < impact.related_tests.len(),
    ensures
        ({
            let told = reported(impact).related_tests[i];
            let test = impact.related_tests[i];
            &&& told.0 == test.0
            &&& test.1 == TestLink::Imports ==> told.1 == "imports the changed module"@ && told.2 == 90
            &&& test.1 == TestLink::Convention ==> told.1 == "name matches the changed file"@ && told.2 == 80
        }),
{
}

} // verus!
