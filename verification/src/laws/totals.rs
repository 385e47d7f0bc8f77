//! What is counted and summed up over functions, files and areas.

use vstd::prelude::*;

use crate::analysis::FunctionChangeStatus;
use crate::imports::IndexView;
use crate::languages::DiagnosticSeverity;
use crate::laws::changes::at_most_32_bits;
use crate::laws::counting::{how_many, lemma_how_many_same, sum};
use crate::laws::listing::{height, lemma_sum_same};
use crate::laws::words::{lemma_path_splits, path_to, plain};
use crate::metrics::FunctionMetrics;
use crate::order::picked;
use crate::query::classify::{classification, FileClassification};
use crate::query::functions::importer_count;
use crate::query::risk::{assessment_of, RiskLevel};
use crate::query::rows::{overlap_of, path_of, signals_of, FunctionRow};
use crate::query::share::{hundredths, lemma_hundredths_bounded, lemma_narrowing, lemma_nearest_even, lemma_widening, narrowing, nearest_even, widening};
use crate::query::summary::{
    added_in, area_facts, candidate_of, functions_in, of_role, priority_in, removed_in, risk_in, role_counts, shortlist, sums_in, within_area,
};
use crate::query::totals::{
    aggregate, area_of, counts_of, file_risk, highest_in, is_extraction, lemma_highest, lemma_severities_add_up, no_functions, severity_count, shape_of,
    sums_over, with_functions, FunctionCounts,
};
use crate::result::{DiagnosticView, FileView, FunctionView};

verus! {

/// The condition of a place that a function with a status stands there.
pub open spec fn has_status(functions: Seq<FunctionView>, status: FunctionChangeStatus) -> spec_fn(int) -> bool {
    |i: int| functions[i].status == status
}

/// Counts grow by the number of functions of each status.
pub open spec fn grows(before: u32, by: nat, after: u32) -> bool {
    at_most_32_bits(before as nat + by, after)
}

proof fn lemma_counts_grow(counts: FunctionCounts, functions: Seq<FunctionView>)
    ensures
        ({
            let all = with_functions(counts, functions);
            let n = functions.len() as int;
            &&& grows(counts.added, how_many(n, has_status(functions, FunctionChangeStatus::Added)), all.added)
            &&& grows(counts.removed, how_many(n, has_status(functions, FunctionChangeStatus::Removed)), all.removed)
            &&& grows(counts.modified, how_many(n, has_status(functions, FunctionChangeStatus::Modified)), all.modified)
            &&& grows(counts.unchanged, how_many(n, has_status(functions, FunctionChangeStatus::Unchanged)), all.unchanged)
        }),
    decreases functions.len(),
{
    let n = functions.len() as int;
    if n > 0 {
        let fewer = functions.drop_last();
        lemma_counts_grow(counts, fewer);
        lemma_how_many_same(n - 1, has_status(functions, FunctionChangeStatus::Added), has_status(fewer, FunctionChangeStatus::Added));
        lemma_how_many_same(n - 1, has_status(functions, FunctionChangeStatus::Removed), has_status(fewer, FunctionChangeStatus::Removed));
        lemma_how_many_same(n - 1, has_status(functions, FunctionChangeStatus::Modified), has_status(fewer, FunctionChangeStatus::Modified));
        lemma_how_many_same(n - 1, has_status(functions, FunctionChangeStatus::Unchanged), has_status(fewer, FunctionChangeStatus::Unchanged));
    }
}

/// The four function counts of a file count the functions of each status.
pub proof fn lemma_functions_are_counted(functions: Seq<FunctionView>)
    ensures
        ({
            let counts = with_functions(no_functions(), functions);
            let n = functions.len() as int;
            &&& at_most_32_bits(how_many(n, has_status(functions, FunctionChangeStatus::Added)), counts.added)
            &&& at_most_32_bits(how_many(n, has_status(functions, FunctionChangeStatus::Removed)), counts.removed)
            &&& at_most_32_bits(how_many(n, has_status(functions, FunctionChangeStatus::Modified)), counts.modified)
            &&& at_most_32_bits(how_many(n, has_status(functions, FunctionChangeStatus::Unchanged)), counts.unchanged)
        }),
{
    lemma_counts_grow(no_functions(), functions);
}

/// The functions of a status in a file.
pub open spec fn per_file(files: Seq<FileView>, status: FunctionChangeStatus) -> spec_fn(int) -> nat {
    |i: int| how_many(files[i].functions.len() as int, has_status(files[i].functions, status))
}

/// The function counts of an overview are those of its files together.
pub proof fn lemma_functions_are_counted_over_files(files: Seq<FileView>)
    ensures
        ({
            let counts = functions_in(files);
            let n = files.len() as int;
            &&& at_most_32_bits(sum(n, per_file(files, FunctionChangeStatus::Added)), counts.added)
            &&& at_most_32_bits(sum(n, per_file(files, FunctionChangeStatus::Removed)), counts.removed)
            &&& at_most_32_bits(sum(n, per_file(files, FunctionChangeStatus::Modified)), counts.modified)
            &&& at_most_32_bits(sum(n, per_file(files, FunctionChangeStatus::Unchanged)), counts.unchanged)
        }),
    decreases files.len(),
{
    let n = files.len() as int;
    if n > 0 {
        let fewer = files.drop_last();
        lemma_functions_are_counted_over_files(fewer);
        lemma_counts_grow(functions_in(fewer), files.last().functions);
        lemma_sum_same(n - 1, per_file(files, FunctionChangeStatus::Added), per_file(fewer, FunctionChangeStatus::Added));
        lemma_sum_same(n - 1, per_file(files, FunctionChangeStatus::Removed), per_file(fewer, FunctionChangeStatus::Removed));
        lemma_sum_same(n - 1, per_file(files, FunctionChangeStatus::Modified), per_file(fewer, FunctionChangeStatus::Modified));
        lemma_sum_same(n - 1, per_file(files, FunctionChangeStatus::Unchanged), per_file(fewer, FunctionChangeStatus::Unchanged));
    }
}

proof fn lemma_severities(diagnostics: Seq<DiagnosticView>, severity: DiagnosticSeverity)
    ensures
        severity_count(diagnostics, severity) == how_many(diagnostics.len() as int, |i: int| diagnostics[i].severity == severity),
    decreases diagnostics.len(),
{
    let n = diagnostics.len() as int;
    if n > 0 {
        let fewer = diagnostics.drop_last();
        lemma_severities(fewer, severity);
        lemma_how_many_same(n - 1, |i: int| diagnostics[i].severity == severity, |i: int| fewer[i].severity == severity);
    }
}

/// Diagnostics are counted by their severity, and all of them together.
pub proof fn lemma_diagnostics_are_counted(diagnostics: Seq<DiagnosticView>)
    ensures
        ({
            let counts = counts_of(diagnostics);
            let n = diagnostics.len() as int;
            &&& at_most_32_bits(how_many(n, |i: int| diagnostics[i].severity == DiagnosticSeverity::Info), counts.info)
            &&& at_most_32_bits(how_many(n, |i: int| diagnostics[i].severity == DiagnosticSeverity::Warning), counts.warnings)
            &&& at_most_32_bits(how_many(n, |i: int| diagnostics[i].severity == DiagnosticSeverity::Error), counts.errors)
            &&& at_most_32_bits(diagnostics.len(), counts.total)
        }),
{
    lemma_severities(diagnostics, DiagnosticSeverity::Info);
    lemma_severities(diagnostics, DiagnosticSeverity::Warning);
    lemma_severities(diagnostics, DiagnosticSeverity::Error);
    lemma_severities_add_up(diagnostics);
}

/// What a measure of the functions comes to before a change.
pub open spec fn before_of(functions: Seq<FunctionView>, measure: spec_fn(FunctionMetrics) -> nat) -> spec_fn(int) -> nat {
    |i: int|
        match functions[i].metrics_before {
            Some(m) => measure(m),
            None => 0nat,
        }
}

/// What a measure of the functions comes to after a change.
pub open spec fn after_of(functions: Seq<FunctionView>, measure: spec_fn(FunctionMetrics) -> nat) -> spec_fn(int) -> nat {
    |i: int|
        match functions[i].metrics_after {
            Some(m) => measure(m),
            None => 0nat,
        }
}

/// The cyclomatic complexity of a function.
pub open spec fn paths() -> spec_fn(FunctionMetrics) -> nat {
    |m: FunctionMetrics| m.cyclomatic_complexity as nat
}

/// The cognitive complexity of a function.
pub open spec fn effort() -> spec_fn(FunctionMetrics) -> nat {
    |m: FunctionMetrics| m.cognitive_complexity as nat
}

/// The source lines of a function.
pub open spec fn code_lines() -> spec_fn(FunctionMetrics) -> nat {
    |m: FunctionMetrics| m.source_loc as nat
}

proof fn lemma_sums(functions: Seq<FunctionView>)
    ensures
        ({
            let sums = sums_over(functions);
            let n = functions.len() as int;
            &&& sums.cyclomatic_before == sum(n, before_of(functions, paths()))
            &&& sums.cyclomatic_after == sum(n, after_of(functions, paths()))
            &&& sums.cognitive_before == sum(n, before_of(functions, effort()))
            &&& sums.cognitive_after == sum(n, after_of(functions, effort()))
            &&& sums.source_loc_before == sum(n, before_of(functions, code_lines()))
            &&& sums.source_loc_after == sum(n, after_of(functions, code_lines()))
        }),
    decreases functions.len(),
{
    let n = functions.len() as int;
    if n > 0 {
        let fewer = functions.drop_last();
        lemma_sums(fewer);
        lemma_sum_same(n - 1, before_of(functions, paths()), before_of(fewer, paths()));
        lemma_sum_same(n - 1, after_of(functions, paths()), after_of(fewer, paths()));
        lemma_sum_same(n - 1, before_of(functions, effort()), before_of(fewer, effort()));
        lemma_sum_same(n - 1, after_of(functions, effort()), after_of(fewer, effort()));
        lemma_sum_same(n - 1, before_of(functions, code_lines()), before_of(fewer, code_lines()));
        lemma_sum_same(n - 1, after_of(functions, code_lines()), after_of(fewer, code_lines()));
    }
}

/// The complexity of a file is that of its functions together, on each side,
/// and its change is the difference of the two.
pub proof fn lemma_complexity_adds_up(functions: Seq<FunctionView>)
    ensures
        ({
            let all = aggregate(sums_over(functions));
            let n = functions.len() as int;
            &&& at_most_32_bits(sum(n, before_of(functions, paths())), all.cyclomatic_before)
            &&& at_most_32_bits(sum(n, after_of(functions, paths())), all.cyclomatic_after)
            &&& at_most_32_bits(sum(n, before_of(functions, effort())), all.cognitive_before)
            &&& at_most_32_bits(sum(n, after_of(functions, effort())), all.cognitive_after)
            &&& at_most_32_bits(sum(n, before_of(functions, code_lines())), all.source_loc_before)
            &&& at_most_32_bits(sum(n, after_of(functions, code_lines())), all.source_loc_after)
            &&& all.cyclomatic_delta == all.cyclomatic_after - all.cyclomatic_before
            &&& all.cognitive_delta == all.cognitive_after - all.cognitive_before
        }),
{
    lemma_sums(functions);
}

/// The area of a file is its first directory, with the one below it where the
/// first only groups packages, and the root where it stands in no directory.
pub proof fn lemma_area_is_first_directory(directories: Seq<Seq<char>>, name: Seq<char>)
    requires
        plain(directories, name),
    ensures
        ({
            let area = area_of(path_to(directories, name));
            let first = directories[0];
            &&& directories.len() == 0 ==> area == "<root>"@
            &&& directories.len() > 0 ==> area == if first == "apps"@ || first == "crates"@ || first == "libs"@ || first == "modules"@ || first
                == "packages"@ || first == "packages-private"@ || first == "services"@ {
                first + "/"@ + (if directories.len() == 1 {
                    name
                } else {
                    directories[1]
                })
            } else {
                first
            }
        }),
{
    lemma_path_splits(directories, name);
}

/// Whether a function counts in the verdict on its file.
pub open spec fn changed(file: FileView, i: int) -> bool {
    0 <= i < file.functions.len() && file.functions[i].status != FunctionChangeStatus::Unchanged
}

proof fn lemma_highest_is_some(file: FileView, functions: Seq<FunctionView>, importers: Option<u32>)
    ensures
        highest_in(file, functions, importers) matches Some(highest) ==> {
            &&& exists|i: int| #![trigger functions[i]]
                0 <= i < functions.len() && functions[i].status != FunctionChangeStatus::Unchanged && highest.risk == assessment_of(
                    signals_of(file, functions[i], importers),
                ).risk
            &&& exists|i: int| #![trigger functions[i]]
                0 <= i < functions.len() && functions[i].status != FunctionChangeStatus::Unchanged && highest.review_priority == assessment_of(
                    signals_of(file, functions[i], importers),
                ).review_priority
        },
    decreases functions.len(),
{
    let n = functions.len() as int;
    if n > 0 {
        let fewer = functions.drop_last();
        lemma_highest_is_some(file, fewer, importers);
        assert(functions[n - 1] == functions.last());
        if highest_in(file, fewer, importers) is Some {
            let highest = highest_in(file, fewer, importers)->0;
            let i = choose|i: int| #![trigger fewer[i]]
                0 <= i < fewer.len() && fewer[i].status != FunctionChangeStatus::Unchanged && highest.risk == assessment_of(
                    signals_of(file, fewer[i], importers),
                ).risk;
            let j = choose|i: int| #![trigger fewer[i]]
                0 <= i < fewer.len() && fewer[i].status != FunctionChangeStatus::Unchanged && highest.review_priority == assessment_of(
                    signals_of(file, fewer[i], importers),
                ).review_priority;
            assert(functions[i] == fewer[i]);
            assert(functions[j] == fewer[j]);
        }
    }
}

/// The verdict on a file is the highest on its changed functions: one of them
/// has it, and none is scored above it. Where none changed, it is zero.
pub proof fn lemma_file_verdict_is_highest(file: FileView, importers: Option<u32>)
    ensures
        ({
            let verdict = file_risk(file, importers);
            &&& (exists|i: int| #[trigger] changed(file, i)) ==> {
                &&& exists|i: int| #[trigger] changed(file, i) && verdict.risk == assessment_of(signals_of(file, file.functions[i], importers)).risk
                &&& exists|i: int| #[trigger]
                    changed(file, i) && verdict.review_priority == assessment_of(signals_of(file, file.functions[i], importers)).review_priority
            }
            &&& forall|i: int| #[trigger]
                changed(file, i) ==> assessment_of(signals_of(file, file.functions[i], importers)).risk.score <= verdict.risk.score && assessment_of(
                    signals_of(file, file.functions[i], importers),
                ).review_priority.score <= verdict.review_priority.score
            &&& (forall|i: int| !#[trigger] changed(file, i)) ==> {
                &&& verdict.risk.score == 0 && verdict.risk.level == RiskLevel::Low && verdict.risk.reasons.len() == 0
                &&& verdict.review_priority.score == 0 && verdict.review_priority.level == RiskLevel::Low && verdict.review_priority.reasons.len()
                    == 0
            }
        }),
{
    lemma_highest(file, file.functions, importers);
    lemma_highest_is_some(file, file.functions, importers);
    match highest_in(file, file.functions, importers) {
        Some(highest) => {
            let i = choose|i: int| #![trigger file.functions[i]]
                0 <= i < file.functions.len() && file.functions[i].status != FunctionChangeStatus::Unchanged && highest.risk == assessment_of(
                    signals_of(file, file.functions[i], importers),
                ).risk;
            let j = choose|i: int| #![trigger file.functions[i]]
                0 <= i < file.functions.len() && file.functions[i].status != FunctionChangeStatus::Unchanged && highest.review_priority
                    == assessment_of(signals_of(file, file.functions[i], importers)).review_priority;
            assert(changed(file, i));
            assert(changed(file, j));
        },
        None => {
            assert forall|i: int| !#[trigger] changed(file, i) by {
                if 0 <= i < file.functions.len() {
                    assert(file.functions[i].status == FunctionChangeStatus::Unchanged);
                }
            }
        },
    }
}

/// A change moves complexity into a helper where it does not raise that of the
/// file, adds a function of at least five, and lowers another.
pub proof fn lemma_shape_is_extraction(file: FileView, helper: int, shrunk: int)
    ensures
        shape_of(file) == "complexity_extraction"@ || shape_of(file) == "other"@,
        is_extraction(file) ==> shape_of(file) == "complexity_extraction"@,
        !is_extraction(file) ==> shape_of(file) == "other"@,
        ({
            let total = aggregate(sums_over(file.functions));
            &&& 0 <= helper < file.functions.len() && 0 <= shrunk < file.functions.len() ==> {
                let a = file.functions[helper];
                let b = file.functions[shrunk];
                total.cognitive_after <= total.cognitive_before && a.status == FunctionChangeStatus::Added && (a.metrics_after matches Some(m)
                    && m.cognitive_complexity >= 5) && (b.metrics_before matches Some(was) && ((b.status == FunctionChangeStatus::Removed
                    && b.metrics_after is None && was.cognitive_complexity > 0) || (b.status == FunctionChangeStatus::Modified && (
                b.metrics_after matches Some(is) && is.cognitive_complexity < was.cognitive_complexity)))) ==> is_extraction(file)
            }
            &&& is_extraction(file) ==> total.cognitive_after <= total.cognitive_before
            &&& is_extraction(file) ==> exists|i: int|
                0 <= i < file.functions.len() && (#[trigger] file.functions[i]).status == FunctionChangeStatus::Added && (
                file.functions[i].metrics_after matches Some(m) && m.cognitive_complexity >= 5)
            &&& is_extraction(file) ==> exists|i: int|
                0 <= i < file.functions.len() && ((#[trigger] file.functions[i]).status == FunctionChangeStatus::Modified
                    || file.functions[i].status == FunctionChangeStatus::Removed) && (file.functions[i].metrics_before matches Some(was) && (
                file.functions[i].metrics_after matches Some(is) ==> is.cognitive_complexity < was.cognitive_complexity))
        }),
{
    if is_extraction(file) {
        let h = choose|i: int| 0 <= i < file.functions.len() && crate::query::totals::is_helper(#[trigger] file.functions[i]);
        let s = choose|i: int| 0 <= i < file.functions.len() && crate::query::totals::is_shrunk(#[trigger] file.functions[i]);
        assert(file.functions[h].status == FunctionChangeStatus::Added);
        assert(file.functions[s].metrics_before is Some);
    }
}

/// Whether a file counts in an area.
pub open spec fn in_area(files: Seq<FileView>, name: Seq<char>) -> spec_fn(int) -> bool {
    |i: int| area_of(path_of(files[i])) == name
}

/// What a measure of the files in an area comes to.
pub open spec fn area_part(files: Seq<FileView>, name: Seq<char>, measure: spec_fn(FileView) -> nat) -> spec_fn(int) -> nat {
    |i: int|
        if area_of(path_of(files[i])) == name {
            measure(files[i])
        } else {
            0nat
        }
}

/// The lines added to a file.
pub open spec fn lines_added() -> spec_fn(FileView) -> nat {
    |file: FileView| file.added_lines as nat
}

/// The lines removed from a file.
pub open spec fn lines_removed() -> spec_fn(FileView) -> nat {
    |file: FileView| file.removed_lines as nat
}

/// The cognitive complexity of a file after a change.
pub open spec fn effort_after() -> spec_fn(FileView) -> nat {
    |file: FileView| sum(file.functions.len() as int, after_of(file.functions, effort()))
}

/// The cognitive complexity of a file before a change.
pub open spec fn effort_before() -> spec_fn(FileView) -> nat {
    |file: FileView| sum(file.functions.len() as int, before_of(file.functions, effort()))
}

/// The cyclomatic complexity of a file after a change.
pub open spec fn paths_after() -> spec_fn(FileView) -> nat {
    |file: FileView| sum(file.functions.len() as int, after_of(file.functions, paths()))
}

/// The cyclomatic complexity of a file before a change.
pub open spec fn paths_before() -> spec_fn(FileView) -> nat {
    |file: FileView| sum(file.functions.len() as int, before_of(file.functions, paths()))
}

proof fn lemma_area_sums(files: Seq<FileView>, name: Seq<char>)
    ensures
        ({
            let own = picked(files, within_area(name));
            let n = files.len() as int;
            &&& own.len() == how_many(n, in_area(files, name))
            &&& added_in(own) == sum(n, area_part(files, name, lines_added()))
            &&& removed_in(own) == sum(n, area_part(files, name, lines_removed()))
            &&& sums_in(own).cognitive_after == sum(n, area_part(files, name, effort_after()))
            &&& sums_in(own).cognitive_before == sum(n, area_part(files, name, effort_before()))
            &&& sums_in(own).cyclomatic_after == sum(n, area_part(files, name, paths_after()))
            &&& sums_in(own).cyclomatic_before == sum(n, area_part(files, name, paths_before()))
        }),
    decreases files.len(),
{
    let n = files.len() as int;
    if n > 0 {
        let fewer = files.drop_last();
        let file = files.last();
        lemma_area_sums(fewer, name);
        lemma_how_many_same(n - 1, in_area(files, name), in_area(fewer, name));
        lemma_sum_same(n - 1, area_part(files, name, lines_added()), area_part(fewer, name, lines_added()));
        lemma_sum_same(n - 1, area_part(files, name, lines_removed()), area_part(fewer, name, lines_removed()));
        lemma_sum_same(n - 1, area_part(files, name, effort_after()), area_part(fewer, name, effort_after()));
        lemma_sum_same(n - 1, area_part(files, name, effort_before()), area_part(fewer, name, effort_before()));
        lemma_sum_same(n - 1, area_part(files, name, paths_after()), area_part(fewer, name, paths_after()));
        lemma_sum_same(n - 1, area_part(files, name, paths_before()), area_part(fewer, name, paths_before()));
        lemma_sums(file.functions);
        let own = picked(fewer, within_area(name));
        if area_of(path_of(file)) == name {
            assert(own.push(file).drop_last() =~= own);
        }
    }
}

/// An area counts its files, and the lines and the complexity of its files
/// together.
pub proof fn lemma_area_adds_up(files: Seq<FileView>, index: Option<IndexView>, name: Seq<char>)
    ensures
        ({
            let area = area_facts(files, index, name);
            let n = files.len() as int;
            &&& area.name == name
            &&& at_most_32_bits(how_many(n, in_area(files, name)), area.files)
            &&& at_most_32_bits(sum(n, area_part(files, name, lines_added())), area.lines.added)
            &&& at_most_32_bits(sum(n, area_part(files, name, lines_removed())), area.lines.removed)
            &&& at_most_32_bits(sum(n, area_part(files, name, effort_after())), area.complexity.cognitive_after)
            &&& at_most_32_bits(sum(n, area_part(files, name, effort_before())), area.complexity.cognitive_before)
            &&& at_most_32_bits(sum(n, area_part(files, name, paths_after())), area.complexity.cyclomatic_after)
            &&& at_most_32_bits(sum(n, area_part(files, name, paths_before())), area.complexity.cyclomatic_before)
        }),
{
    lemma_area_sums(files, name);
}

/// The risk of a file in a set of files.
pub open spec fn file_level(files: Seq<FileView>, index: Option<IndexView>, i: int) -> RiskLevel {
    file_risk(files[i], importer_count(index, path_of(files[i]))).risk.level
}

/// The priority of a file in a set of files.
pub open spec fn file_priority(files: Seq<FileView>, index: Option<IndexView>, i: int) -> RiskLevel {
    file_risk(files[i], importer_count(index, path_of(files[i]))).review_priority.level
}

/// Whether a place holds a file of an area.
pub open spec fn holds(files: Seq<FileView>, name: Seq<char>, i: int) -> bool {
    0 <= i < files.len() && area_of(path_of(files[i])) == name
}

/// The levels of an area are the highest of its files: none is above, and one
/// has it unless it is the lowest.
pub proof fn lemma_area_levels_are_highest(files: Seq<FileView>, index: Option<IndexView>, name: Seq<char>)
    ensures
        ({
            let own = picked(files, within_area(name));
            let risk = risk_in(own, index);
            let priority = priority_in(own, index);
            &&& area_facts(files, index, name).risk == risk
            &&& area_facts(files, index, name).review_priority == priority
            &&& forall|i: int| #[trigger]
                holds(files, name, i) ==> height(file_level(files, index, i)) <= height(risk) && height(file_priority(files, index, i)) <= height(
                    priority,
                )
            &&& risk != RiskLevel::Low ==> exists|i: int| #[trigger] holds(files, name, i) && file_level(files, index, i) == risk
            &&& priority != RiskLevel::Low ==> exists|i: int| #[trigger] holds(files, name, i) && file_priority(files, index, i) == priority
        }),
    decreases files.len(),
{
    let n = files.len() as int;
    let own = picked(files, within_area(name));
    if n > 0 {
        let fewer = files.drop_last();
        let file = files.last();
        lemma_area_levels_are_highest(fewer, index, name);
        let before = picked(fewer, within_area(name));
        if area_of(path_of(file)) == name {
            assert(before.push(file).drop_last() =~= before);
            assert(holds(files, name, n - 1));
        }
        assert forall|i: int| #[trigger] holds(files, name, i) implies height(file_level(files, index, i)) <= height(risk_in(own, index)) && height(
            file_priority(files, index, i),
        ) <= height(priority_in(own, index)) by {
            if i < n - 1 {
                assert(files[i] == fewer[i]);
                assert(holds(fewer, name, i));
            }
        }
        let risk = risk_in(own, index);
        if risk != RiskLevel::Low && risk == risk_in(before, index) {
            let i = choose|i: int| #[trigger] holds(fewer, name, i) && file_level(fewer, index, i) == risk;
            assert(files[i] == fewer[i]);
            assert(holds(files, name, i));
        } else if risk != RiskLevel::Low {
            assert(holds(files, name, n - 1) && file_level(files, index, n - 1) == risk);
        }
        let priority = priority_in(own, index);
        if priority != RiskLevel::Low && priority == priority_in(before, index) {
            let i = choose|i: int| #[trigger] holds(fewer, name, i) && file_priority(fewer, index, i) == priority;
            assert(files[i] == fewer[i]);
            assert(holds(files, name, i));
        } else if priority != RiskLevel::Low {
            assert(holds(files, name, n - 1) && file_priority(files, index, n - 1) == priority);
        }
    }
}

/// The word for a role.
pub open spec fn role_word(role: FileClassification) -> Seq<char> {
    match role {
        FileClassification::Lockfile => "lockfile"@,
        FileClassification::Vendored => "vendored"@,
        FileClassification::Generated => "generated"@,
        FileClassification::Test => "test"@,
        FileClassification::Config => "config"@,
        FileClassification::Docs => "docs"@,
        FileClassification::Source => "source"@,
    }
}

proof fn lemma_roles(files: Seq<FileView>, word: Seq<char>)
    ensures
        picked(files, of_role(word)).len() == how_many(files.len() as int, |i: int| role_word(classification(path_of(files[i]))) == word),
    decreases files.len(),
{
    let n = files.len() as int;
    if n > 0 {
        let fewer = files.drop_last();
        lemma_roles(fewer, word);
        lemma_how_many_same(
            n - 1,
            |i: int| role_word(classification(path_of(files[i]))) == word,
            |i: int| role_word(classification(path_of(fewer[i]))) == word,
        );
    }
}

/// An overview counts the files of each role, and names the roles that some
/// file has.
pub proof fn lemma_roles_are_counted(files: Seq<FileView>, word: Seq<char>)
    ensures
        ({
            let count = how_many(files.len() as int, |i: int| role_word(classification(path_of(files[i]))) == word);
            &&& role_counts(files).contains_key(word) <==> count > 0
            &&& count > 0 ==> at_most_32_bits(count, role_counts(files)[word])
        }),
{
    lemma_roles(files, word);
}

/// The shortlist holds the first five rows, each with its complexity, risk and
/// priority.
pub proof fn lemma_shortlist_is_first_five(rows: Seq<FunctionRow>, i: int)
    ensures
        shortlist(rows).len() == if rows.len() < 5 {
            rows.len()
        } else {
            5
        },
        0 <= i < shortlist(rows).len() ==> {
            let one = shortlist(rows)[i];
            &&& one.function_id == rows[i].function_id
            &&& one.file == rows[i].file
            &&& one.symbol == rows[i].symbol
            &&& one.status == rows[i].status
            &&& one.complexity_delta.cyclomatic == rows[i].metrics.cyclomatic_complexity.delta
            &&& one.complexity_delta.cognitive == rows[i].metrics.cognitive_complexity.delta
            &&& one.risk == crate::query::risk::level_word(rows[i].risk.level)
            &&& one.review_priority == crate::query::risk::level_word(rows[i].review_priority.level)
            &&& one.match_confidence == rows[i].match_confidence
        },
        candidate_of(rows[i]).risk == "high"@ || candidate_of(rows[i]).risk == "medium"@ || candidate_of(rows[i]).risk == "low"@,
        rows[i].risk.level == RiskLevel::High ==> candidate_of(rows[i]).risk == "high"@,
        rows[i].risk.level == RiskLevel::Medium ==> candidate_of(rows[i]).risk == "medium"@,
        rows[i].risk.level == RiskLevel::Low ==> candidate_of(rows[i]).risk == "low"@,
{
}

proof fn lemma_nearest(n: nat, d: nat)
    requires
        d > 0,
    ensures
        2 * (nearest_even(n, d) * d) <= 2 * n + d,
        2 * n <= 2 * (nearest_even(n, d) * d) + d,
{
    let q = n / d;
    let r = n % d;
    assert(n == q * d + r && r < d) by (nonlinear_arith)
        requires
            d > 0,
            q == n / d,
            r == n % d,
    ;
    assert((q + 1) * d == q * d + d) by (nonlinear_arith);
}

/// A share in hundredths is the whole number nearest to it: it is off by half a
/// hundredth at most.
pub proof fn lemma_hundredths_are_nearest(part: nat, whole: nat)
    requires
        part <= whole,
        0 < whole <= u32::MAX,
    ensures
        2 * (hundredths(part, whole) * whole) <= 200 * part + whole,
        200 * part <= 2 * (hundredths(part, whole) * whole) + whole,
{
    let s = widening(part, whole, 1);
    let m = nearest_even(part * s, whole);
    let k = narrowing(m * 100, 1);
    let e = nearest_even(m * 100, k) * k;
    let r = hundredths(part, whole);
    assert(r == (2 * e + s) / (2 * s));
    if part == 0 {
        assert(s == 1);
        assert(m == 0) by {
            assert(part * s == 0) by (nonlinear_arith)
                requires
                    part == 0,
            ;
            lemma_nearest_even(0, whole, 0);
        }
        assert(k == 1);
        assert(nearest_even(0, 1) == 0);
        assert(m * 100 == 0 && e == 0);
        assert(r == (2 * 0 + 1int) / (2 * 1int));
        assert(r * whole == 0) by (nonlinear_arith)
            requires
                r == 0,
        ;
    } else {
        lemma_widening(part, whole, 1);
        lemma_nearest(part * s, whole);
        lemma_nearest_even(part * s, whole, 0x20_0000_0000_0000);
        lemma_narrowing(m * 100);
        lemma_nearest(m * 100, k);
        lemma_share(part as int, whole as int, s as int, m as int, k as int, e as int, r as int);
    }
}

proof fn lemma_share(p: int, w: int, s: int, m: int, k: int, e: int, r: int)
    requires
        0 < p,
        0 < w <= u32::MAX,
        s >= 0x10_0000_0000_0000,
        0 < k <= 128,
        e >= 0,
        2 * (m * w) <= 2 * (p * s) + w,
        2 * (p * s) <= 2 * (m * w) + w,
        2 * e <= 200 * m + k,
        200 * m <= 2 * e + k,
        r == (2 * e + s) / (2 * s),
    ensures
        2 * (r * w) <= 200 * p + w,
        200 * p <= 2 * (r * w) + w,
{
    assert(2 * (s * r) <= 2 * e + s && 2 * e + s < 2 * (s * r) + 2 * s) by (nonlinear_arith)
        requires
            r == (2 * e + s) / (2 * s),
            s > 0,
            e >= 0,
    ;
    let sr = s * r;
    assert(2 * (sr * w) <= 2 * (e * w) + s * w) by (nonlinear_arith)
        requires
            2 * sr <= 2 * e + s,
            w > 0,
    ;
    assert(2 * (e * w) < 2 * (sr * w) + s * w) by (nonlinear_arith)
        requires
            2 * e < 2 * sr + s,
            w > 0,
    ;
    assert(2 * (e * w) <= 200 * (m * w) + k * w && 200 * (m * w) <= 2 * (e * w) + k * w) by (nonlinear_arith)
        requires
            2 * e <= 200 * m + k,
            200 * m <= 2 * e + k,
            w > 0,
    ;
    assert(k * w <= 128 * w) by (nonlinear_arith)
        requires
            k <= 128,
            w > 0,
    ;
    let over = 2 * (r * w) - 200 * p - w;
    let under = 200 * p - 2 * (r * w) - w;
    assert(s * over == 2 * (sr * w) - 200 * (p * s) - s * w) by (nonlinear_arith)
        requires
            over == 2 * (r * w) - 200 * p - w,
            sr == s * r,
    ;
    assert(s * under == 200 * (p * s) - 2 * (sr * w) - s * w) by (nonlinear_arith)
        requires
            under == 200 * p - 2 * (r * w) - w,
            sr == s * r,
    ;
    assert(over < 1) by (nonlinear_arith)
        requires
            s * over <= 228 * w,
            228 * w < s,
            s > 0,
    ;
    assert(under < 1) by (nonlinear_arith)
        requires
            s * under <= 228 * w,
            228 * w < s,
            s > 0,
    ;
}

/// The overlap of a function is the larger of the lines added and the lines
/// removed, as a share of its length in hundredths, to the nearest, and a
/// hundred where more lines changed than it has.
pub proof fn lemma_overlap_is_share_of_length(function: FunctionView, length: u32)
    requires
        match function.metrics_after {
            Some(m) => m.physical_loc == length,
            None => function.metrics_before matches Some(m) && m.physical_loc == length,
        },
        length > 0,
    ensures
        ({
            let touched = if function.churn.lines_added > function.churn.lines_removed {
                function.churn.lines_added as int
            } else {
                function.churn.lines_removed as int
            };
            let overlap = overlap_of(function);
            &&& touched >= length ==> overlap == 100
            &&& touched <= length ==> 2 * (overlap * length) <= 200 * touched + length && 200 * touched <= 2 * (overlap * length) + length
        }),
{
    let touched = if function.churn.lines_added > function.churn.lines_removed {
        function.churn.lines_added
    } else {
        function.churn.lines_removed
    };
    if touched <= length {
        lemma_hundredths_are_nearest(touched as nat, length as nat);
        lemma_hundredths_bounded(touched as nat, length as nat);
        if touched == length {
            let h = hundredths(touched as nat, length as nat);
            assert(h == 100) by (nonlinear_arith)
                requires
                    200 * length <= 2 * (h * length) + length,
                    h <= 100,
                    length > 0,
            ;
        }
    }
}

} // verus!
