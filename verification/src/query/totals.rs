//! Counts and sums over the functions of a file, and the area it belongs to.

use vstd::prelude::*;

use crate::analysis::{saturated, FunctionChangeStatus};
use crate::languages::DiagnosticSeverity;
use crate::query::classify::{classification, FileClassification};
use crate::query::risk::{
    assess, assessment_of, lemma_scores_bounded, level_of, RiskAssessment, RiskLevel, RiskView, ScoreAssessment, ScoreView,
    REVIEW_PRIORITY_MAXIMUM_SCORE, REVIEW_PRIORITY_MODEL, RISK_MAXIMUM_SCORE, RISK_MODEL,
};
use crate::query::rows::{cognitive_of, cyclomatic_of, or_zero, path_of, signals_for, signals_of, source_of};
use crate::result::{diagnostic_views, function_views, one_more, Diagnostic, DiagnosticView, FileResult, FileView, FunctionResult, FunctionView};
use crate::text::{join3, same_text, split_on, split_text};

verus! {

/// Cognitive complexity an added function must carry to count as a helper that
/// took real work out of another function rather than delegating one line.
pub const SUBSTANTIAL_HELPER_COGNITIVE: u32 = 5;

/// Shape of a change that moved complexity out of a function into new ones.
pub const COMPLEXITY_EXTRACTION: &'static str = "complexity_extraction";

/// Shape of every change that is not an extraction.
pub const OTHER_CHANGE_SHAPE: &'static str = "other";

/// Lines that a change adds and removes.
#[derive(Debug, Clone, Copy, PartialEq, Eq)]
pub struct LineCounts {
    pub added: u32,
    pub removed: u32,
}

/// Functions of a change, by what happened to them.
#[derive(Debug, Clone, Copy, PartialEq, Eq)]
pub struct FunctionCounts {
    pub added: u32,
    pub removed: u32,
    pub modified: u32,
    pub unchanged: u32,
}

/// Counts of nothing.
pub open spec fn no_functions() -> FunctionCounts {
    FunctionCounts { added: 0, removed: 0, modified: 0, unchanged: 0 }
}

/// Counts with one more function.
pub open spec fn with_status(counts: FunctionCounts, status: FunctionChangeStatus) -> FunctionCounts {
    match status {
        FunctionChangeStatus::Added => FunctionCounts { added: one_more(counts.added), ..counts },
        FunctionChangeStatus::Removed => FunctionCounts { removed: one_more(counts.removed), ..counts },
        FunctionChangeStatus::Modified => FunctionCounts { modified: one_more(counts.modified), ..counts },
        FunctionChangeStatus::Unchanged => FunctionCounts { unchanged: one_more(counts.unchanged), ..counts },
    }
}

/// Counts with several more functions.
pub open spec fn with_functions(counts: FunctionCounts, functions: Seq<FunctionView>) -> FunctionCounts
    decreases functions.len(),
{
    if functions.len() == 0 {
        counts
    } else {
        with_status(with_functions(counts, functions.drop_last()), functions.last().status)
    }
}

fn plus_one(n: u32) -> (r: u32)
    ensures
        r == one_more(n),
{
    if n < u32::MAX {
        n + 1
    } else {
        n
    }
}

/// Count one more function of a status.
fn count_status(counts: &mut FunctionCounts, status: FunctionChangeStatus)
    ensures
        *final(counts) == with_status(*old(counts), status),
{
    match status {
        FunctionChangeStatus::Added => {
            counts.added = plus_one(counts.added);
        },
        FunctionChangeStatus::Removed => {
            counts.removed = plus_one(counts.removed);
        },
        FunctionChangeStatus::Modified => {
            counts.modified = plus_one(counts.modified);
        },
        FunctionChangeStatus::Unchanged => {
            counts.unchanged = plus_one(counts.unchanged);
        },
    }
}

/// Count the functions of a file by what happened to them.
pub(crate) fn count_functions(counts: &mut FunctionCounts, file: &FileResult)
    ensures
        *final(counts) == with_functions(*old(counts), file@.functions),
{
    let ghost given = *counts;
    let ghost functions = file@.functions;
    let mut i: usize = 0;
    assert(functions.take(0) =~= Seq::<FunctionView>::empty());
    while i < file.functions.len()
        invariant
            i <= file.functions.len(),
            functions == function_views(file.functions@),
            *counts == with_functions(given, functions.take(i as int)),
        decreases file.functions.len() - i,
    {
        assert(functions.take(i + 1).drop_last() =~= functions.take(i as int));
        assert(functions.take(i + 1).last() == file.functions@[i as int]@);
        count_status(counts, file.functions[i].status);
        i = i + 1;
    }
    assert(functions.take(i as int) =~= functions);
}

/// Diagnostics reported, by severity.
#[derive(Debug, Clone, Copy, PartialEq, Eq)]
pub struct DiagnosticCounts {
    pub info: u32,
    pub warnings: u32,
    pub errors: u32,
    /// Every diagnostic, so a caller can size the whole list before reading it.
    pub total: u32,
}

/// How many diagnostics have a severity.
pub open spec fn severity_count(diagnostics: Seq<DiagnosticView>, severity: DiagnosticSeverity) -> nat
    decreases diagnostics.len(),
{
    if diagnostics.len() == 0 {
        0
    } else {
        severity_count(diagnostics.drop_last(), severity) + (if diagnostics.last().severity == severity {
            1nat
        } else {
            0nat
        })
    }
}

/// Counts of each severity, and their sum.
pub open spec fn counts_from(info: nat, warnings: nat, errors: nat) -> DiagnosticCounts {
    DiagnosticCounts {
        info: saturated(info),
        warnings: saturated(warnings),
        errors: saturated(errors),
        total: saturated(info + warnings + errors),
    }
}

/// The counts of a list of diagnostics.
pub open spec fn counts_of(diagnostics: Seq<DiagnosticView>) -> DiagnosticCounts {
    counts_from(
        severity_count(diagnostics, DiagnosticSeverity::Info),
        severity_count(diagnostics, DiagnosticSeverity::Warning),
        severity_count(diagnostics, DiagnosticSeverity::Error),
    )
}

/// Every diagnostic has one of the severities that are counted.
pub proof fn lemma_severities_add_up(diagnostics: Seq<DiagnosticView>)
    ensures
        severity_count(diagnostics, DiagnosticSeverity::Info) + severity_count(diagnostics, DiagnosticSeverity::Warning) + severity_count(
            diagnostics,
            DiagnosticSeverity::Error,
        ) == diagnostics.len(),
    decreases diagnostics.len(),
{
    if diagnostics.len() > 0 {
        lemma_severities_add_up(diagnostics.drop_last());
    }
}

pub(crate) fn to_count(n: u64) -> (r: u32)
    ensures
        r == saturated(n as nat),
{
    if n > u32::MAX as u64 {
        u32::MAX
    } else {
        n as u32
    }
}

impl DiagnosticCounts {
    /// Counts of an analysis's own summary.
    pub fn from_summary(counts: &crate::result::DiagnosticCounts) -> (r: Self)
        ensures
            r == counts_from(counts.info as nat, counts.warning as nat, counts.error as nat),
    {
        DiagnosticCounts {
            info: counts.info,
            warnings: counts.warning,
            errors: counts.error,
            total: to_count(counts.info as u64 + counts.warning as u64 + counts.error as u64),
        }
    }
}

/// Diagnostics as they are counted.
pub(crate) struct SeverityTally {
    info: u32,
    warnings: u32,
    errors: u32,
    total: u32,
}

impl SeverityTally {
    /// Whether the tally counts a list.
    pub(crate) closed spec fn counts(self, all: Seq<DiagnosticView>) -> bool {
        &&& self.info == saturated(severity_count(all, DiagnosticSeverity::Info))
        &&& self.warnings == saturated(severity_count(all, DiagnosticSeverity::Warning))
        &&& self.errors == saturated(severity_count(all, DiagnosticSeverity::Error))
        &&& self.total == saturated(all.len())
    }

    pub(crate) fn new() -> (r: Self)
        ensures
            r.counts(Seq::empty()),
    {
        SeverityTally { info: 0, warnings: 0, errors: 0, total: 0 }
    }

    /// Count several more diagnostics.
    pub(crate) fn add_all(&mut self, diagnostics: &Vec<Diagnostic>, Ghost(held): Ghost<Seq<DiagnosticView>>)
        requires
            old(self).counts(held),
        ensures
            final(self).counts(held + diagnostic_views(diagnostics@)),
    {
        let ghost views = diagnostic_views(diagnostics@);
        let mut i: usize = 0;
        assert(held + views.take(0) =~= held);
        while i < diagnostics.len()
            invariant
                i <= diagnostics.len(),
                views == diagnostic_views(diagnostics@),
                self.counts(held + views.take(i as int)),
            decreases diagnostics.len() - i,
        {
            let ghost now = held + views.take(i + 1);
            assert(now.drop_last() =~= held + views.take(i as int));
            assert(now.last() == diagnostics@[i as int]@);
            match diagnostics[i].severity {
                DiagnosticSeverity::Info => {
                    self.info = plus_one(self.info);
                },
                DiagnosticSeverity::Warning => {
                    self.warnings = plus_one(self.warnings);
                },
                DiagnosticSeverity::Error => {
                    self.errors = plus_one(self.errors);
                },
            }
            self.total = plus_one(self.total);
            i = i + 1;
        }
        assert(views.take(i as int) =~= views);
    }

    /// The counts of what was counted.
    pub(crate) fn to_counts(&self, Ghost(all): Ghost<Seq<DiagnosticView>>) -> (r: DiagnosticCounts)
        requires
            self.counts(all),
        ensures
            r == counts_of(all),
    {
        proof {
            lemma_severities_add_up(all);
        }
        DiagnosticCounts { info: self.info, warnings: self.warnings, errors: self.errors, total: self.total }
    }
}

/// Count diagnostics by severity.
pub fn diagnostic_counts(diagnostics: &Vec<Diagnostic>) -> (r: DiagnosticCounts)
    ensures
        r == counts_of(diagnostic_views(diagnostics@)),
{
    let mut tally = SeverityTally::new();
    tally.add_all(diagnostics, Ghost(Seq::empty()));
    assert(Seq::<DiagnosticView>::empty() + diagnostic_views(diagnostics@) =~= diagnostic_views(diagnostics@));
    tally.to_counts(Ghost(diagnostic_views(diagnostics@)))
}

/// Complexity summed over every function of a file or area.
///
/// Summing before and after makes a refactor legible as one unit: extracting a
/// helper moves complexity out of one function and into a new one, and only the
/// totals show whether the change reduced complexity or merely relocated it.
#[derive(Debug, Clone, Copy, PartialEq, Eq)]
pub struct AggregateComplexity {
    pub cyclomatic_before: u32,
    pub cyclomatic_after: u32,
    pub cyclomatic_delta: i64,
    pub cognitive_before: u32,
    pub cognitive_after: u32,
    pub cognitive_delta: i64,
    pub source_loc_before: u32,
    pub source_loc_after: u32,
}

/// Sums over functions, before and after a change.
#[verifier::ext_equal]
pub struct Sums {
    pub cyclomatic_before: nat,
    pub cyclomatic_after: nat,
    pub cognitive_before: nat,
    pub cognitive_after: nat,
    pub source_loc_before: nat,
    pub source_loc_after: nat,
}

/// Sums of nothing.
pub open spec fn no_sums() -> Sums {
    Sums { cyclomatic_before: 0, cyclomatic_after: 0, cognitive_before: 0, cognitive_after: 0, source_loc_before: 0, source_loc_after: 0 }
}

/// Sums of sums.
pub open spec fn add_sums(a: Sums, b: Sums) -> Sums {
    Sums {
        cyclomatic_before: a.cyclomatic_before + b.cyclomatic_before,
        cyclomatic_after: a.cyclomatic_after + b.cyclomatic_after,
        cognitive_before: a.cognitive_before + b.cognitive_before,
        cognitive_after: a.cognitive_after + b.cognitive_after,
        source_loc_before: a.source_loc_before + b.source_loc_before,
        source_loc_after: a.source_loc_after + b.source_loc_after,
    }
}

/// What one function adds to the sums of its file.
pub open spec fn sums_of(function: FunctionView) -> Sums {
    Sums {
        cyclomatic_before: or_zero(cyclomatic_of(function.metrics_before)) as nat,
        cyclomatic_after: or_zero(cyclomatic_of(function.metrics_after)) as nat,
        cognitive_before: or_zero(cognitive_of(function.metrics_before)) as nat,
        cognitive_after: or_zero(cognitive_of(function.metrics_after)) as nat,
        source_loc_before: or_zero(source_of(function.metrics_before)) as nat,
        source_loc_after: or_zero(source_of(function.metrics_after)) as nat,
    }
}

/// Sums over several functions.
pub open spec fn sums_over(functions: Seq<FunctionView>) -> Sums
    decreases functions.len(),
{
    if functions.len() == 0 {
        no_sums()
    } else {
        add_sums(sums_over(functions.drop_last()), sums_of(functions.last()))
    }
}

/// The complexity that sums show.
pub open spec fn aggregate(sums: Sums) -> AggregateComplexity {
    let before = saturated(sums.cyclomatic_before);
    let after = saturated(sums.cyclomatic_after);
    let cognitive_before = saturated(sums.cognitive_before);
    let cognitive_after = saturated(sums.cognitive_after);
    AggregateComplexity {
        cyclomatic_before: before,
        cyclomatic_after: after,
        cyclomatic_delta: (after - before) as i64,
        cognitive_before,
        cognitive_after,
        cognitive_delta: (cognitive_after - cognitive_before) as i64,
        source_loc_before: saturated(sums.source_loc_before),
        source_loc_after: saturated(sums.source_loc_after),
    }
}

pub(crate) fn more(a: u32, b: u32, Ghost(x): Ghost<nat>, Ghost(y): Ghost<nat>) -> (r: u32)
    requires
        a == saturated(x),
        b == saturated(y),
    ensures
        r == saturated(x + y),
{
    to_count(a as u64 + b as u64)
}

impl AggregateComplexity {
    pub fn new() -> (r: Self)
        ensures
            r == aggregate(no_sums()),
    {
        AggregateComplexity {
            cyclomatic_before: 0,
            cyclomatic_after: 0,
            cyclomatic_delta: 0,
            cognitive_before: 0,
            cognitive_after: 0,
            cognitive_delta: 0,
            source_loc_before: 0,
            source_loc_after: 0,
        }
    }

    /// Add the complexity of another part.
    pub(crate) fn merge(&mut self, other: &Self, Ghost(held): Ghost<Sums>, Ghost(added): Ghost<Sums>)
        requires
            *old(self) == aggregate(held),
            *other == aggregate(added),
        ensures
            *final(self) == aggregate(add_sums(held, added)),
    {
        let before: u32 = more(self.cyclomatic_before, other.cyclomatic_before, Ghost(held.cyclomatic_before), Ghost(added.cyclomatic_before));
        let after: u32 = more(self.cyclomatic_after, other.cyclomatic_after, Ghost(held.cyclomatic_after), Ghost(added.cyclomatic_after));
        let cognitive_before: u32 = more(self.cognitive_before, other.cognitive_before, Ghost(held.cognitive_before), Ghost(added.cognitive_before));
        let cognitive_after: u32 = more(self.cognitive_after, other.cognitive_after, Ghost(held.cognitive_after), Ghost(added.cognitive_after));
        let source_before: u32 = more(self.source_loc_before, other.source_loc_before, Ghost(held.source_loc_before), Ghost(added.source_loc_before));
        let source_after: u32 = more(self.source_loc_after, other.source_loc_after, Ghost(held.source_loc_after), Ghost(added.source_loc_after));
        *self = AggregateComplexity {
            cyclomatic_before: before,
            cyclomatic_after: after,
            cyclomatic_delta: after as i64 - before as i64,
            cognitive_before,
            cognitive_after,
            cognitive_delta: cognitive_after as i64 - cognitive_before as i64,
            source_loc_before: source_before,
            source_loc_after: source_after,
        };
    }
}

fn own_complexity(function: &FunctionResult) -> (r: AggregateComplexity)
    ensures
        r == aggregate(sums_of(function@)),
{
    let (before, cognitive_before, source_before): (u32, u32, u32) = match &function.metrics_before {
        Some(m) => (m.cyclomatic_complexity, m.cognitive_complexity, m.source_loc),
        None => (0, 0, 0),
    };
    let (after, cognitive_after, source_after): (u32, u32, u32) = match &function.metrics_after {
        Some(m) => (m.cyclomatic_complexity, m.cognitive_complexity, m.source_loc),
        None => (0, 0, 0),
    };
    AggregateComplexity {
        cyclomatic_before: before,
        cyclomatic_after: after,
        cyclomatic_delta: after as i64 - before as i64,
        cognitive_before,
        cognitive_after,
        cognitive_delta: cognitive_after as i64 - cognitive_before as i64,
        source_loc_before: source_before,
        source_loc_after: source_after,
    }
}

/// Sum a file's complexity across every function it contains.
///
/// Every function is counted, those the diff did not touch too, because the
/// totals only answer "did this change move complexity or remove it?" when both
/// revisions are measured whole.
pub fn aggregate_complexity(file: &FileResult) -> (r: AggregateComplexity)
    ensures
        r == aggregate(sums_over(file@.functions)),
{
    let ghost functions = file@.functions;
    let mut total = AggregateComplexity::new();
    let mut i: usize = 0;
    assert(functions.take(0) =~= Seq::<FunctionView>::empty());
    while i < file.functions.len()
        invariant
            i <= file.functions.len(),
            functions == function_views(file.functions@),
            total == aggregate(sums_over(functions.take(i as int))),
        decreases file.functions.len() - i,
    {
        assert(functions.take(i + 1).drop_last() =~= functions.take(i as int));
        assert(functions.take(i + 1).last() == file.functions@[i as int]@);
        let own = own_complexity(&file.functions[i]);
        total.merge(&own, Ghost(sums_over(functions.take(i as int))), Ghost(sums_of(functions[i as int])));
        i = i + 1;
    }
    assert(functions.take(i as int) =~= functions);
    total
}

/// Whether a directory holds one project per child directory.
pub open spec fn holds_packages(segment: Seq<char>) -> bool {
    segment == "apps"@ || segment == "crates"@ || segment == "libs"@ || segment == "modules"@ || segment == "packages"@ || segment
        == "packages-private"@ || segment == "services"@
}

/// The area that a path belongs to: the child directory where the first
/// directory holds one project per child, else the first directory.
pub open spec fn area_of(path: Seq<char>) -> Seq<char> {
    let segments = split_on(path, '/');
    if segments.len() < 2 {
        "<root>"@
    } else if holds_packages(segments[0]) {
        segments[0] + "/"@ + segments[1]
    } else {
        segments[0]
    }
}

/// Group a path by the project it belongs to.
///
/// Inside a directory that holds one project per child, such as `packages`, the
/// area is that child. Otherwise it is the top-level directory. The name is the
/// path itself: nothing in a diff says what a directory is for.
#[must_use]
pub fn change_area(path: &str) -> (r: String)
    ensures
        r@ == area_of(path@),
{
    let segments = split_text(path, '/');
    if segments.len() < 2 {
        return "<root>".to_owned();
    }
    let first = segments[0].as_str();
    assert(split_on(path@, '/')[0] == first@);
    assert(split_on(path@, '/')[1] == segments@[1]@);
    if same_text(first, "apps") || same_text(first, "crates") || same_text(first, "libs") || same_text(first, "modules") || same_text(first, "packages")
        || same_text(first, "packages-private") || same_text(first, "services") {
        join3(first, "/", segments[1].as_str())
    } else {
        first.to_owned()
    }
}

/// The higher-scoring of two verdicts, the first where they tie.
pub open spec fn greater_of(highest: ScoreView, candidate: ScoreView) -> ScoreView {
    if candidate.score > highest.score {
        candidate
    } else {
        highest
    }
}

/// A model's verdict on what scored nothing.
pub open spec fn zero_verdict(model: Seq<char>, maximum_score: u32) -> ScoreView {
    ScoreView { model, maximum_score, score: 0, level: RiskLevel::Low, reasons: Seq::empty() }
}

/// The highest verdicts of both models among the functions of a file that the
/// change touched, if it touched any.
pub open spec fn highest_in(file: FileView, functions: Seq<FunctionView>, importers: Option<u32>) -> Option<RiskView>
    decreases functions.len(),
{
    if functions.len() == 0 {
        None
    } else {
        let before = highest_in(file, functions.drop_last(), importers);
        if functions.last().status == FunctionChangeStatus::Unchanged {
            before
        } else {
            let own = assessment_of(signals_of(file, functions.last(), importers));
            match before {
                Some(highest) => Some(
                    RiskView {
                        risk: greater_of(highest.risk, own.risk),
                        review_priority: greater_of(highest.review_priority, own.review_priority),
                    },
                ),
                None => Some(own),
            }
        }
    }
}

/// What both models say of a file.
pub open spec fn file_risk(file: FileView, importers: Option<u32>) -> RiskView {
    match highest_in(file, file.functions, importers) {
        Some(highest) => highest,
        None => RiskView {
            risk: zero_verdict(RISK_MODEL@, RISK_MAXIMUM_SCORE),
            review_priority: zero_verdict(REVIEW_PRIORITY_MODEL@, REVIEW_PRIORITY_MAXIMUM_SCORE),
        },
    }
}

fn greater(highest: ScoreAssessment, candidate: ScoreAssessment) -> (r: ScoreAssessment)
    ensures
        r@ == greater_of(highest@, candidate@),
{
    if candidate.score > highest.score {
        candidate
    } else {
        highest
    }
}

fn zero_assessment(model: &'static str, maximum_score: u32) -> (r: ScoreAssessment)
    ensures
        r@ == zero_verdict(model@, maximum_score),
{
    let r = ScoreAssessment { model, maximum_score, score: 0, level: RiskLevel::Low, reasons: Vec::new() };
    assert(r@ =~= zero_verdict(model@, maximum_score));
    r
}

/// A file is as deep in review as the riskiest function changed inside it.
///
/// The two models are kept apart: a module can hold a function that is complex
/// but little depended on, and one that is simple but breaks every importer of
/// it. A file whose change touched no function carries a zero assessment.
pub fn file_assessment(file: &FileResult, role: FileClassification, importers: Option<u32>) -> (r: RiskAssessment)
    requires
        role == classification(path_of(file@)),
    ensures
        r@ == file_risk(file@, importers),
{
    let ghost functions = file@.functions;
    let mut highest: Option<RiskAssessment> = None;
    let mut i: usize = 0;
    assert(functions.take(0) =~= Seq::<FunctionView>::empty());
    while i < file.functions.len()
        invariant
            i <= file.functions.len(),
            functions == function_views(file.functions@),
            role == classification(path_of(file@)),
            match highest {
                Some(assessment) => highest_in(file@, functions.take(i as int), importers) == Some(assessment@),
                None => highest_in(file@, functions.take(i as int), importers) is None,
            },
        decreases file.functions.len() - i,
    {
        let function = &file.functions[i];
        assert(functions.take(i + 1).drop_last() =~= functions.take(i as int));
        assert(functions.take(i + 1).last() == function@);
        if function.status != FunctionChangeStatus::Unchanged {
            let own = assess(&signals_for(file, function, role, importers));
            highest = match highest {
                Some(known) => Some(
                    RiskAssessment {
                        risk: greater(known.risk, own.risk),
                        review_priority: greater(known.review_priority, own.review_priority),
                    },
                ),
                None => Some(own),
            };
        }
        i = i + 1;
    }
    assert(functions.take(i as int) =~= functions);
    match highest {
        Some(assessment) => assessment,
        None => RiskAssessment {
            risk: zero_assessment(RISK_MODEL, RISK_MAXIMUM_SCORE),
            review_priority: zero_assessment(REVIEW_PRIORITY_MODEL, REVIEW_PRIORITY_MAXIMUM_SCORE),
        },
    }
}

pub(crate) proof fn lemma_highest(file: FileView, functions: Seq<FunctionView>, importers: Option<u32>)
    ensures
        match highest_in(file, functions, importers) {
            Some(highest) => {
                &&& highest.risk.score <= highest.review_priority.score
                &&& highest.risk.level == level_of(highest.risk.score as int)
                &&& highest.review_priority.level == level_of(highest.review_priority.score as int)
                &&& forall|i: int| #![trigger functions[i]]
                    0 <= i < functions.len() && functions[i].status != FunctionChangeStatus::Unchanged ==> assessment_of(
                        signals_of(file, functions[i], importers),
                    ).risk.score <= highest.risk.score && assessment_of(signals_of(file, functions[i], importers)).review_priority.score
                        <= highest.review_priority.score
            },
            None => forall|i: int| 0 <= i < functions.len() ==> (#[trigger] functions[i]).status == FunctionChangeStatus::Unchanged,
        },
    decreases functions.len(),
{
    if functions.len() > 0 {
        let shorter = functions.drop_last();
        lemma_highest(file, shorter, importers);
        lemma_scores_bounded(signals_of(file, functions.last(), importers));
        assert forall|i: int| 0 <= i < functions.len() implies #[trigger] functions[i] == (if i < shorter.len() {
            shorter[i]
        } else {
            functions.last()
        }) by {}
    }
}

/// A file is never owed less review than its risk alone calls for, and no
/// changed function in it is scored above it.
pub proof fn lemma_file_risk_covers(file: FileView, importers: Option<u32>, i: int)
    requires
        0 <= i < file.functions.len(),
        file.functions[i].status != FunctionChangeStatus::Unchanged,
    ensures
        file_risk(file, importers).risk.score <= file_risk(file, importers).review_priority.score,
        assessment_of(signals_of(file, file.functions[i], importers)).risk.score <= file_risk(file, importers).risk.score,
        assessment_of(signals_of(file, file.functions[i], importers)).review_priority.score <= file_risk(file, importers).review_priority.score,
{
    lemma_highest(file, file.functions, importers);
}

/// The level of a file's review priority is at least that of its risk.
pub proof fn lemma_priority_at_least_risk(file: FileView, importers: Option<u32>)
    ensures
        crate::query::functions::level_place(file_risk(file, importers).risk.level) <= crate::query::functions::level_place(
            file_risk(file, importers).review_priority.level,
        ),
{
    lemma_highest(file, file.functions, importers);
}

/// Whether an added function is a substantial helper.
pub open spec fn is_helper(function: FunctionView) -> bool {
    function.status == FunctionChangeStatus::Added && or_zero(cognitive_of(function.metrics_after)) >= SUBSTANTIAL_HELPER_COGNITIVE
}

/// Whether a changed or removed function lost cognitive complexity.
pub open spec fn is_shrunk(function: FunctionView) -> bool {
    (function.status == FunctionChangeStatus::Modified || function.status == FunctionChangeStatus::Removed) && or_zero(
        cognitive_of(function.metrics_after),
    ) < or_zero(cognitive_of(function.metrics_before))
}

/// Whether a change is an extraction: a function shrinks, a helper takes the
/// work it gave up, and the file ends up no more complex than it started.
pub open spec fn is_extraction(file: FileView) -> bool {
    &&& aggregate(sums_over(file.functions)).cognitive_delta <= 0
    &&& exists|i: int| 0 <= i < file.functions.len() && is_helper(#[trigger] file.functions[i])
    &&& exists|i: int| 0 <= i < file.functions.len() && is_shrunk(#[trigger] file.functions[i])
}

/// The shape of a change to a file.
pub open spec fn shape_of(file: FileView) -> Seq<char> {
    if is_extraction(file) {
        COMPLEXITY_EXTRACTION@
    } else {
        OTHER_CHANGE_SHAPE@
    }
}

/// Whether a change moved complexity out of a function into new ones.
///
/// A helper that adds more complexity than the function gave up is growth
/// rather than extraction, and the file's own total is what tells them apart.
#[must_use]
pub fn change_shape(file: &FileResult) -> (r: &'static str)
    ensures
        r@ == shape_of(file@),
{
    let ghost functions = file@.functions;
    let mut helper = false;
    let mut shrunk = false;
    let mut i: usize = 0;
    while i < file.functions.len()
        invariant
            i <= file.functions.len(),
            functions == function_views(file.functions@),
            helper <==> exists|k: int| 0 <= k < i && is_helper(#[trigger] functions[k]),
            shrunk <==> exists|k: int| 0 <= k < i && is_shrunk(#[trigger] functions[k]),
        decreases file.functions.len() - i,
    {
        let function = &file.functions[i];
        assert(functions[i as int] == function@);
        let after: u32 = match &function.metrics_after {
            Some(m) => m.cognitive_complexity,
            None => 0,
        };
        let before: u32 = match &function.metrics_before {
            Some(m) => m.cognitive_complexity,
            None => 0,
        };
        if function.status == FunctionChangeStatus::Added && after >= SUBSTANTIAL_HELPER_COGNITIVE {
            assert(is_helper(functions[i as int]));
            helper = true;
        }
        if (function.status == FunctionChangeStatus::Modified || function.status == FunctionChangeStatus::Removed) && after < before {
            assert(is_shrunk(functions[i as int]));
            shrunk = true;
        }
        i = i + 1;
    }
    if aggregate_complexity(file).cognitive_delta <= 0 && helper && shrunk {
        COMPLEXITY_EXTRACTION
    } else {
        OTHER_CHANGE_SHAPE
    }
}

} // verus!
