//! The result of one analysis.

use vstd::prelude::*;

use crate::analysis::{FunctionChangeStatus, FunctionChurn, MatchConfidence};
use crate::collections::{arranged, copy_option, copy_texts};
use crate::languages::{call_views, CallSite, CallView, DiagnosticSeverity, FunctionKind, Language, SourceRange};
use crate::metrics::FunctionMetrics;
use crate::order::{arrange_by, by_rank, compare_numbers, compare_options, number_rank, option_rank, or_else, otherwise};
use crate::text::{compare, text_option, text_rank, texts, Rank};
use crate::{DiffHunk, FileStatus};

verus! {

pub const SCHEMA_VERSION: u32 = 1;

#[derive(Debug, Clone, PartialEq, Eq)]
pub struct AnalysisResult {
    pub schema_version: u32,
    pub tool_version: String,
    pub repository: String,
    pub base: RevisionResult,
    pub target: RevisionResult,
    pub summary: AnalysisSummary,
    pub files: Vec<FileResult>,
    pub diagnostics: Vec<Diagnostic>,
}

#[derive(Debug, Clone, PartialEq, Eq)]
pub struct RevisionResult {
    pub id: String,
    pub display_name: String,
}

#[derive(Debug, Clone, Copy, PartialEq, Eq, Structural)]
pub struct AnalysisSummary {
    pub changed_files: u32,
    pub added_lines: u32,
    pub removed_lines: u32,
    pub supported_files: u32,
    pub unsupported_files: u32,
    pub diagnostics: DiagnosticCounts,
}

#[derive(Debug, Clone, Copy, PartialEq, Eq, Structural)]
pub struct DiagnosticCounts {
    pub info: u32,
    pub warning: u32,
    pub error: u32,
}

#[derive(Debug, Clone, PartialEq, Eq)]
pub struct FileResult {
    pub base_path: Option<String>,
    pub target_path: Option<String>,
    pub status: FileStatus,
    pub language: Option<Language>,
    pub is_binary: bool,
    pub added_lines: u32,
    pub removed_lines: u32,
    pub hunks: Vec<DiffHunk>,
    pub functions: Vec<FunctionResult>,
    /// Names added to and removed from this module's public surface.
    pub exports_added: Vec<String>,
    pub exports_removed: Vec<String>,
    pub diagnostics: Vec<Diagnostic>,
}

#[derive(Debug, Clone, PartialEq, Eq)]
pub struct FunctionResult {
    pub id: String,
    pub status: FunctionChangeStatus,
    pub kind: FunctionKind,
    pub qualified_name: String,
    pub base_range: Option<SourceRange>,
    pub target_range: Option<SourceRange>,
    pub metrics_before: Option<FunctionMetrics>,
    pub metrics_after: Option<FunctionMetrics>,
    /// Calls written in the body before and after the change.
    pub calls_before: Vec<CallSite>,
    pub calls_after: Vec<CallSite>,
    pub churn: FunctionChurn,
    pub match_confidence: MatchConfidence,
    pub diagnostics: Vec<Diagnostic>,
}

#[derive(Debug, Clone, PartialEq, Eq)]
pub struct Diagnostic {
    pub code: DiagnosticCode,
    pub severity: DiagnosticSeverity,
    pub message: String,
    pub path: Option<String>,
    pub range: Option<SourceRange>,
    pub related_entity_ids: Vec<String>,
}

#[derive(Debug, Clone, Copy, PartialEq, Eq, PartialOrd, Ord, Structural)]
pub enum DiagnosticCode {
    UnsupportedLanguage,
    BinaryFile,
    MalformedSource,
    ParseError,
    InvalidUtf8,
    OversizedFile,
    MissingBlob,
    GitError,
    AmbiguousFunctionMatch,
    MetricUnavailable,
}

/// A revision by what its texts hold.
#[verifier::ext_equal]
pub struct RevisionView {
    pub id: Seq<char>,
    pub display_name: Seq<char>,
}

impl View for RevisionResult {
    type V = RevisionView;

    open spec fn view(&self) -> RevisionView {
        RevisionView { id: self.id@, display_name: self.display_name@ }
    }
}

/// A diagnostic by what its texts hold.
#[verifier::ext_equal]
pub struct DiagnosticView {
    pub code: DiagnosticCode,
    pub severity: DiagnosticSeverity,
    pub message: Seq<char>,
    pub path: Option<Seq<char>>,
    pub range: Option<SourceRange>,
    pub related_entity_ids: Seq<Seq<char>>,
}

impl View for Diagnostic {
    type V = DiagnosticView;

    open spec fn view(&self) -> DiagnosticView {
        DiagnosticView {
            code: self.code,
            severity: self.severity,
            message: self.message@,
            path: text_option(self.path),
            range: self.range,
            related_entity_ids: texts(self.related_entity_ids@),
        }
    }
}

/// The views of a sequence of diagnostics.
pub open spec fn diagnostic_views(diagnostics: Seq<Diagnostic>) -> Seq<DiagnosticView> {
    diagnostics.map_values(|d: Diagnostic| d@)
}

/// A function result by what it holds.
#[verifier::ext_equal]
pub struct FunctionView {
    pub id: Seq<char>,
    pub status: FunctionChangeStatus,
    pub kind: FunctionKind,
    pub qualified_name: Seq<char>,
    pub base_range: Option<SourceRange>,
    pub target_range: Option<SourceRange>,
    pub metrics_before: Option<FunctionMetrics>,
    pub metrics_after: Option<FunctionMetrics>,
    pub calls_before: Seq<CallView>,
    pub calls_after: Seq<CallView>,
    pub churn: FunctionChurn,
    pub match_confidence: MatchConfidence,
    pub diagnostics: Seq<DiagnosticView>,
}

impl View for FunctionResult {
    type V = FunctionView;

    open spec fn view(&self) -> FunctionView {
        FunctionView {
            id: self.id@,
            status: self.status,
            kind: self.kind,
            qualified_name: self.qualified_name@,
            base_range: self.base_range,
            target_range: self.target_range,
            metrics_before: self.metrics_before,
            metrics_after: self.metrics_after,
            calls_before: call_views(self.calls_before@),
            calls_after: call_views(self.calls_after@),
            churn: self.churn,
            match_confidence: self.match_confidence,
            diagnostics: diagnostic_views(self.diagnostics@),
        }
    }
}

/// The views of a sequence of function results.
pub open spec fn function_views(functions: Seq<FunctionResult>) -> Seq<FunctionView> {
    functions.map_values(|f: FunctionResult| f@)
}

/// A file result by what it holds.
#[verifier::ext_equal]
pub struct FileView {
    pub base_path: Option<Seq<char>>,
    pub target_path: Option<Seq<char>>,
    pub status: FileStatus,
    pub language: Option<Language>,
    pub is_binary: bool,
    pub added_lines: u32,
    pub removed_lines: u32,
    pub hunks: Seq<DiffHunk>,
    pub functions: Seq<FunctionView>,
    pub exports_added: Seq<Seq<char>>,
    pub exports_removed: Seq<Seq<char>>,
    pub diagnostics: Seq<DiagnosticView>,
}

impl View for FileResult {
    type V = FileView;

    open spec fn view(&self) -> FileView {
        FileView {
            base_path: text_option(self.base_path),
            target_path: text_option(self.target_path),
            status: self.status,
            language: self.language,
            is_binary: self.is_binary,
            added_lines: self.added_lines,
            removed_lines: self.removed_lines,
            hunks: self.hunks@,
            functions: function_views(self.functions@),
            exports_added: texts(self.exports_added@),
            exports_removed: texts(self.exports_removed@),
            diagnostics: diagnostic_views(self.diagnostics@),
        }
    }
}

/// The views of a sequence of file results.
pub open spec fn file_views(files: Seq<FileResult>) -> Seq<FileView> {
    files.map_values(|f: FileResult| f@)
}

/// An analysis by what it holds.
#[verifier::ext_equal]
pub struct ResultView {
    pub schema_version: u32,
    pub tool_version: Seq<char>,
    pub repository: Seq<char>,
    pub base: RevisionView,
    pub target: RevisionView,
    pub summary: AnalysisSummary,
    pub files: Seq<FileView>,
    pub diagnostics: Seq<DiagnosticView>,
}

impl View for AnalysisResult {
    type V = ResultView;

    open spec fn view(&self) -> ResultView {
        ResultView {
            schema_version: self.schema_version,
            tool_version: self.tool_version@,
            repository: self.repository@,
            base: self.base@,
            target: self.target@,
            summary: self.summary,
            files: file_views(self.files@),
            diagnostics: diagnostic_views(self.diagnostics@),
        }
    }
}

impl Diagnostic {
    /// An equal diagnostic.
    pub fn copy(&self) -> (r: Diagnostic)
        ensures
            r@ == self@,
    {
        Diagnostic {
            code: self.code,
            severity: self.severity,
            message: self.message.clone(),
            path: copy_option(&self.path),
            range: self.range,
            related_entity_ids: copy_texts(&self.related_entity_ids),
        }
    }
}

impl Default for DiagnosticCounts {
    fn default() -> (r: Self)
        ensures
            r == (DiagnosticCounts { info: 0, warning: 0, error: 0 }),
    {
        DiagnosticCounts { info: 0, warning: 0, error: 0 }
    }
}

impl Default for AnalysisSummary {
    fn default() -> (r: Self)
        ensures
            r == (AnalysisSummary {
                changed_files: 0,
                added_lines: 0,
                removed_lines: 0,
                supported_files: 0,
                unsupported_files: 0,
                diagnostics: DiagnosticCounts { info: 0, warning: 0, error: 0 },
            }),
    {
        AnalysisSummary {
            changed_files: 0,
            added_lines: 0,
            removed_lines: 0,
            supported_files: 0,
            unsupported_files: 0,
            diagnostics: DiagnosticCounts::default(),
        }
    }
}

impl DiagnosticCounts {
    /// The counts with one more diagnostic; a count stays at the largest number
    /// it can reach.
    pub open spec fn with(self, severity: DiagnosticSeverity) -> DiagnosticCounts {
        match severity {
            DiagnosticSeverity::Info => DiagnosticCounts { info: one_more(self.info), ..self },
            DiagnosticSeverity::Warning => DiagnosticCounts { warning: one_more(self.warning), ..self },
            DiagnosticSeverity::Error => DiagnosticCounts { error: one_more(self.error), ..self },
        }
    }

    /// Count one more diagnostic.
    pub fn add(&mut self, severity: DiagnosticSeverity)
        ensures
            *final(self) == old(self).with(severity),
    {
        match severity {
            DiagnosticSeverity::Info => {
                self.info = self.info.saturating_add(1);
            },
            DiagnosticSeverity::Warning => {
                self.warning = self.warning.saturating_add(1);
            },
            DiagnosticSeverity::Error => {
                self.error = self.error.saturating_add(1);
            },
        }
    }
}

/// A count with one more, up to the largest it can reach.
pub open spec fn one_more(n: u32) -> u32 {
    if n < u32::MAX {
        (n + 1) as u32
    } else {
        n
    }
}

/// The place of a severity in a report: errors come first.
pub open spec fn severity_place(severity: DiagnosticSeverity) -> int {
    match severity {
        DiagnosticSeverity::Error => 0,
        DiagnosticSeverity::Warning => 1,
        DiagnosticSeverity::Info => 2,
    }
}

fn severity_rank(severity: DiagnosticSeverity) -> (r: u64)
    ensures
        r == severity_place(severity),
{
    match severity {
        DiagnosticSeverity::Error => 0,
        DiagnosticSeverity::Warning => 1,
        DiagnosticSeverity::Info => 2,
    }
}

/// The place of a code in the order of diagnostics.
pub open spec fn code_place(code: DiagnosticCode) -> int {
    match code {
        DiagnosticCode::UnsupportedLanguage => 0,
        DiagnosticCode::BinaryFile => 1,
        DiagnosticCode::MalformedSource => 2,
        DiagnosticCode::ParseError => 3,
        DiagnosticCode::InvalidUtf8 => 4,
        DiagnosticCode::OversizedFile => 5,
        DiagnosticCode::MissingBlob => 6,
        DiagnosticCode::GitError => 7,
        DiagnosticCode::AmbiguousFunctionMatch => 8,
        DiagnosticCode::MetricUnavailable => 9,
    }
}

pub(crate) fn code_number(code: DiagnosticCode) -> (r: u64)
    ensures
        r == code_place(code),
{
    match code {
        DiagnosticCode::UnsupportedLanguage => 0,
        DiagnosticCode::BinaryFile => 1,
        DiagnosticCode::MalformedSource => 2,
        DiagnosticCode::ParseError => 3,
        DiagnosticCode::InvalidUtf8 => 4,
        DiagnosticCode::OversizedFile => 5,
        DiagnosticCode::MissingBlob => 6,
        DiagnosticCode::GitError => 7,
        DiagnosticCode::AmbiguousFunctionMatch => 8,
        DiagnosticCode::MetricUnavailable => 9,
    }
}

/// The four numbers of a range; the largest where there is none.
pub open spec fn range_numbers(range: Option<SourceRange>) -> (int, int, int, int) {
    match range {
        Some(r) => (r.start_line as int, r.start_column as int, r.end_line as int, r.end_column as int),
        None => (u32::MAX as int, u32::MAX as int, u32::MAX as int, u32::MAX as int),
    }
}

/// Where four numbers stand relative to four others.
pub open spec fn four_rank(a: (int, int, int, int), b: (int, int, int, int)) -> Rank {
    otherwise(number_rank(a.0, b.0), otherwise(number_rank(a.1, b.1), otherwise(number_rank(a.2, b.2), number_rank(a.3, b.3))))
}

/// Where four numbers stand relative to four others.
pub(crate) fn compare_four(a: (u32, u32, u32, u32), b: (u32, u32, u32, u32)) -> (r: Rank)
    ensures
        r == four_rank((a.0 as int, a.1 as int, a.2 as int, a.3 as int), (b.0 as int, b.1 as int, b.2 as int, b.3 as int)),
{
    or_else(
        compare_numbers(a.0 as u64, b.0 as u64),
        or_else(
            compare_numbers(a.1 as u64, b.1 as u64),
            or_else(compare_numbers(a.2 as u64, b.2 as u64), compare_numbers(a.3 as u64, b.3 as u64)),
        ),
    )
}

fn range_key(range: &Option<SourceRange>) -> (r: (u32, u32, u32, u32))
    ensures
        range_numbers(*range) == (r.0 as int, r.1 as int, r.2 as int, r.3 as int),
{
    match range {
        Some(r) => (r.start_line, r.start_column, r.end_line, r.end_column),
        None => (u32::MAX, u32::MAX, u32::MAX, u32::MAX),
    }
}

/// Where one diagnostic stands relative to another in a report.
pub open spec fn diagnostic_rank(a: DiagnosticView, b: DiagnosticView) -> Rank {
    otherwise(
        number_rank(severity_place(a.severity), severity_place(b.severity)),
        otherwise(
            number_rank(code_place(a.code), code_place(b.code)),
            otherwise(
                option_rank(a.path, b.path),
                otherwise(four_rank(range_numbers(a.range), range_numbers(b.range)), text_rank(a.message, b.message)),
            ),
        ),
    )
}

/// The ranks by which the diagnostics of a report are sorted.
pub open spec fn diagnostic_order() -> spec_fn(DiagnosticView, DiagnosticView) -> Rank {
    |a: DiagnosticView, b: DiagnosticView| diagnostic_rank(a, b)
}

fn compare_diagnostics(a: &Diagnostic, b: &Diagnostic) -> (r: Rank)
    ensures
        r == diagnostic_rank(a@, b@),
{
    or_else(
        compare_numbers(severity_rank(a.severity), severity_rank(b.severity)),
        or_else(
            compare_numbers(code_number(a.code), code_number(b.code)),
            or_else(
                compare_options(&a.path, &b.path),
                or_else(
                    compare_four(range_key(&a.range), range_key(&b.range)),
                    compare(a.message.as_str(), b.message.as_str()),
                ),
            ),
        ),
    )
}

/// Sort the diagnostics of a report.
pub fn sort_diagnostics(diagnostics: &mut Vec<Diagnostic>)
    ensures
        diagnostic_views(final(diagnostics)@) == arranged(diagnostic_views(old(diagnostics)@), by_rank(diagnostic_order())),
{
    let rank_of = |a: &Diagnostic, b: &Diagnostic| -> (r: Rank)
        ensures
            r == diagnostic_rank(a@, b@),
    {
        compare_diagnostics(a, b)
    };
    arrange_by::<Diagnostic, DiagnosticView, _>(diagnostics, rank_of, Ghost(|d: Diagnostic| d@), Ghost(diagnostic_order()));
}

} // verus!
