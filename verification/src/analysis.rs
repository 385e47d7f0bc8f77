//! Matching the functions of a file's two revisions.

use vstd::prelude::*;

use crate::collections::{arranged, copy_option, difference, in_sequence, lemma_arranged_keeps, listed, TextSet};
use crate::languages::typescript::{kind_label, kind_name};
use crate::languages::{
    analyze_source, call_views, copy_calls, definition_views, diagnostic_views, source_outcome, CallSite, CallView, DefinitionView, DiagnosticSeverity, FunctionDefinition, FunctionKind,
    Language, LanguageDiagnostic, LanguageDiagnosticCode, LanguageDiagnosticView, SourceRange,
};
use crate::metrics::FunctionMetrics;
use crate::order::{
    arrange_by, by_rank, compare_numbers, compare_options, flipped, lawful, lemma_lawful_by, lemma_lawful_otherwise, lemma_numbers_lawful,
    lemma_same_multiset, lemma_sorted_by_rank, lemma_strictly_distinct, lemma_texts_lawful, number_rank, option_rank, or_else, otherwise, strictly,
};
use crate::text::{compare, join2, same_text, text_option, text_rank, texts, Rank};
use crate::{BlobContent, BlobView, DiffHunk, DiffScopeError, ErrorView, FileChange, FileChangeView, FileStatus};

verus! {

#[derive(Debug, Clone, PartialEq, Eq)]
pub struct FileFunctionChanges {
    pub base_path: Option<String>,
    pub target_path: Option<String>,
    pub functions: Vec<FunctionChange>,
    /// Names added to and removed from this module's public surface.
    pub exports_added: Vec<String>,
    pub exports_removed: Vec<String>,
    pub diagnostics: Vec<FunctionMappingDiagnostic>,
}

#[derive(Debug, Clone, PartialEq, Eq)]
pub struct FunctionChange {
    pub status: FunctionChangeStatus,
    pub language: Language,
    pub kind: FunctionKind,
    pub qualified_name: String,
    pub base_range: Option<SourceRange>,
    pub target_range: Option<SourceRange>,
    pub metrics_before: Option<FunctionMetrics>,
    pub metrics_after: Option<FunctionMetrics>,
    /// Calls written in the body before and after the change.
    pub calls_before: Vec<CallSite>,
    pub calls_after: Vec<CallSite>,
    pub churn: FunctionChurn,
    pub match_confidence: MatchConfidence,
}

/// How much of a function the hunks of its file change.
#[derive(Debug, Clone, Copy, PartialEq, Eq, Structural)]
pub struct FunctionChurn {
    /// Changed lines inside the function before the change.
    pub lines_removed: u32,
    /// Changed lines inside the function after the change.
    pub lines_added: u32,
    /// Hunks that touch the function on either side.
    pub changed_hunks: u32,
}

/// How a function was paired with its earlier self.
#[derive(Debug, Clone, Copy, PartialEq, Eq, Structural)]
pub enum MatchConfidence {
    /// The only functions of their identity on both sides.
    Exact,
    /// One of several functions of an identity, with the same body.
    IdenticalBody,
    /// One of several functions of an identity, by its position.
    Positional,
}

#[derive(Debug, Clone, Copy, PartialEq, Eq, Structural)]
pub enum FunctionChangeStatus {
    Added,
    Removed,
    Modified,
    Unchanged,
}

#[derive(Debug, Clone, PartialEq, Eq)]
pub struct FunctionMappingDiagnostic {
    pub code: FunctionMappingDiagnosticCode,
    pub severity: DiagnosticSeverity,
    pub message: String,
    pub range: Option<SourceRange>,
    pub qualified_name: Option<String>,
}

#[derive(Debug, Clone, Copy, PartialEq, Eq, Structural)]
pub enum FunctionMappingDiagnosticCode {
    AmbiguousFunctionMatch,
    UnsupportedLanguage,
    MalformedSource,
    ParseError,
    InvalidUtf8,
    OversizedFile,
    BlobUnavailable,
}

impl MatchConfidence {
    /// The confidence in tenths.
    pub open spec fn tenths(self) -> u32 {
        match self {
            MatchConfidence::Exact => 10,
            MatchConfidence::IdenticalBody => 9,
            MatchConfidence::Positional => 6,
        }
    }

    /// The confidence in tenths.
    pub fn as_tenths(self) -> (r: u32)
        ensures
            r == self.tenths(),
    {
        match self {
            MatchConfidence::Exact => 10,
            MatchConfidence::IdenticalBody => 9,
            MatchConfidence::Positional => 6,
        }
    }
}

/// A function change by what its texts hold.
#[verifier::ext_equal]
pub struct FunctionChangeView {
    pub status: FunctionChangeStatus,
    pub language: Language,
    pub kind: FunctionKind,
    pub qualified_name: Seq<char>,
    pub base_range: Option<SourceRange>,
    pub target_range: Option<SourceRange>,
    pub metrics_before: Option<FunctionMetrics>,
    pub metrics_after: Option<FunctionMetrics>,
    pub calls_before: Seq<CallView>,
    pub calls_after: Seq<CallView>,
    pub churn: FunctionChurn,
    pub match_confidence: MatchConfidence,
}

impl View for FunctionChange {
    type V = FunctionChangeView;

    open spec fn view(&self) -> FunctionChangeView {
        FunctionChangeView {
            status: self.status,
            language: self.language,
            kind: self.kind,
            qualified_name: self.qualified_name@,
            base_range: self.base_range,
            target_range: self.target_range,
            metrics_before: self.metrics_before,
            metrics_after: self.metrics_after,
            calls_before: call_views(self.calls_before@),
            calls_after: call_views(self.calls_after@),
            churn: self.churn,
            match_confidence: self.match_confidence,
        }
    }
}

/// The views of a sequence of function changes.
pub open spec fn function_change_views(changes: Seq<FunctionChange>) -> Seq<FunctionChangeView> {
    changes.map_values(|c: FunctionChange| c@)
}

/// A mapping diagnostic by what its texts hold.
#[verifier::ext_equal]
pub struct MappingDiagnosticView {
    pub code: FunctionMappingDiagnosticCode,
    pub severity: DiagnosticSeverity,
    pub message: Seq<char>,
    pub range: Option<SourceRange>,
    pub qualified_name: Option<Seq<char>>,
}

impl View for FunctionMappingDiagnostic {
    type V = MappingDiagnosticView;

    open spec fn view(&self) -> MappingDiagnosticView {
        MappingDiagnosticView {
            code: self.code,
            severity: self.severity,
            message: self.message@,
            range: self.range,
            qualified_name: text_option(self.qualified_name),
        }
    }
}

/// The views of a sequence of mapping diagnostics.
pub open spec fn mapping_views(diagnostics: Seq<FunctionMappingDiagnostic>) -> Seq<MappingDiagnosticView> {
    diagnostics.map_values(|d: FunctionMappingDiagnostic| d@)
}

/// The function changes of a file by what they hold.
#[verifier::ext_equal]
pub struct FileFunctionsView {
    pub base_path: Option<Seq<char>>,
    pub target_path: Option<Seq<char>>,
    pub functions: Seq<FunctionChangeView>,
    pub exports_added: Seq<Seq<char>>,
    pub exports_removed: Seq<Seq<char>>,
    pub diagnostics: Seq<MappingDiagnosticView>,
}

impl View for FileFunctionChanges {
    type V = FileFunctionsView;

    open spec fn view(&self) -> FileFunctionsView {
        FileFunctionsView {
            base_path: text_option(self.base_path),
            target_path: text_option(self.target_path),
            functions: function_change_views(self.functions@),
            exports_added: texts(self.exports_added@),
            exports_removed: texts(self.exports_removed@),
            diagnostics: mapping_views(self.diagnostics@),
        }
    }
}

/// Whether a change of `count` lines at `start` touches a range on one side.
/// A change of no lines stands between two lines and touches what borders it.
pub open spec fn touches(range: SourceRange, start: u32, count: u32) -> bool {
    if count == 0 {
        range.start_line - 1 <= start <= range.end_line
    } else {
        start <= range.end_line && start + count - 1 >= range.start_line
    }
}

/// Whether a change of `count` lines at `start` touches a range.
pub fn range_intersects_hunk_side(range: &SourceRange, start: u32, count: u32) -> (r: bool)
    ensures
        r == touches(*range, start, count),
{
    if count == 0 {
        return start as u64 + 1 >= range.start_line as u64 && start <= range.end_line;
    }
    let end: u64 = start as u64 + (count as u64 - 1);
    start <= range.end_line && end >= range.start_line as u64
}

/// The lines of a change that lie inside a range.
pub open spec fn lines_inside(range: SourceRange, start: u32, count: u32) -> nat {
    let first = if start > range.start_line {
        start as int
    } else {
        range.start_line as int
    };
    let last = if start + count - 1 < range.end_line {
        start + count - 1
    } else {
        range.end_line as int
    };
    if first <= last {
        (last - first + 1) as nat
    } else {
        0
    }
}

fn count_inside(range: &SourceRange, start: u32, count: u32) -> (r: u64)
    ensures
        r == lines_inside(*range, start, count),
        r <= u32::MAX + 1,
{
    let first: u64 = if start > range.start_line {
        start as u64
    } else {
        range.start_line as u64
    };
    let after: u64 = if (start as u64 + count as u64) < range.end_line as u64 + 1 {
        start as u64 + count as u64
    } else {
        range.end_line as u64 + 1
    };
    if first < after {
        after - first
    } else {
        0
    }
}

/// The base lines of hunks that lie inside a range.
pub open spec fn removed_inside(range: SourceRange, hunks: Seq<DiffHunk>) -> nat
    decreases hunks.len(),
{
    if hunks.len() == 0 {
        0
    } else {
        removed_inside(range, hunks.drop_last()) + lines_inside(range, hunks.last().base_start, hunks.last().base_count)
    }
}

/// The target lines of hunks that lie inside a range.
pub open spec fn added_inside(range: SourceRange, hunks: Seq<DiffHunk>) -> nat
    decreases hunks.len(),
{
    if hunks.len() == 0 {
        0
    } else {
        added_inside(range, hunks.drop_last()) + lines_inside(range, hunks.last().target_start, hunks.last().target_count)
    }
}

/// Whether a hunk touches a function on one of the sides where it exists.
pub open spec fn hunk_touches(base: Option<SourceRange>, target: Option<SourceRange>, hunk: DiffHunk) -> bool {
    ||| base is Some && touches(base->0, hunk.base_start, hunk.base_count)
    ||| target is Some && touches(target->0, hunk.target_start, hunk.target_count)
}

/// How many hunks touch a function.
pub open spec fn touching(base: Option<SourceRange>, target: Option<SourceRange>, hunks: Seq<DiffHunk>) -> nat
    decreases hunks.len(),
{
    if hunks.len() == 0 {
        0
    } else {
        touching(base, target, hunks.drop_last()) + if hunk_touches(base, target, hunks.last()) {
            1nat
        } else {
            0
        }
    }
}

/// A count, or the largest 32-bit number where it is larger.
pub open spec fn saturated(n: nat) -> u32 {
    if n > u32::MAX {
        u32::MAX
    } else {
        n as u32
    }
}

/// How much of a function hunks change.
pub open spec fn churn_of(base: Option<SourceRange>, target: Option<SourceRange>, hunks: Seq<DiffHunk>) -> FunctionChurn {
    FunctionChurn {
        lines_removed: match base {
            Some(range) => saturated(removed_inside(range, hunks)),
            None => 0,
        },
        lines_added: match target {
            Some(range) => saturated(added_inside(range, hunks)),
            None => 0,
        },
        changed_hunks: saturated(touching(base, target, hunks)),
    }
}

fn capped(a: u32, b: u64) -> (r: u32)
    requires
        b <= u32::MAX + 1,
    ensures
        r == saturated((a + b) as nat),
{
    if a as u64 + b > u32::MAX as u64 {
        u32::MAX
    } else {
        (a as u64 + b) as u32
    }
}

fn hunk_touches_function(base: &Option<SourceRange>, target: &Option<SourceRange>, hunk: &DiffHunk) -> (r: bool)
    ensures
        r == hunk_touches(*base, *target, *hunk),
{
    let on_base = match base {
        Some(range) => range_intersects_hunk_side(range, hunk.base_start, hunk.base_count),
        None => false,
    };
    let on_target = match target {
        Some(range) => range_intersects_hunk_side(range, hunk.target_start, hunk.target_count),
        None => false,
    };
    on_base || on_target
}

/// Measure how much of a function hunks change.
pub fn function_churn(base: &Option<SourceRange>, target: &Option<SourceRange>, hunks: &Vec<DiffHunk>) -> (r: FunctionChurn)
    ensures
        r == churn_of(*base, *target, hunks@),
{
    let mut out = FunctionChurn { lines_removed: 0, lines_added: 0, changed_hunks: 0 };
    let mut i: usize = 0;
    while i < hunks.len()
        invariant
            i <= hunks.len(),
            out == churn_of(*base, *target, hunks@.take(i as int)),
        decreases hunks.len() - i,
    {
        assert(hunks@.take(i + 1).drop_last() =~= hunks@.take(i as int));
        let hunk = &hunks[i];
        if let Some(range) = base {
            out.lines_removed = capped(out.lines_removed, count_inside(range, hunk.base_start, hunk.base_count));
        }
        if let Some(range) = target {
            out.lines_added = capped(out.lines_added, count_inside(range, hunk.target_start, hunk.target_count));
        }
        if hunk_touches_function(base, target, hunk) {
            out.changed_hunks = capped(out.changed_hunks, 1);
        }
        i = i + 1;
    }
    assert(hunks@.take(i as int) =~= hunks@);
    out
}

/// The identity of a function within its file.
#[verifier::ext_equal]
pub struct KeyView {
    pub language: Language,
    pub kind: FunctionKind,
    pub name: Seq<char>,
}

/// The identity of a function.
pub open spec fn key_of(f: DefinitionView) -> KeyView {
    KeyView { language: f.language, kind: f.kind, name: f.qualified_name }
}

/// The place of a language in the order of identities.
pub open spec fn language_place(language: Language) -> int {
    match language {
        Language::TypeScript => 0,
        Language::Tsx => 1,
    }
}

/// The place of a kind in the order of identities.
pub open spec fn kind_place(kind: FunctionKind) -> int {
    match kind {
        FunctionKind::Function => 0,
        FunctionKind::Method => 1,
        FunctionKind::Constructor => 2,
        FunctionKind::ArrowFunction => 3,
    }
}

/// Where one identity stands relative to another.
pub open spec fn key_rank(a: KeyView, b: KeyView) -> Rank {
    otherwise(
        number_rank(language_place(a.language), language_place(b.language)),
        otherwise(number_rank(kind_place(a.kind), kind_place(b.kind)), text_rank(a.name, b.name)),
    )
}

/// The ranks by which identities are sorted.
pub open spec fn key_order() -> spec_fn(KeyView, KeyView) -> Rank {
    |a: KeyView, b: KeyView| key_rank(a, b)
}

/// A sequence without the elements that repeat the one before them.
pub open spec fn without_repeats<T>(items: Seq<T>) -> Seq<T>
    decreases items.len(),
{
    if items.len() == 0 {
        items
    } else if items.len() > 1 && items[items.len() - 2] == items.last() {
        without_repeats(items.drop_last())
    } else {
        without_repeats(items.drop_last()).push(items.last())
    }
}

/// The identities of functions.
pub open spec fn keys_of(functions: Seq<DefinitionView>) -> Seq<KeyView> {
    functions.map_values(|f: DefinitionView| key_of(f))
}

/// Every identity that occurs on either side, once, in ascending order.
pub open spec fn all_keys(base: Seq<DefinitionView>, target: Seq<DefinitionView>) -> Seq<KeyView> {
    without_repeats(arranged(keys_of(base) + keys_of(target), by_rank(key_order())))
}

/// How many functions have an identity.
pub open spec fn key_count(functions: Seq<DefinitionView>, key: KeyView) -> nat
    decreases functions.len(),
{
    if functions.len() == 0 {
        0
    } else {
        key_count(functions.drop_last(), key) + if key_of(functions.last()) == key {
            1nat
        } else {
            0
        }
    }
}

/// The first function with an identity.
pub open spec fn first_with(functions: Seq<DefinitionView>, key: KeyView) -> Option<DefinitionView>
    decreases functions.len(),
{
    if functions.len() == 0 {
        None
    } else {
        match first_with(functions.drop_last(), key) {
            Some(f) => Some(f),
            None => if key_of(functions.last()) == key {
                Some(functions.last())
            } else {
                None
            },
        }
    }
}

/// Whether a function that exists on both sides changed: its metrics differ, or
/// a hunk touches it. Absolute positions are not compared, because an edit
/// above a function shifts it without changing it.
pub open spec fn function_changed(base: DefinitionView, target: DefinitionView, hunks: Seq<DiffHunk>) -> bool {
    base.metrics != target.metrics || exists|i: int|
        0 <= i < hunks.len() && hunk_touches(Some(base.range), Some(target.range), #[trigger] hunks[i])
}

/// The status of a function that exists on both sides.
pub open spec fn pair_status(base: DefinitionView, target: DefinitionView, status: FileStatus, hunks: Seq<DiffHunk>) -> FunctionChangeStatus {
    if status == FileStatus::Added {
        FunctionChangeStatus::Added
    } else if status == FileStatus::Deleted {
        FunctionChangeStatus::Removed
    } else if function_changed(base, target, hunks) {
        FunctionChangeStatus::Modified
    } else {
        FunctionChangeStatus::Unchanged
    }
}

/// The change of the function with an identity, from its two sides.
pub open spec fn change_of(
    key: KeyView,
    base: Option<DefinitionView>,
    target: Option<DefinitionView>,
    status: FileStatus,
    hunks: Seq<DiffHunk>,
) -> Option<FunctionChangeView> {
    let range_of = |f: Option<DefinitionView>| match f {
        Some(f) => Some(f.range),
        None => None,
    };
    let metrics_of = |f: Option<DefinitionView>| match f {
        Some(f) => Some(f.metrics),
        None => None,
    };
    let calls_of = |f: Option<DefinitionView>| match f {
        Some(f) => f.calls,
        None => Seq::empty(),
    };
    if base is None && target is None {
        None
    } else {
        Some(
            FunctionChangeView {
                status: match (base, target) {
                    (Some(b), Some(t)) => pair_status(b, t, status, hunks),
                    (Some(_), None) => FunctionChangeStatus::Removed,
                    _ => FunctionChangeStatus::Added,
                },
                language: key.language,
                kind: key.kind,
                qualified_name: key.name,
                base_range: range_of(base),
                target_range: range_of(target),
                metrics_before: metrics_of(base),
                metrics_after: metrics_of(target),
                calls_before: calls_of(base),
                calls_after: calls_of(target),
                churn: churn_of(range_of(base), range_of(target), hunks),
                match_confidence: MatchConfidence::Exact,
            },
        )
    }
}

/// The diagnostic of an identity that several functions share.
pub open spec fn ambiguous(name: Seq<char>) -> MappingDiagnosticView {
    MappingDiagnosticView {
        code: FunctionMappingDiagnosticCode::AmbiguousFunctionMatch,
        severity: DiagnosticSeverity::Warning,
        message: "multiple functions share the same semantic identity"@,
        range: None,
        qualified_name: Some(name),
    }
}

/// Whether several functions of a side share an identity.
pub open spec fn is_ambiguous(key: KeyView, base: Seq<DefinitionView>, target: Seq<DefinitionView>) -> bool {
    key_count(base, key) > 1 || key_count(target, key) > 1
}

/// The changes of the identities that name one function per side.
pub open spec fn changes_of(
    keys: Seq<KeyView>,
    base: Seq<DefinitionView>,
    target: Seq<DefinitionView>,
    status: FileStatus,
    hunks: Seq<DiffHunk>,
) -> Seq<FunctionChangeView>
    decreases keys.len(),
{
    if keys.len() == 0 {
        Seq::empty()
    } else {
        let key = keys.last();
        let earlier = changes_of(keys.drop_last(), base, target, status, hunks);
        let change = change_of(key, first_with(base, key), first_with(target, key), status, hunks);
        if !is_ambiguous(key, base, target) && change is Some {
            earlier.push(change->0)
        } else {
            earlier
        }
    }
}

/// The diagnostics of the identities that name more than one function.
pub open spec fn ambiguities_of(keys: Seq<KeyView>, base: Seq<DefinitionView>, target: Seq<DefinitionView>) -> Seq<MappingDiagnosticView>
    decreases keys.len(),
{
    if keys.len() == 0 {
        Seq::empty()
    } else {
        let earlier = ambiguities_of(keys.drop_last(), base, target);
        if is_ambiguous(keys.last(), base, target) {
            earlier.push(ambiguous(keys.last().name))
        } else {
            earlier
        }
    }
}

/// The start of a change: where its target or else its base range starts.
pub open spec fn change_start(change: FunctionChangeView) -> (u32, u32) {
    match (change.target_range, change.base_range) {
        (Some(range), _) => (range.start_line, range.start_column),
        (None, Some(range)) => (range.start_line, range.start_column),
        (None, None) => (u32::MAX, u32::MAX),
    }
}

/// Where one function change stands relative to another.
pub open spec fn function_change_rank(a: FunctionChangeView, b: FunctionChangeView) -> Rank {
    otherwise(
        number_rank(change_start(a).0 as int, change_start(b).0 as int),
        otherwise(
            number_rank(change_start(a).1 as int, change_start(b).1 as int),
            otherwise(text_rank(a.qualified_name, b.qualified_name), text_rank(kind_label(a.kind), kind_label(b.kind))),
        ),
    )
}

/// The ranks by which function changes are sorted.
pub open spec fn function_change_order() -> spec_fn(FunctionChangeView, FunctionChangeView) -> Rank {
    |a: FunctionChangeView, b: FunctionChangeView| function_change_rank(a, b)
}

/// The name of a mapping diagnostic's code.
pub open spec fn mapping_code_label(code: FunctionMappingDiagnosticCode) -> Seq<char> {
    match code {
        FunctionMappingDiagnosticCode::AmbiguousFunctionMatch => "AmbiguousFunctionMatch"@,
        FunctionMappingDiagnosticCode::UnsupportedLanguage => "UnsupportedLanguage"@,
        FunctionMappingDiagnosticCode::MalformedSource => "MalformedSource"@,
        FunctionMappingDiagnosticCode::ParseError => "ParseError"@,
        FunctionMappingDiagnosticCode::InvalidUtf8 => "InvalidUtf8"@,
        FunctionMappingDiagnosticCode::OversizedFile => "OversizedFile"@,
        FunctionMappingDiagnosticCode::BlobUnavailable => "BlobUnavailable"@,
    }
}

fn mapping_code_name(code: FunctionMappingDiagnosticCode) -> (r: &'static str)
    ensures
        r@ == mapping_code_label(code),
{
    match code {
        FunctionMappingDiagnosticCode::AmbiguousFunctionMatch => "AmbiguousFunctionMatch",
        FunctionMappingDiagnosticCode::UnsupportedLanguage => "UnsupportedLanguage",
        FunctionMappingDiagnosticCode::MalformedSource => "MalformedSource",
        FunctionMappingDiagnosticCode::ParseError => "ParseError",
        FunctionMappingDiagnosticCode::InvalidUtf8 => "InvalidUtf8",
        FunctionMappingDiagnosticCode::OversizedFile => "OversizedFile",
        FunctionMappingDiagnosticCode::BlobUnavailable => "BlobUnavailable",
    }
}

/// Where one mapping diagnostic stands relative to another.
pub open spec fn mapping_diagnostic_rank(a: MappingDiagnosticView, b: MappingDiagnosticView) -> Rank {
    otherwise(
        text_rank(mapping_code_label(a.code), mapping_code_label(b.code)),
        otherwise(option_rank(a.qualified_name, b.qualified_name), text_rank(a.message, b.message)),
    )
}

/// The ranks by which mapping diagnostics are sorted.
pub open spec fn mapping_diagnostic_order() -> spec_fn(MappingDiagnosticView, MappingDiagnosticView) -> Rank {
    |a: MappingDiagnosticView, b: MappingDiagnosticView| mapping_diagnostic_rank(a, b)
}

/// What one side of a file holds.
#[derive(Debug)]
pub struct BlobFunctions {
    pub functions: Vec<FunctionDefinition>,
    pub exports: TextSet,
    pub diagnostics: Vec<LanguageDiagnostic>,
    pub unavailable: bool,
}

/// One side of a file by what it holds.
#[verifier::ext_equal]
pub struct SideView {
    pub functions: Seq<DefinitionView>,
    pub exports: Set<Seq<char>>,
    pub diagnostics: Seq<LanguageDiagnosticView>,
    pub unavailable: bool,
}

impl View for BlobFunctions {
    type V = SideView;

    open spec fn view(&self) -> SideView {
        SideView {
            functions: definition_views(self.functions@),
            exports: self.exports@,
            diagnostics: diagnostic_views(self.diagnostics@),
            unavailable: self.unavailable,
        }
    }
}

/// A side that holds nothing.
pub open spec fn empty_side(unavailable: bool) -> SideView {
    SideView { functions: Seq::empty(), exports: Set::empty(), diagnostics: Seq::empty(), unavailable }
}

/// What one side of a file holds: nothing where it has no path or no source.
pub open spec fn side_of(path: Option<Seq<char>>, blob: BlobView) -> Result<SideView, ErrorView> {
    match path {
        None => Ok(empty_side(false)),
        Some(path) => match blob {
            BlobView::Available(source) => match source_outcome(path, source) {
                Err(error) => Err(error),
                Ok(analysis) => Ok(
                    SideView {
                        functions: analysis.functions,
                        exports: analysis.surface.names,
                        diagnostics: analysis.diagnostics,
                        unavailable: false,
                    },
                ),
            },
            BlobView::NotApplicable | BlobView::Binary => Ok(empty_side(false)),
            BlobView::Missing => Ok(empty_side(true)),
        },
    }
}

/// The code of a mapping diagnostic that passes a language diagnostic on.
pub open spec fn passed_code(code: LanguageDiagnosticCode) -> FunctionMappingDiagnosticCode {
    match code {
        LanguageDiagnosticCode::UnsupportedLanguage => FunctionMappingDiagnosticCode::UnsupportedLanguage,
        LanguageDiagnosticCode::InvalidUtf8 => FunctionMappingDiagnosticCode::InvalidUtf8,
        LanguageDiagnosticCode::MalformedSource => FunctionMappingDiagnosticCode::MalformedSource,
        LanguageDiagnosticCode::ParseError => FunctionMappingDiagnosticCode::ParseError,
        LanguageDiagnosticCode::OversizedFile => FunctionMappingDiagnosticCode::OversizedFile,
    }
}

/// A mapping diagnostic that passes a language diagnostic on.
pub open spec fn passed_on(d: LanguageDiagnosticView) -> MappingDiagnosticView {
    MappingDiagnosticView { code: passed_code(d.code), severity: d.severity, message: d.message, range: d.range, qualified_name: None }
}

/// The diagnostic of a side whose blob is missing.
pub open spec fn unavailable(side: Seq<char>) -> MappingDiagnosticView {
    MappingDiagnosticView {
        code: FunctionMappingDiagnosticCode::BlobUnavailable,
        severity: DiagnosticSeverity::Error,
        message: side + " blob is unavailable for function mapping"@,
        range: None,
        qualified_name: None,
    }
}

/// One element, where a condition holds.
pub open spec fn where_holds<T>(condition: bool, item: T) -> Seq<T> {
    if condition {
        seq![item]
    } else {
        Seq::empty()
    }
}

/// The diagnostics of a file before they are sorted.
pub open spec fn mapping_diagnostics(base: SideView, target: SideView) -> Seq<MappingDiagnosticView> {
    base.diagnostics.map_values(|d: LanguageDiagnosticView| passed_on(d)) + target.diagnostics.map_values(
        |d: LanguageDiagnosticView| passed_on(d),
    ) + where_holds(base.unavailable, unavailable("base"@)) + where_holds(target.unavailable, unavailable("target"@))
        + ambiguities_of(all_keys(base.functions, target.functions), base.functions, target.functions)
}

/// The function changes of a file whose two sides are known.
pub open spec fn mapped(file: FileChangeView, base: SideView, target: SideView) -> FileFunctionsView {
    FileFunctionsView {
        base_path: file.base_path,
        target_path: file.target_path,
        functions: arranged(
            changes_of(all_keys(base.functions, target.functions), base.functions, target.functions, file.status, file.hunks),
            by_rank(function_change_order()),
        ),
        exports_added: listed(target.exports.difference(base.exports)),
        exports_removed: listed(base.exports.difference(target.exports)),
        diagnostics: arranged(mapping_diagnostics(base, target), by_rank(mapping_diagnostic_order())),
    }
}

/// The function changes of a file. A failure of the base side takes precedence.
pub open spec fn mapping_outcome(file: FileChangeView) -> Result<FileFunctionsView, ErrorView> {
    match side_of(file.base_path, file.base_blob) {
        Err(error) => Err(error),
        Ok(base) => match side_of(file.target_path, file.target_blob) {
            Err(error) => Err(error),
            Ok(target) => Ok(mapped(file, base, target)),
        },
    }
}

/// Parsing work below this many bytes is not worth handing to another thread.
pub const PARALLEL_BLOB_THRESHOLD: usize = 64 * 1024;

/// The bytes of a blob.
pub open spec fn blob_bytes(blob: BlobView) -> nat {
    match blob {
        BlobView::Available(source) => source.len(),
        _ => 0,
    }
}

fn blob_len(blob: &BlobContent) -> (r: usize)
    ensures
        r == blob_bytes(blob@),
{
    match blob {
        BlobContent::Available(source) => source.len(),
        BlobContent::Missing | BlobContent::NotApplicable | BlobContent::Binary => 0,
    }
}

/// Whether both sides of a file are worth parsing at once.
pub fn both_blobs_are_large(file: &FileChange) -> (r: bool)
    ensures
        r == (blob_bytes(file.base_blob@) >= PARALLEL_BLOB_THRESHOLD && blob_bytes(file.target_blob@) >= PARALLEL_BLOB_THRESHOLD),
{
    blob_len(&file.base_blob) >= PARALLEL_BLOB_THRESHOLD && blob_len(&file.target_blob) >= PARALLEL_BLOB_THRESHOLD
}

fn no_functions(unavailable: bool) -> (r: BlobFunctions)
    ensures
        r@ == empty_side(unavailable),
{
    let r = BlobFunctions { functions: Vec::new(), exports: TextSet::new(), diagnostics: Vec::new(), unavailable };
    assert(r@ =~= empty_side(unavailable));
    r
}

/// Analyze one side of a file.
pub fn analyze_blob(path: &Option<String>, blob: &BlobContent) -> (r: Result<BlobFunctions, DiffScopeError>)
    ensures
        match r {
            Ok(side) => side_of(text_option(*path), blob@) == Ok::<SideView, ErrorView>(side@),
            Err(error) => side_of(text_option(*path), blob@) == Err::<SideView, ErrorView>(error@),
        },
{
    let path = match path {
        Some(path) => path,
        None => {
            return Ok(no_functions(false));
        },
    };
    match blob {
        BlobContent::Available(source) => match analyze_source(path.as_str(), source.as_slice()) {
            Ok(analysis) => Ok(
                BlobFunctions {
                    functions: analysis.functions,
                    exports: analysis.exports,
                    diagnostics: analysis.diagnostics,
                    unavailable: false,
                },
            ),
            Err(error) => Err(error),
        },
        BlobContent::NotApplicable | BlobContent::Binary => Ok(no_functions(false)),
        BlobContent::Missing => Ok(no_functions(true)),
    }
}

struct FunctionKey {
    language: Language,
    kind: FunctionKind,
    qualified_name: String,
}

impl View for FunctionKey {
    type V = KeyView;

    closed spec fn view(&self) -> KeyView {
        KeyView { language: self.language, kind: self.kind, name: self.qualified_name@ }
    }
}

fn language_number(language: Language) -> (r: u64)
    ensures
        r == language_place(language),
{
    match language {
        Language::TypeScript => 0,
        Language::Tsx => 1,
    }
}

fn kind_number(kind: FunctionKind) -> (r: u64)
    ensures
        r == kind_place(kind),
{
    match kind {
        FunctionKind::Function => 0,
        FunctionKind::Method => 1,
        FunctionKind::Constructor => 2,
        FunctionKind::ArrowFunction => 3,
    }
}

fn compare_keys(a: &FunctionKey, b: &FunctionKey) -> (r: Rank)
    ensures
        r == key_rank(a@, b@),
{
    or_else(
        compare_numbers(language_number(a.language), language_number(b.language)),
        or_else(
            compare_numbers(kind_number(a.kind), kind_number(b.kind)),
            compare(a.qualified_name.as_str(), b.qualified_name.as_str()),
        ),
    )
}

proof fn lemma_key_same(a: KeyView, b: KeyView)
    ensures
        key_rank(a, b) == Rank::Same <==> a == b,
{
    if key_rank(a, b) == Rank::Same {
        assert(a =~= b);
    }
}

fn key_for(function: &FunctionDefinition) -> (r: FunctionKey)
    ensures
        r@ == key_of(function@),
{
    FunctionKey { language: function.language, kind: function.kind, qualified_name: function.qualified_name.clone() }
}

spec fn key_views(keys: Seq<FunctionKey>) -> Seq<KeyView> {
    keys.map_values(|k: FunctionKey| k@)
}

fn push_keys(keys: &mut Vec<FunctionKey>, functions: &Vec<FunctionDefinition>)
    ensures
        key_views(final(keys)@) == key_views(old(keys)@) + keys_of(definition_views(functions@)),
{
    let ghost given = key_views(keys@);
    let ghost names = keys_of(definition_views(functions@));
    let mut i: usize = 0;
    assert(given + names.take(0) =~= given);
    while i < functions.len()
        invariant
            i <= functions.len(),
            names == keys_of(definition_views(functions@)),
            key_views(keys@) == given + names.take(i as int),
        decreases functions.len() - i,
    {
        let ghost so_far = key_views(keys@);
        keys.push(key_for(&functions[i]));
        proof {
            assert(key_views(keys@) =~= so_far.push(names[i as int]));
            assert(given + names.take(i + 1) =~= (given + names.take(i as int)).push(names[i as int]));
        }
        i = i + 1;
    }
    assert(names.take(i as int) =~= names);
}

fn sorted_keys(base: &Vec<FunctionDefinition>, target: &Vec<FunctionDefinition>) -> (r: Vec<FunctionKey>)
    ensures
        key_views(r@) == all_keys(definition_views(base@), definition_views(target@)),
{
    let ghost b = definition_views(base@);
    let ghost t = definition_views(target@);
    let mut keys: Vec<FunctionKey> = Vec::new();
    assert(key_views(keys@) =~= Seq::<KeyView>::empty());
    push_keys(&mut keys, base);
    assert(key_views(keys@) =~= keys_of(b));
    push_keys(&mut keys, target);
    let rank_of = |x: &FunctionKey, y: &FunctionKey| -> (r: Rank)
        ensures
            r == key_rank(x@, y@),
    {
        compare_keys(x, y)
    };
    arrange_by::<FunctionKey, KeyView, _>(&mut keys, rank_of, Ghost(|k: FunctionKey| k@), Ghost(key_order()));
    let ghost sorted = key_views(keys@);
    let mut out: Vec<FunctionKey> = Vec::new();
    let mut i: usize = 0;
    assert(key_views(out@) =~= without_repeats(sorted.take(0)));
    while i < keys.len()
        invariant
            i <= keys.len(),
            sorted == key_views(keys@),
            key_views(out@) == without_repeats(sorted.take(i as int)),
        decreases keys.len() - i,
    {
        let ghost so_far = key_views(out@);
        assert(sorted.take(i + 1).drop_last() =~= sorted.take(i as int));
        assert(sorted[i as int] == keys@[i as int]@);
        let repeats = if i > 0 {
            proof {
                assert(sorted[i - 1] == keys@[i - 1]@);
                lemma_key_same(sorted[i - 1], sorted[i as int]);
            }
            compare_keys(&keys[i - 1], &keys[i]) == Rank::Same
        } else {
            false
        };
        if !repeats {
            let key = &keys[i];
            out.push(FunctionKey { language: key.language, kind: key.kind, qualified_name: key.qualified_name.clone() });
            assert(key_views(out@) =~= so_far.push(sorted[i as int]));
        }
        i = i + 1;
    }
    assert(sorted.take(i as int) =~= sorted);
    out
}

fn has_key(function: &FunctionDefinition, key: &FunctionKey) -> (r: bool)
    ensures
        r == (key_of(function@) == key@),
{
    let same = function.language == key.language && function.kind == key.kind && same_text(
        function.qualified_name.as_str(),
        key.qualified_name.as_str(),
    );
    proof {
        if same {
            assert(key_of(function@) =~= key@);
        }
    }
    same
}

/// How many functions have an identity, and the first of them.
fn find_key<'a>(functions: &'a Vec<FunctionDefinition>, key: &FunctionKey) -> (r: (usize, Option<&'a FunctionDefinition>))
    ensures
        r.0 == key_count(definition_views(functions@), key@),
        match r.1 {
            Some(f) => first_with(definition_views(functions@), key@) == Some(f@),
            None => first_with(definition_views(functions@), key@) is None,
        },
{
    let ghost views = definition_views(functions@);
    let mut count: usize = 0;
    let mut first: Option<&'a FunctionDefinition> = None;
    let mut i: usize = 0;
    while i < functions.len()
        invariant
            i <= functions.len(),
            views == definition_views(functions@),
            count <= i,
            count == key_count(views.take(i as int), key@),
            match first {
                Some(f) => first_with(views.take(i as int), key@) == Some(f@),
                None => first_with(views.take(i as int), key@) is None,
            },
        decreases functions.len() - i,
    {
        assert(views.take(i + 1).drop_last() =~= views.take(i as int));
        assert(views[i as int] == functions@[i as int]@);
        if has_key(&functions[i], key) {
            count = count + 1;
            if first.is_none() {
                first = Some(&functions[i]);
            }
        }
        i = i + 1;
    }
    assert(views.take(i as int) =~= views);
    (count, first)
}

fn touched_by_any(base: &FunctionDefinition, target: &FunctionDefinition, hunks: &Vec<DiffHunk>) -> (r: bool)
    ensures
        r == function_changed(base@, target@, hunks@),
{
    if base.metrics != target.metrics {
        return true;
    }
    let mut i: usize = 0;
    while i < hunks.len()
        invariant
            i <= hunks.len(),
            forall|k: int| 0 <= k < i ==> !hunk_touches(Some(base.range), Some(target.range), #[trigger] hunks@[k]),
        decreases hunks.len() - i,
    {
        if hunk_touches_function(&Some(base.range), &Some(target.range), &hunks[i]) {
            assert(hunk_touches(Some(base@.range), Some(target@.range), hunks@[i as int]));
            return true;
        }
        i = i + 1;
    }
    false
}

spec fn optional_view(f: Option<&FunctionDefinition>) -> Option<DefinitionView> {
    match f {
        Some(f) => Some(f@),
        None => None,
    }
}

/// Copies of the calls of a function, none where there is no function.
fn definition_calls(f: Option<&FunctionDefinition>) -> (r: Vec<CallSite>)
    ensures
        call_views(r@) == match optional_view(f) {
            Some(f) => f.calls,
            None => Seq::empty(),
        },
{
    match f {
        Some(f) => copy_calls(&f.calls),
        None => {
            let none: Vec<CallSite> = Vec::new();
            assert(call_views(none@) =~= Seq::<CallView>::empty());
            none
        },
    }
}

fn build_change(
    key: &FunctionKey,
    base: Option<&FunctionDefinition>,
    target: Option<&FunctionDefinition>,
    status: FileStatus,
    hunks: &Vec<DiffHunk>,
) -> (r: Option<FunctionChange>)
    ensures
        match r {
            Some(change) => change_of(key@, optional_view(base), optional_view(target), status, hunks@) == Some(change@),
            None => change_of(key@, optional_view(base), optional_view(target), status, hunks@) is None,
        },
{
    let (base_range, metrics_before) = match base {
        Some(f) => (Some(f.range), Some(f.metrics)),
        None => (None, None),
    };
    let (target_range, metrics_after) = match target {
        Some(f) => (Some(f.range), Some(f.metrics)),
        None => (None, None),
    };
    let calls_before = definition_calls(base);
    let calls_after = definition_calls(target);
    let status = match (base, target) {
        (Some(b), Some(t)) => if status == FileStatus::Added {
            FunctionChangeStatus::Added
        } else if status == FileStatus::Deleted {
            FunctionChangeStatus::Removed
        } else if touched_by_any(b, t, hunks) {
            FunctionChangeStatus::Modified
        } else {
            FunctionChangeStatus::Unchanged
        },
        (Some(_), None) => FunctionChangeStatus::Removed,
        (None, Some(_)) => FunctionChangeStatus::Added,
        (None, None) => {
            return None;
        },
    };
    Some(
        FunctionChange {
            status,
            language: key.language,
            kind: key.kind,
            qualified_name: key.qualified_name.clone(),
            base_range,
            target_range,
            metrics_before,
            metrics_after,
            calls_before,
            calls_after,
            churn: function_churn(&base_range, &target_range, hunks),
            match_confidence: MatchConfidence::Exact,
        },
    )
}

fn start_of(change: &FunctionChange) -> (r: (u32, u32))
    ensures
        r == change_start(change@),
{
    match (&change.target_range, &change.base_range) {
        (Some(range), _) => (range.start_line, range.start_column),
        (None, Some(range)) => (range.start_line, range.start_column),
        (None, None) => (u32::MAX, u32::MAX),
    }
}

fn compare_function_changes(a: &FunctionChange, b: &FunctionChange) -> (r: Rank)
    ensures
        r == function_change_rank(a@, b@),
{
    let left = start_of(a);
    let right = start_of(b);
    or_else(
        compare_numbers(left.0 as u64, right.0 as u64),
        or_else(
            compare_numbers(left.1 as u64, right.1 as u64),
            or_else(
                compare(a.qualified_name.as_str(), b.qualified_name.as_str()),
                compare(kind_name(a.kind), kind_name(b.kind)),
            ),
        ),
    )
}

fn compare_mapping_diagnostics(a: &FunctionMappingDiagnostic, b: &FunctionMappingDiagnostic) -> (r: Rank)
    ensures
        r == mapping_diagnostic_rank(a@, b@),
{
    or_else(
        compare(mapping_code_name(a.code), mapping_code_name(b.code)),
        or_else(compare_options(&a.qualified_name, &b.qualified_name), compare(a.message.as_str(), b.message.as_str())),
    )
}

fn unavailable_diagnostic(side: &str) -> (r: FunctionMappingDiagnostic)
    ensures
        r@ == unavailable(side@),
{
    FunctionMappingDiagnostic {
        code: FunctionMappingDiagnosticCode::BlobUnavailable,
        severity: DiagnosticSeverity::Error,
        message: join2(side, " blob is unavailable for function mapping"),
        range: None,
        qualified_name: None,
    }
}

fn ambiguous_diagnostic(qualified_name: String) -> (r: FunctionMappingDiagnostic)
    ensures
        r@ == ambiguous(qualified_name@),
{
    FunctionMappingDiagnostic {
        code: FunctionMappingDiagnosticCode::AmbiguousFunctionMatch,
        severity: DiagnosticSeverity::Warning,
        message: "multiple functions share the same semantic identity".to_owned(),
        range: None,
        qualified_name: Some(qualified_name),
    }
}

fn pass_diagnostics_on(out: &mut Vec<FunctionMappingDiagnostic>, diagnostics: &Vec<LanguageDiagnostic>)
    ensures
        mapping_views(final(out)@) == mapping_views(old(out)@) + diagnostic_views(diagnostics@).map_values(
            |d: LanguageDiagnosticView| passed_on(d),
        ),
{
    let ghost given = mapping_views(out@);
    let ghost passed = diagnostic_views(diagnostics@).map_values(|d: LanguageDiagnosticView| passed_on(d));
    let mut i: usize = 0;
    assert(given + passed.take(0) =~= given);
    while i < diagnostics.len()
        invariant
            i <= diagnostics.len(),
            passed == diagnostic_views(diagnostics@).map_values(|d: LanguageDiagnosticView| passed_on(d)),
            mapping_views(out@) == given + passed.take(i as int),
        decreases diagnostics.len() - i,
    {
        let ghost so_far = mapping_views(out@);
        let diagnostic = &diagnostics[i];
        let code = match diagnostic.code {
            LanguageDiagnosticCode::UnsupportedLanguage => FunctionMappingDiagnosticCode::UnsupportedLanguage,
            LanguageDiagnosticCode::InvalidUtf8 => FunctionMappingDiagnosticCode::InvalidUtf8,
            LanguageDiagnosticCode::MalformedSource => FunctionMappingDiagnosticCode::MalformedSource,
            LanguageDiagnosticCode::ParseError => FunctionMappingDiagnosticCode::ParseError,
            LanguageDiagnosticCode::OversizedFile => FunctionMappingDiagnosticCode::OversizedFile,
        };
        let one = FunctionMappingDiagnostic {
            code,
            severity: diagnostic.severity,
            message: diagnostic.message.clone(),
            range: diagnostic.range,
            qualified_name: None,
        };
        let ghost view = one@;
        out.push(one);
        proof {
            assert(view =~= passed[i as int]);
            assert(mapping_views(out@) =~= so_far.push(view));
            assert(given + passed.take(i + 1) =~= (given + passed.take(i as int)).push(passed[i as int]));
        }
        i = i + 1;
    }
    assert(passed.take(i as int) =~= passed);
}

/// Match the functions of a file's two sides.
pub fn map_functions(file: &FileChange, base: BlobFunctions, target: BlobFunctions) -> (r: FileFunctionChanges)
    ensures
        r@ == mapped(file@, base@, target@),
{
    let ghost b = definition_views(base.functions@);
    let ghost t = definition_views(target.functions@);
    let mut diagnostics: Vec<FunctionMappingDiagnostic> = Vec::new();
    assert(mapping_views(diagnostics@) =~= Seq::<MappingDiagnosticView>::empty());
    pass_diagnostics_on(&mut diagnostics, &base.diagnostics);
    pass_diagnostics_on(&mut diagnostics, &target.diagnostics);
    let ghost passed = mapping_views(diagnostics@);
    assert(passed =~= base@.diagnostics.map_values(|d: LanguageDiagnosticView| passed_on(d)) + target@.diagnostics.map_values(
        |d: LanguageDiagnosticView| passed_on(d),
    ));
    if base.unavailable {
        diagnostics.push(unavailable_diagnostic("base"));
    }
    assert(mapping_views(diagnostics@) =~= passed + where_holds(base@.unavailable, unavailable("base"@)));
    let ghost with_base = mapping_views(diagnostics@);
    if target.unavailable {
        diagnostics.push(unavailable_diagnostic("target"));
    }
    assert(mapping_views(diagnostics@) =~= with_base + where_holds(target@.unavailable, unavailable("target"@)));
    let ghost sides = mapping_views(diagnostics@);

    let keys = sorted_keys(&base.functions, &target.functions);
    let ghost names = key_views(keys@);
    let mut functions: Vec<FunctionChange> = Vec::new();
    let mut i: usize = 0;
    proof {
        assert(function_change_views(functions@) =~= changes_of(names.take(0), b, t, file@.status, file@.hunks));
        assert(sides + ambiguities_of(names.take(0), b, t) =~= sides);
    }
    while i < keys.len()
        invariant
            i <= keys.len(),
            names == key_views(keys@),
            b == definition_views(base.functions@),
            t == definition_views(target.functions@),
            function_change_views(functions@) == changes_of(names.take(i as int), b, t, file@.status, file@.hunks),
            mapping_views(diagnostics@) == sides + ambiguities_of(names.take(i as int), b, t),
        decreases keys.len() - i,
    {
        let ghost done = function_change_views(functions@);
        let ghost told = mapping_views(diagnostics@);
        assert(names.take(i + 1).drop_last() =~= names.take(i as int));
        assert(names[i as int] == keys@[i as int]@);
        let key = &keys[i];
        let (base_count, base_first) = find_key(&base.functions, key);
        let (target_count, target_first) = find_key(&target.functions, key);
        if base_count > 1 || target_count > 1 {
            diagnostics.push(ambiguous_diagnostic(key.qualified_name.clone()));
            proof {
                let one = ambiguous(names[i as int].name);
                assert(mapping_views(diagnostics@) =~= told.push(one));
                assert(told.push(one) =~= sides + ambiguities_of(names.take(i as int), b, t).push(one));
            }
        } else {
            match build_change(key, base_first, target_first, file.status, &file.hunks) {
                Some(change) => {
                    let ghost one = change@;
                    functions.push(change);
                    assert(function_change_views(functions@) =~= done.push(one));
                },
                None => {},
            }
        }
        i = i + 1;
    }
    assert(names.take(i as int) =~= names);

    let rank_of_change = |x: &FunctionChange, y: &FunctionChange| -> (r: Rank)
        ensures
            r == function_change_rank(x@, y@),
    {
        compare_function_changes(x, y)
    };
    arrange_by::<FunctionChange, FunctionChangeView, _>(
        &mut functions,
        rank_of_change,
        Ghost(|c: FunctionChange| c@),
        Ghost(function_change_order()),
    );
    let rank_of_diagnostic = |x: &FunctionMappingDiagnostic, y: &FunctionMappingDiagnostic| -> (r: Rank)
        ensures
            r == mapping_diagnostic_rank(x@, y@),
    {
        compare_mapping_diagnostics(x, y)
    };
    arrange_by::<FunctionMappingDiagnostic, MappingDiagnosticView, _>(
        &mut diagnostics,
        rank_of_diagnostic,
        Ghost(|d: FunctionMappingDiagnostic| d@),
        Ghost(mapping_diagnostic_order()),
    );
    FileFunctionChanges {
        base_path: copy_option(&file.base_path),
        target_path: copy_option(&file.target_path),
        functions,
        exports_added: difference(&target.exports, &base.exports),
        exports_removed: difference(&base.exports, &target.exports),
        diagnostics,
    }
}

/// Map one file-level Git change to before-and-after function changes.
///
/// Fails when the analysis of an available source fails before it produces a
/// result; a failure of the base side takes precedence.
pub fn map_changed_functions(file: &FileChange) -> (r: Result<FileFunctionChanges, DiffScopeError>)
    ensures
        match r {
            Ok(changes) => mapping_outcome(file@) == Ok::<FileFunctionsView, ErrorView>(changes@),
            Err(error) => mapping_outcome(file@) == Err::<FileFunctionsView, ErrorView>(error@),
        },
{
    let base = match analyze_blob(&file.base_path, &file.base_blob) {
        Ok(side) => side,
        Err(error) => {
            return Err(error);
        },
    };
    let target = match analyze_blob(&file.target_path, &file.target_blob) {
        Ok(side) => side,
        Err(error) => {
            return Err(error);
        },
    };
    Ok(map_functions(file, base, target))
}

proof fn lemma_key_order()
    ensures
        lawful(key_order()),
{
    let by_number = |a: int, b: int| number_rank(a, b);
    let by_text = |a: Seq<char>, b: Seq<char>| text_rank(a, b);
    lemma_numbers_lawful();
    lemma_texts_lawful();
    let language = |k: KeyView| language_place(k.language);
    let kind = |k: KeyView| kind_place(k.kind);
    let name = |k: KeyView| k.name;
    lemma_lawful_by(by_number, language);
    lemma_lawful_by(by_number, kind);
    lemma_lawful_by(by_text, name);
    let first = |a: KeyView, b: KeyView| by_number(language(a), language(b));
    let second = |a: KeyView, b: KeyView| by_number(kind(a), kind(b));
    let third = |a: KeyView, b: KeyView| by_text(name(a), name(b));
    lemma_lawful_otherwise(second, third);
    let rest = |a: KeyView, b: KeyView| otherwise(second(a, b), third(a, b));
    lemma_lawful_otherwise(first, rest);
    let whole = |a: KeyView, b: KeyView| otherwise(first(a, b), rest(a, b));
    assert(whole =~= key_order());
}

proof fn lemma_without_repeats<T>(items: Seq<T>, rank: spec_fn(T, T) -> Rank)
    requires
        lawful(rank),
        forall|a: T, b: T| #[trigger] rank(a, b) == Rank::Same ==> a == b,
        in_sequence(items, by_rank(rank)),
    ensures
        strictly(without_repeats(items), rank),
        forall|x: T| #[trigger] without_repeats(items).contains(x) <==> items.contains(x),
    decreases items.len(),
{
    if items.len() > 0 {
        let shorter = items.drop_last();
        let last = items.last();
        let in_order = by_rank(rank);
        assert(in_sequence(shorter, in_order)) by {
            assert forall|i: int, j: int| 0 <= i < j < shorter.len() implies in_order(#[trigger] shorter[i], #[trigger] shorter[j]) by {
                assert(in_order(items[i], items[j]));
            }
        }
        lemma_without_repeats(shorter, rank);
        let out = without_repeats(items);
        let kept = without_repeats(shorter);
        assert(items =~= shorter.push(last));
        crate::collections::lemma_push_contains(shorter, last);
        if items.len() > 1 && items[items.len() - 2] == last {
            assert(shorter[shorter.len() - 1] == last);
            assert(shorter.contains(last));
        } else {
            crate::collections::lemma_push_contains(kept, last);
            assert forall|i: int, j: int| 0 <= i < j < out.len() implies rank(#[trigger] out[i], #[trigger] out[j]) == Rank::Before by {
                if j == out.len() - 1 {
                    let x = kept[i];
                    assert(kept.contains(x));
                    assert(shorter.contains(x));
                    let k = choose|k: int| 0 <= k < shorter.len() && shorter[k] == x;
                    assert(in_order(items[k], items[items.len() - 1]));
                    if rank(x, last) == Rank::Same {
                        let before = items[items.len() - 2];
                        if k < items.len() - 2 {
                            assert(in_order(items[k], items[items.len() - 2]));
                        }
                        assert(in_order(items[items.len() - 2], items[items.len() - 1]));
                        assert(rank(before, last) == flipped(rank(last, before)));
                        assert(rank(x, x) == flipped(rank(x, x)));
                        assert(rank(last, before) != Rank::After);
                        assert(before == last);
                    }
                } else {
                    assert(rank(kept[i], kept[j]) == Rank::Before);
                }
            }
        }
    }
}

/// The identity of a changed function.
pub open spec fn change_key(change: FunctionChangeView) -> KeyView {
    KeyView { language: change.language, kind: change.kind, name: change.qualified_name }
}

pub(crate) proof fn lemma_all_keys(base: Seq<DefinitionView>, target: Seq<DefinitionView>)
    ensures
        all_keys(base, target).no_duplicates(),
        forall|f: DefinitionView| #[trigger] base.contains(f) || target.contains(f) ==> all_keys(base, target).contains(key_of(f)),
        forall|f: DefinitionView| base.contains(f) || #[trigger] target.contains(f) ==> all_keys(base, target).contains(key_of(f)),
{
    let given = keys_of(base) + keys_of(target);
    let sorted = arranged(given, by_rank(key_order()));
    lemma_key_order();
    lemma_sorted_by_rank(given, key_order());
    lemma_arranged_keeps(given, by_rank(key_order()));
    lemma_same_multiset(sorted, given);
    assert forall|a: KeyView, b: KeyView| #[trigger] key_order()(a, b) == Rank::Same implies a == b by {
        lemma_key_same(a, b);
    }
    lemma_without_repeats(sorted, key_order());
    lemma_strictly_distinct(all_keys(base, target), key_order());
    assert forall|f: DefinitionView| base.contains(f) || target.contains(f) implies all_keys(base, target).contains(key_of(f)) by {
        if base.contains(f) {
            let i = choose|i: int| 0 <= i < base.len() && base[i] == f;
            assert(given[i] == key_of(f));
        } else {
            let i = choose|i: int| 0 <= i < target.len() && target[i] == f;
            assert(given[base.len() + i] == key_of(f));
        }
        assert(given.contains(key_of(f)));
        assert(given.to_set().contains(key_of(f)));
        assert(sorted.to_set().contains(key_of(f)));
    }
}

pub(crate) proof fn lemma_first_with(functions: Seq<DefinitionView>, f: DefinitionView)
    requires
        functions.contains(f),
    ensures
        first_with(functions, key_of(f)) is Some,
    decreases functions.len(),
{
    let i = choose|i: int| 0 <= i < functions.len() && functions[i] == f;
    if i < functions.len() - 1 {
        assert(functions.drop_last()[i] == f);
        lemma_first_with(functions.drop_last(), f);
    }
}

pub(crate) proof fn lemma_changes_of(keys: Seq<KeyView>, base: Seq<DefinitionView>, target: Seq<DefinitionView>, status: FileStatus, hunks: Seq<DiffHunk>)
    requires
        keys.no_duplicates(),
    ensures
        ({
            let changes = changes_of(keys, base, target, status, hunks);
            &&& forall|i: int| 0 <= i < changes.len() ==> keys.contains(change_key(#[trigger] changes[i])) && !is_ambiguous(change_key(changes[i]), base, target)
            &&& forall|i: int, j: int| 0 <= i < j < changes.len() ==> change_key(#[trigger] changes[i]) != change_key(#[trigger] changes[j])
        }),
    decreases keys.len(),
{
    if keys.len() > 0 {
        let key = keys.last();
        let shorter = keys.drop_last();
        assert(keys =~= shorter.push(key));
        crate::collections::lemma_push_contains(shorter, key);
        lemma_changes_of(shorter, base, target, status, hunks);
        if shorter.contains(key) {
            let i = choose|i: int| 0 <= i < shorter.len() && shorter[i] == key;
            assert(keys[i] == keys[keys.len() - 1]);
        }
    }
}

pub(crate) proof fn lemma_change_of_key(
    keys: Seq<KeyView>,
    base: Seq<DefinitionView>,
    target: Seq<DefinitionView>,
    status: FileStatus,
    hunks: Seq<DiffHunk>,
    key: KeyView,
)
    requires
        keys.contains(key),
        !is_ambiguous(key, base, target),
        first_with(base, key) is Some || first_with(target, key) is Some,
    ensures
        changes_of(keys, base, target, status, hunks).contains(
            change_of(key, first_with(base, key), first_with(target, key), status, hunks)->0,
        ),
    decreases keys.len(),
{
    let change = change_of(key, first_with(base, key), first_with(target, key), status, hunks)->0;
    let earlier = changes_of(keys.drop_last(), base, target, status, hunks);
    let changes = changes_of(keys, base, target, status, hunks);
    if keys.last() == key {
        assert(changes.last() == change);
        assert(changes[changes.len() - 1] == change);
    } else {
        let i = choose|i: int| 0 <= i < keys.len() && keys[i] == key;
        assert(keys.drop_last()[i] == key);
        lemma_change_of_key(keys.drop_last(), base, target, status, hunks, key);
        let k = choose|k: int| 0 <= k < earlier.len() && earlier[k] == change;
        assert(changes[k] == change);
    }
}

proof fn lemma_ambiguity_of_key(keys: Seq<KeyView>, base: Seq<DefinitionView>, target: Seq<DefinitionView>, key: KeyView)
    requires
        keys.contains(key),
        is_ambiguous(key, base, target),
    ensures
        ambiguities_of(keys, base, target).contains(ambiguous(key.name)),
    decreases keys.len(),
{
    let earlier = ambiguities_of(keys.drop_last(), base, target);
    let out = ambiguities_of(keys, base, target);
    if keys.last() == key {
        assert(out[out.len() - 1] == ambiguous(key.name));
    } else {
        let i = choose|i: int| 0 <= i < keys.len() && keys[i] == key;
        assert(keys.drop_last()[i] == key);
        lemma_ambiguity_of_key(keys.drop_last(), base, target, key);
        let k = choose|k: int| 0 <= k < earlier.len() && earlier[k] == ambiguous(key.name);
        assert(out[k] == ambiguous(key.name));
    }
}

/// Every function of either side is accounted for. One whose identity several
/// functions of a side share is named by a diagnostic and never paired; any
/// other is in exactly one change.
pub proof fn lemma_every_function_is_accounted_for(file: FileChangeView, base: SideView, target: SideView, f: DefinitionView)
    requires
        base.functions.contains(f) || target.functions.contains(f),
    ensures
        ({
            let out = mapped(file, base, target);
            let key = key_of(f);
            if is_ambiguous(key, base.functions, target.functions) {
                &&& out.diagnostics.contains(ambiguous(key.name))
                &&& forall|i: int| 0 <= i < out.functions.len() ==> change_key(#[trigger] out.functions[i]) != key
            } else {
                exists|i: int|
                    0 <= i < out.functions.len() && change_key(#[trigger] out.functions[i]) == key && forall|j: int|
                        0 <= j < out.functions.len() && change_key(#[trigger] out.functions[j]) == key ==> j == i
            }
        }),
{
    let out = mapped(file, base, target);
    let key = key_of(f);
    let keys = all_keys(base.functions, target.functions);
    let changes = changes_of(keys, base.functions, target.functions, file.status, file.hunks);
    lemma_all_keys(base.functions, target.functions);
    lemma_changes_of(keys, base.functions, target.functions, file.status, file.hunks);
    lemma_arranged_keeps(changes, by_rank(function_change_order()));
    lemma_same_multiset(out.functions, changes);
    assert forall|c: FunctionChangeView| #[trigger] out.functions.contains(c) <==> changes.contains(c) by {
        assert(out.functions.to_set().contains(c) <==> changes.to_set().contains(c));
    }
    if is_ambiguous(key, base.functions, target.functions) {
        let found = mapping_diagnostics(base, target);
        let shared = ambiguities_of(keys, base.functions, target.functions);
        lemma_ambiguity_of_key(keys, base.functions, target.functions, key);
        let k = choose|k: int| 0 <= k < shared.len() && shared[k] == ambiguous(key.name);
        assert(found[found.len() - shared.len() + k] == ambiguous(key.name));
        assert(found.contains(ambiguous(key.name)));
        lemma_arranged_keeps(found, by_rank(mapping_diagnostic_order()));
        lemma_same_multiset(out.diagnostics, found);
        assert(found.to_set().contains(ambiguous(key.name)));
        assert(out.diagnostics.to_set().contains(ambiguous(key.name)));
        assert forall|i: int| 0 <= i < out.functions.len() implies change_key(#[trigger] out.functions[i]) != key by {
            let c = out.functions[i];
            assert(out.functions.contains(c));
            assert(changes.contains(c));
            let j = choose|j: int| 0 <= j < changes.len() && changes[j] == c;
            assert(!is_ambiguous(change_key(changes[j]), base.functions, target.functions));
        }
    } else {
        if base.functions.contains(f) {
            lemma_first_with(base.functions, f);
        } else {
            lemma_first_with(target.functions, f);
        }
        lemma_change_of_key(keys, base.functions, target.functions, file.status, file.hunks, key);
        let change = change_of(key, first_with(base.functions, key), first_with(target.functions, key), file.status, file.hunks)->0;
        assert(out.functions.contains(change));
        let i = choose|i: int| 0 <= i < out.functions.len() && out.functions[i] == change;
        let at = choose|at: int| 0 <= at < changes.len() && changes[at] == change;
        assert(changes.no_duplicates()) by {
            assert forall|a: int, b: int| 0 <= a < b < changes.len() implies changes[a] != changes[b] by {
                assert(change_key(changes[a]) != change_key(changes[b]));
            }
        }
        assert(change_key(out.functions[i]) == key);
        assert forall|j: int| 0 <= j < out.functions.len() && change_key(#[trigger] out.functions[j]) == key implies j == i by {
            let c = out.functions[j];
            assert(out.functions.contains(c));
            assert(changes.contains(c));
            let b = choose|b: int| 0 <= b < changes.len() && changes[b] == c;
            if b < at {
                assert(change_key(changes[b]) != change_key(changes[at]));
            } else if at < b {
                assert(change_key(changes[at]) != change_key(changes[b]));
            }
            assert(out.functions[j] == out.functions[i]);
        }
    }
}

/// A function that both sides have with the same metrics and that no hunk
/// touches is unchanged, wherever an edit above it may have moved it.
pub proof fn lemma_untouched_is_unchanged(key: KeyView, base: DefinitionView, target: DefinitionView, status: FileStatus, hunks: Seq<DiffHunk>)
    requires
        status != FileStatus::Added,
        status != FileStatus::Deleted,
        base.metrics == target.metrics,
        forall|i: int| 0 <= i < hunks.len() ==> !hunk_touches(Some(base.range), Some(target.range), #[trigger] hunks[i]),
    ensures
        change_of(key, Some(base), Some(target), status, hunks)->0.status == FunctionChangeStatus::Unchanged,
        churn_of(Some(base.range), Some(target.range), hunks).changed_hunks == 0,
{
    lemma_no_touch(Some(base.range), Some(target.range), hunks);
}

proof fn lemma_no_touch(base: Option<SourceRange>, target: Option<SourceRange>, hunks: Seq<DiffHunk>)
    requires
        forall|i: int| 0 <= i < hunks.len() ==> !hunk_touches(base, target, #[trigger] hunks[i]),
    ensures
        touching(base, target, hunks) == 0,
    decreases hunks.len(),
{
    if hunks.len() > 0 {
        assert forall|i: int| 0 <= i < hunks.len() - 1 implies !hunk_touches(base, target, #[trigger] hunks.drop_last()[i]) by {
            assert(hunks.drop_last()[i] == hunks[i]);
        }
        lemma_no_touch(base, target, hunks.drop_last());
        assert(!hunk_touches(base, target, hunks[hunks.len() - 1]));
    }
}

proof fn lemma_function_change_order()
    ensures
        lawful(function_change_order()),
{
    let by_number = |a: int, b: int| number_rank(a, b);
    let by_text = |a: Seq<char>, b: Seq<char>| text_rank(a, b);
    lemma_numbers_lawful();
    lemma_texts_lawful();
    let line = |c: FunctionChangeView| change_start(c).0 as int;
    let column = |c: FunctionChangeView| change_start(c).1 as int;
    let name = |c: FunctionChangeView| c.qualified_name;
    let kind = |c: FunctionChangeView| kind_label(c.kind);
    lemma_lawful_by(by_number, line);
    lemma_lawful_by(by_number, column);
    lemma_lawful_by(by_text, name);
    lemma_lawful_by(by_text, kind);
    let first = |a: FunctionChangeView, b: FunctionChangeView| by_number(line(a), line(b));
    let second = |a: FunctionChangeView, b: FunctionChangeView| by_number(column(a), column(b));
    let third = |a: FunctionChangeView, b: FunctionChangeView| by_text(name(a), name(b));
    let fourth = |a: FunctionChangeView, b: FunctionChangeView| by_text(kind(a), kind(b));
    lemma_lawful_otherwise(third, fourth);
    let names = |a: FunctionChangeView, b: FunctionChangeView| otherwise(third(a, b), fourth(a, b));
    lemma_lawful_otherwise(second, names);
    let rest = |a: FunctionChangeView, b: FunctionChangeView| otherwise(second(a, b), names(a, b));
    lemma_lawful_otherwise(first, rest);
    let whole = |a: FunctionChangeView, b: FunctionChangeView| otherwise(first(a, b), rest(a, b));
    assert(whole =~= function_change_order());
}

/// The changes of a file come in source order: none starts before one that
/// precedes it.
pub proof fn lemma_changes_in_source_order(file: FileChangeView, base: SideView, target: SideView, i: int, j: int)
    requires
        0 <= i < j < mapped(file, base, target).functions.len(),
    ensures
        ({
            let (line, column) = change_start(mapped(file, base, target).functions[i]);
            let (later_line, later_column) = change_start(mapped(file, base, target).functions[j]);
            line < later_line || (line == later_line && column <= later_column)
        }),
{
    let changes = changes_of(all_keys(base.functions, target.functions), base.functions, target.functions, file.status, file.hunks);
    let out = mapped(file, base, target).functions;
    lemma_function_change_order();
    lemma_sorted_by_rank(changes, function_change_order());
    assert(by_rank(function_change_order())(out[i], out[j]));
}

} // verus!
