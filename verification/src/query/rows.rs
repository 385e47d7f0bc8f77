//! Rows that describe changed functions.

use vstd::prelude::*;

use crate::analysis::FunctionChangeStatus;
use crate::languages::{symbol, symbol_id, SourceRange};
use crate::metrics::FunctionMetrics;
use crate::output::{function_kind, function_kind_word, function_status, function_status_word};
use crate::query::classify::{classification, classification_word, FileClassification};
use crate::query::risk::{assess, assessment_of, ExportStatus, RiskSignals, ScoreAssessment, ScoreView};
use crate::query::share::{hundredths, lemma_hundredths_bounded, share};
use crate::result::{FileResult, FileView, FunctionResult, FunctionView};
use crate::text::{after_last, behind_last, decimal, join2, number_text, same_text, texts};

verus! {

/// The path that a file is addressed by: its target path, or its base path
/// where it was deleted.
pub open spec fn addressed(base: Option<Seq<char>>, target: Option<Seq<char>>) -> Seq<char> {
    match target {
        Some(path) => path,
        None => match base {
            Some(path) => path,
            None => "<unknown>"@,
        },
    }
}

/// The path that a file is addressed by.
pub open spec fn path_of(file: FileView) -> Seq<char> {
    addressed(file.base_path, file.target_path)
}

/// The path a file is addressed by: its target path, or its base path when the
/// file was deleted. Renames report their old path separately.
pub fn display_path(file: &FileResult) -> (r: &str)
    ensures
        r@ == path_of(file@),
{
    match &file.target_path {
        Some(path) => path.as_str(),
        None => match &file.base_path {
            Some(path) => path.as_str(),
            None => "<unknown>",
        },
    }
}

/// The revision side a function is identified on, and the range it sits at. A
/// removal, and a function with no target range, is named on the base side.
pub open spec fn side_of(function: FunctionView) -> (Seq<char>, Option<SourceRange>) {
    if function.base_range is Some && (function.status == FunctionChangeStatus::Removed || function.target_range is None) {
        ("base"@, function.base_range)
    } else if function.target_range is Some {
        ("target"@, function.target_range)
    } else {
        ("none"@, None)
    }
}

fn function_side(function: &FunctionResult) -> (r: (&'static str, Option<SourceRange>))
    ensures
        r.0@ == side_of(function@).0,
        r.1 == side_of(function@).1,
{
    if function.base_range.is_some() && (function.status == FunctionChangeStatus::Removed || function.target_range.is_none()) {
        ("base", function.base_range)
    } else if function.target_range.is_some() {
        ("target", function.target_range)
    } else {
        ("none", None)
    }
}

/// The identity of one function record.
pub open spec fn identity(file: FileView, function: FunctionView) -> Seq<char> {
    let (side, range) = side_of(function);
    let (line, column) = match range {
        Some(range) => (range.start_line as nat, range.start_column as nat),
        None => (0nat, 0nat),
    };
    path_of(file) + "#"@ + symbol(function.kind, function.qualified_name) + "@"@ + side + ":"@ + decimal(line) + ":"@ + decimal(column)
}

/// Where a function record starts on the side that it is identified on.
pub open spec fn start_of(function: FunctionView) -> (nat, nat) {
    match side_of(function).1 {
        Some(range) => (range.start_line as nat, range.start_column as nat),
        None => (0, 0),
    }
}

/// Two function records of one identity are of one kind and name, on one side
/// and at one place there. They are of one path too, unless a path holds the
/// mark that ends it.
pub proof fn lemma_identity_tells_functions_apart(a: FileView, f: FunctionView, b: FileView, g: FunctionView)
    requires
        identity(a, f) == identity(b, g),
        path_of(a) == path_of(b) || (!path_of(a).contains('#') && !path_of(b).contains('#')),
    ensures
        path_of(a) == path_of(b),
        f.kind == g.kind,
        f.qualified_name == g.qualified_name,
        side_of(f).0 == side_of(g).0,
        start_of(f) == start_of(g),
{
    reveal_strlit("#");
    reveal_strlit("@");
    reveal_strlit(":");
    reveal_strlit("base");
    reveal_strlit("target");
    reveal_strlit("none");
    assert("#"@ =~= seq!['#'] && "@"@ =~= seq!['@'] && ":"@ =~= seq![':']);
    assert(!side_of(f).0.contains('@') && !side_of(g).0.contains('@'));
    let (line, column) = start_of(f);
    let (other_line, other_column) = start_of(g);
    crate::text::lemma_decimal(line);
    crate::text::lemma_decimal(column);
    crate::text::lemma_decimal(other_line);
    crate::text::lemma_decimal(other_column);
    let s = symbol(f.kind, f.qualified_name);
    let t = symbol(g.kind, g.qualified_name);
    let named = path_of(a) + seq!['#'] + s;
    let other_named = path_of(b) + seq!['#'] + t;
    let sided = named + seq!['@'] + side_of(f).0;
    let other_sided = other_named + seq!['@'] + side_of(g).0;
    let lined = sided + seq![':'] + decimal(line);
    let other_lined = other_sided + seq![':'] + decimal(other_line);
    assert(identity(a, f) =~= lined + seq![':'] + decimal(column));
    assert(identity(b, g) =~= other_lined + seq![':'] + decimal(other_column));
    crate::text::lemma_last_split(lined, decimal(column), other_lined, decimal(other_column), ':');
    crate::text::lemma_last_split(sided, decimal(line), other_sided, decimal(other_line), ':');
    crate::text::lemma_last_split(named, side_of(f).0, other_named, side_of(g).0, '@');
    if path_of(a) == path_of(b) {
        let n = path_of(a).len() + 1;
        assert(named.skip(n as int) =~= s);
        assert(other_named.skip(n as int) =~= t);
    } else {
        crate::text::lemma_first_split(path_of(a), s, path_of(b), t, '#');
    }
    crate::languages::lemma_symbol_injective(f.kind, f.qualified_name, g.kind, g.qualified_name);
}

/// Identity of one function record, unique within an analysis.
///
/// A path and a symbol are not enough on their own: the same file can declare
/// one name on both sides of a change. The revision side the definition was
/// read from and its position there separate them. The target side is
/// preferred; a removal exists only on the base side.
#[must_use]
pub fn function_id(file: &FileResult, function: &FunctionResult) -> (r: String)
    ensures
        r@ == identity(file@, function@),
{
    let (side, range) = function_side(function);
    let (line, column): (u32, u32) = match range {
        Some(range) => (range.start_line, range.start_column),
        None => (0, 0),
    };
    let mut out = join2(display_path(file), "#");
    out.append(symbol_id(function.kind, function.qualified_name.as_str()).as_str());
    out.append("@");
    out.append(side);
    out.append(":");
    out.append(number_text(line as u64).as_str());
    out.append(":");
    out.append(number_text(column as u64).as_str());
    out
}

/// One measurement before and after a change.
#[derive(Debug, Clone, Copy, PartialEq, Eq)]
pub struct MetricDelta {
    pub before: Option<u32>,
    pub after: Option<u32>,
    pub delta: i64,
}

/// A measurement, or none where there is nothing to measure.
pub open spec fn or_zero(value: Option<u32>) -> int {
    match value {
        Some(value) => value as int,
        None => 0,
    }
}

/// A measurement on both sides, and what the change did to it.
pub open spec fn delta_of(before: Option<u32>, after: Option<u32>) -> MetricDelta {
    MetricDelta { before, after, delta: (or_zero(after) - or_zero(before)) as i64 }
}

impl MetricDelta {
    pub fn new(before: Option<u32>, after: Option<u32>) -> (r: Self)
        ensures
            r == delta_of(before, after),
            r.delta == or_zero(after) - or_zero(before),
    {
        let after_value: u32 = match after {
            Some(value) => value,
            None => 0,
        };
        let before_value: u32 = match before {
            Some(value) => value,
            None => 0,
        };
        MetricDelta { before, after, delta: after_value as i64 - before_value as i64 }
    }
}

/// Every measurement of a function before and after a change.
#[derive(Debug, Clone, Copy, PartialEq, Eq)]
pub struct MetricDeltas {
    pub physical_loc: MetricDelta,
    pub source_loc: MetricDelta,
    pub cyclomatic_complexity: MetricDelta,
    pub cognitive_complexity: MetricDelta,
}

/// The measurements of a function on both sides.
pub open spec fn deltas_of(before: Option<FunctionMetrics>, after: Option<FunctionMetrics>) -> MetricDeltas {
    MetricDeltas {
        physical_loc: delta_of(physical_of(before), physical_of(after)),
        source_loc: delta_of(source_of(before), source_of(after)),
        cyclomatic_complexity: delta_of(cyclomatic_of(before), cyclomatic_of(after)),
        cognitive_complexity: delta_of(cognitive_of(before), cognitive_of(after)),
    }
}

pub open spec fn physical_of(metrics: Option<FunctionMetrics>) -> Option<u32> {
    match metrics {
        Some(m) => Some(m.physical_loc),
        None => None,
    }
}

pub open spec fn source_of(metrics: Option<FunctionMetrics>) -> Option<u32> {
    match metrics {
        Some(m) => Some(m.source_loc),
        None => None,
    }
}

pub open spec fn cyclomatic_of(metrics: Option<FunctionMetrics>) -> Option<u32> {
    match metrics {
        Some(m) => Some(m.cyclomatic_complexity),
        None => None,
    }
}

pub open spec fn cognitive_of(metrics: Option<FunctionMetrics>) -> Option<u32> {
    match metrics {
        Some(m) => Some(m.cognitive_complexity),
        None => None,
    }
}

fn metric_deltas(before: &Option<FunctionMetrics>, after: &Option<FunctionMetrics>) -> (r: MetricDeltas)
    ensures
        r == deltas_of(*before, *after),
{
    let (b_physical, b_source, b_cyclomatic, b_cognitive): (Option<u32>, Option<u32>, Option<u32>, Option<u32>) = match before {
        Some(m) => (Some(m.physical_loc), Some(m.source_loc), Some(m.cyclomatic_complexity), Some(m.cognitive_complexity)),
        None => (None, None, None, None),
    };
    let (a_physical, a_source, a_cyclomatic, a_cognitive): (Option<u32>, Option<u32>, Option<u32>, Option<u32>) = match after {
        Some(m) => (Some(m.physical_loc), Some(m.source_loc), Some(m.cyclomatic_complexity), Some(m.cognitive_complexity)),
        None => (None, None, None, None),
    };
    MetricDeltas {
        physical_loc: MetricDelta::new(b_physical, a_physical),
        source_loc: MetricDelta::new(b_source, a_source),
        cyclomatic_complexity: MetricDelta::new(b_cyclomatic, a_cyclomatic),
        cognitive_complexity: MetricDelta::new(b_cognitive, a_cognitive),
    }
}

/// How much of a function a diff touches.
#[derive(Debug, Clone, Copy, PartialEq, Eq)]
pub struct ChurnView {
    pub changed_hunks: u32,
    pub lines_added: u32,
    pub lines_removed: u32,
    /// Changed lines inside the function over its length, in hundredths.
    pub hunk_overlap: u32,
}

/// Share of a function's lines the diff touches, in hundredths, against the
/// revision it still exists in.
pub open spec fn overlap_of(function: FunctionView) -> u32 {
    let length = match physical_of(function.metrics_after) {
        Some(length) => length as int,
        None => or_zero(physical_of(function.metrics_before)),
    };
    let added = function.churn.lines_added;
    let removed = function.churn.lines_removed;
    let touched = if added > removed {
        added as int
    } else {
        removed as int
    };
    if length == 0 {
        0
    } else if touched > length {
        100
    } else {
        hundredths(touched as nat, length as nat) as u32
    }
}

fn overlap(function: &FunctionResult) -> (r: u32)
    ensures
        r == overlap_of(function@),
        r <= 100,
{
    let length: u32 = match &function.metrics_after {
        Some(m) => m.physical_loc,
        None => match &function.metrics_before {
            Some(m) => m.physical_loc,
            None => 0,
        },
    };
    if length == 0 {
        return 0;
    }
    let touched: u32 = if function.churn.lines_added > function.churn.lines_removed {
        function.churn.lines_added
    } else {
        function.churn.lines_removed
    };
    if touched > length {
        return 100;
    }
    share(touched, length)
}

/// A share is never over the whole.
pub proof fn lemma_overlap_bounded(function: FunctionView)
    ensures
        overlap_of(function) <= 100,
{
    let length = match physical_of(function.metrics_after) {
        Some(length) => length as int,
        None => or_zero(physical_of(function.metrics_before)),
    };
    let added = function.churn.lines_added;
    let removed = function.churn.lines_removed;
    let touched = if added > removed {
        added as int
    } else {
        removed as int
    };
    if length != 0 && touched <= length {
        lemma_hundredths_bounded(touched as nat, length as nat);
    }
}

/// The lines that a definition spans.
#[derive(Debug, Clone, Copy, PartialEq, Eq)]
pub struct LineRange {
    pub start_line: u32,
    pub end_line: u32,
}

/// Where a function stands before and after a change.
#[derive(Debug, Clone, Copy, PartialEq, Eq)]
pub struct RangeView {
    pub before: Option<LineRange>,
    pub after: Option<LineRange>,
}

/// The lines of a range.
pub open spec fn lines_of(range: Option<SourceRange>) -> Option<LineRange> {
    match range {
        Some(range) => Some(LineRange { start_line: range.start_line, end_line: range.end_line }),
        None => None,
    }
}

fn line_range(range: &Option<SourceRange>) -> (r: Option<LineRange>)
    ensures
        r == lines_of(*range),
{
    match range {
        Some(range) => Some(LineRange { start_line: range.start_line, end_line: range.end_line }),
        None => None,
    }
}

/// The last segment of a qualified name, which is the name an importer writes.
pub open spec fn leaf_of(name: Seq<char>) -> Seq<char> {
    match behind_last(name, '.') {
        Some(leaf) => leaf,
        None => name,
    }
}

/// Whether a function's own name moved in or out of the module's exports.
pub open spec fn export_of(file: FileView, function: FunctionView) -> ExportStatus {
    let name = leaf_of(function.qualified_name);
    if file.exports_removed.contains(name) {
        ExportStatus::Removed
    } else if file.exports_added.contains(name) {
        ExportStatus::Added
    } else {
        ExportStatus::Unchanged
    }
}

fn holds_text(items: &Vec<String>, wanted: &str) -> (r: bool)
    ensures
        r == texts(items@).contains(wanted@),
{
    let mut i: usize = 0;
    while i < items.len()
        invariant
            i <= items.len(),
            forall|k: int| 0 <= k < i ==> (#[trigger] items@[k])@ != wanted@,
        decreases items.len() - i,
    {
        if same_text(items[i].as_str(), wanted) {
            assert(texts(items@)[i as int] == wanted@);
            return true;
        }
        i = i + 1;
    }
    assert forall|k: int| 0 <= k < texts(items@).len() implies texts(items@)[k] != wanted@ by {
        assert(texts(items@)[k] == items@[k]@);
    }
    false
}

/// Whether a function's own name moved in or out of the module's exports.
///
/// Derived from the file's export delta rather than from the function record,
/// because a name can leave the public surface while the function it named
/// stays exactly where it was.
pub fn export_status(file: &FileResult, function: &FunctionResult) -> (r: ExportStatus)
    ensures
        r == export_of(file@, function@),
{
    let name = match after_last(function.qualified_name.as_str(), '.') {
        Some(leaf) => leaf,
        None => function.qualified_name.clone(),
    };
    if holds_text(&file.exports_removed, name.as_str()) {
        ExportStatus::Removed
    } else if holds_text(&file.exports_added, name.as_str()) {
        ExportStatus::Added
    } else {
        ExportStatus::Unchanged
    }
}

/// A sum of two line counts, or the largest 32-bit number where it is larger.
pub open spec fn churned(function: FunctionView) -> u32 {
    crate::analysis::saturated((function.churn.lines_added + function.churn.lines_removed) as nat)
}

/// What the risk models read of a function.
pub open spec fn signals_of(file: FileView, function: FunctionView, importers: Option<u32>) -> RiskSignals {
    RiskSignals {
        classification: classification(path_of(file)),
        status: function.status,
        cyclomatic_delta: delta_of(cyclomatic_of(function.metrics_before), cyclomatic_of(function.metrics_after)).delta,
        cognitive_delta: delta_of(cognitive_of(function.metrics_before), cognitive_of(function.metrics_after)).delta,
        cognitive_after: or_zero(cognitive_of(function.metrics_after)) as u32,
        cyclomatic_after: or_zero(cyclomatic_of(function.metrics_after)) as u32,
        churned_lines: churned(function),
        match_confidence: function.match_confidence,
        exported: export_of(file, function),
        direct_importers: importers,
    }
}

pub(crate) fn signals_for(file: &FileResult, function: &FunctionResult, role: FileClassification, importers: Option<u32>) -> (r: RiskSignals)
    requires
        role == classification(path_of(file@)),
    ensures
        r == signals_of(file@, function@, importers),
{
    let deltas = metric_deltas(&function.metrics_before, &function.metrics_after);
    let (cognitive_after, cyclomatic_after): (u32, u32) = match &function.metrics_after {
        Some(m) => (m.cognitive_complexity, m.cyclomatic_complexity),
        None => (0, 0),
    };
    let lines: u64 = function.churn.lines_added as u64 + function.churn.lines_removed as u64;
    RiskSignals {
        classification: role,
        status: function.status,
        cyclomatic_delta: deltas.cyclomatic_complexity.delta,
        cognitive_delta: deltas.cognitive_complexity.delta,
        cognitive_after,
        cyclomatic_after,
        churned_lines: if lines > u32::MAX as u64 {
            u32::MAX
        } else {
            lines as u32
        },
        match_confidence: function.match_confidence,
        exported: export_status(file, function),
        direct_importers: importers,
    }
}

/// One changed function, as a list or a detail query reports it.
#[derive(Debug, Clone)]
pub struct ChangedFunction<'a> {
    /// Identity to pass back to a detail query.
    pub function_id: String,
    pub file: &'a str,
    /// Human-readable symbol, such as `fn:patch`.
    pub symbol: String,
    pub qualified_name: &'a str,
    pub kind: &'static str,
    pub status: &'static str,
    pub classification: &'static str,
    pub metrics: MetricDeltas,
    pub change: ChurnView,
    /// What the change did to this function's own code.
    pub risk: ScoreAssessment,
    /// Intrinsic risk plus how exposed this function is: its name in the
    /// module's public surface, the reach of the module containing it, and that
    /// module's classification.
    pub review_priority: ScoreAssessment,
    /// Confidence of the match between the revisions, in tenths.
    pub match_confidence: u32,
    pub range: RangeView,
}

/// A changed function by what its texts hold.
#[verifier::ext_equal]
pub struct FunctionRow {
    pub function_id: Seq<char>,
    pub file: Seq<char>,
    pub symbol: Seq<char>,
    pub qualified_name: Seq<char>,
    pub kind: Seq<char>,
    pub status: Seq<char>,
    pub classification: Seq<char>,
    pub metrics: MetricDeltas,
    pub change: ChurnView,
    pub risk: ScoreView,
    pub review_priority: ScoreView,
    pub match_confidence: u32,
    pub range: RangeView,
}

impl<'a> View for ChangedFunction<'a> {
    type V = FunctionRow;

    open spec fn view(&self) -> FunctionRow {
        FunctionRow {
            function_id: self.function_id@,
            file: self.file@,
            symbol: self.symbol@,
            qualified_name: self.qualified_name@,
            kind: self.kind@,
            status: self.status@,
            classification: self.classification@,
            metrics: self.metrics,
            change: self.change,
            risk: self.risk@,
            review_priority: self.review_priority@,
            match_confidence: self.match_confidence,
            range: self.range,
        }
    }
}

/// Changed functions by what their texts hold.
pub open spec fn function_rows(rows: Seq<ChangedFunction>) -> Seq<FunctionRow> {
    Seq::new(rows.len(), |i: int| rows[i]@)
}

/// The row of a changed function.
pub open spec fn row_of(file: FileView, function: FunctionView, importers: Option<u32>) -> FunctionRow {
    let assessment = assessment_of(signals_of(file, function, importers));
    FunctionRow {
        function_id: identity(file, function),
        file: path_of(file),
        symbol: symbol(function.kind, function.qualified_name),
        qualified_name: function.qualified_name,
        kind: function_kind_word(function.kind),
        status: function_status_word(function.status),
        classification: classification_word(classification(path_of(file))),
        metrics: deltas_of(function.metrics_before, function.metrics_after),
        change: ChurnView {
            changed_hunks: function.churn.changed_hunks,
            lines_added: function.churn.lines_added,
            lines_removed: function.churn.lines_removed,
            hunk_overlap: overlap_of(function),
        },
        risk: assessment.risk,
        review_priority: assessment.review_priority,
        match_confidence: function.match_confidence.tenths(),
        range: RangeView { before: lines_of(function.base_range), after: lines_of(function.target_range) },
    }
}

/// Describe one changed function of a file.
pub fn changed_function<'a>(role: FileClassification, file: &'a FileResult, function: &'a FunctionResult, importers: Option<u32>) -> (r: ChangedFunction<'a>)
    requires
        role == classification(path_of(file@)),
    ensures
        r@ == row_of(file@, function@, importers),
{
    let assessment = assess(&signals_for(file, function, role, importers));
    ChangedFunction {
        function_id: function_id(file, function),
        file: display_path(file),
        symbol: symbol_id(function.kind, function.qualified_name.as_str()),
        qualified_name: function.qualified_name.as_str(),
        kind: function_kind(function.kind),
        status: function_status(function.status),
        classification: role.as_str(),
        metrics: metric_deltas(&function.metrics_before, &function.metrics_after),
        change: ChurnView {
            changed_hunks: function.churn.changed_hunks,
            lines_added: function.churn.lines_added,
            lines_removed: function.churn.lines_removed,
            hunk_overlap: overlap(function),
        },
        risk: assessment.risk,
        review_priority: assessment.review_priority,
        match_confidence: function.match_confidence.as_tenths(),
        range: RangeView { before: line_range(&function.base_range), after: line_range(&function.target_range) },
    }
}

} // verus!
