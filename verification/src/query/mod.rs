//! Answer narrow questions about an analysis instead of returning all of it.
//!
//! A whole-repository analysis is far larger than any single question needs.
//! The queries here project one analysis into the shape a caller asked for: an
//! overview, a filtered and ranked page of candidates, or one function in full.
//! Unchanged functions are never returned unless they are asked for.
//!
//! A list answers with a window over a ranked list plus the offset of the next
//! row; turning that offset into something a caller can hand back is the
//! transport's job.

pub mod classify;
pub mod detail;
pub mod files;
pub mod functions;
pub mod graph;
pub mod impact;
pub mod page;
pub mod risk;
pub mod rows;
pub mod share;
pub mod summary;
pub mod totals;

pub use detail::{
    get_analysis_diagnostics, get_function_change, DiagnosticList, DiagnosticView, FunctionDetail, HunkView, UnknownFunction,
};
pub use files::{list_changed_files, ChangedFile, ExportChange, FileFilter, FileList, ImpactView, RelatedTestView};
pub use functions::{list_changed_functions, FunctionFilter, FunctionList};
pub use page::{canonical_limit, Page, PageWindow, DEFAULT_LIMIT, MAX_LIMIT};
pub use rows::{function_id, ChangedFunction, ChurnView, LineRange, MetricDelta, MetricDeltas, RangeView};
pub use summary::{change_summary, ChangeArea, ChangeSummary, ComplexityDelta, FileCounts, ReviewCandidate, RevisionView};
pub use totals::{
    aggregate_complexity, change_area, AggregateComplexity, DiagnosticCounts, FunctionCounts, LineCounts, COMPLEXITY_EXTRACTION, OTHER_CHANGE_SHAPE,
};
