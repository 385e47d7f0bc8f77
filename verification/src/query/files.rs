//! Which changed files a caller asked for, and in what order.

use vstd::prelude::*;

use crate::collections::{arranged, in_sequence, lemma_arranged_keeps};
use crate::imports::{ImportIndex, IndexView};
use crate::order::{arrange_by, by_rank, compare_numbers, lawful, lemma_lawful_otherwise, lemma_sorted_by_rank, number_rank, or_else, otherwise};
use crate::output::{file_status, file_status_word, language, language_word};
use crate::query::classify::{classification, classification_word, classify, FileClassification};
use crate::query::functions::{direct_importers, importer_count, index_view, lemma_by_text, lemma_largest_first, level_number, level_place};
use crate::query::impact::{for_file, impact_of, link_confidence, link_reason, test_views, FileImpactView};
use crate::query::page::{applied_limit, paginate, window, window_facts, Page, PageWindow};
use crate::query::risk::{RiskLevel, ScoreAssessment, ScoreView};
use crate::query::rows::{display_path, path_of};
use crate::query::totals::{
    aggregate, aggregate_complexity, area_of, change_area, change_shape, count_functions, counts_of, diagnostic_counts, file_assessment, file_risk,
    no_functions, shape_of, sums_over, with_functions, AggregateComplexity, DiagnosticCounts, FunctionCounts, LineCounts,
};
use crate::result::{file_views, AnalysisResult, FileResult, FileView};
use crate::text::{compare, same_text, text_rank, texts, Rank};

verus! {

/// Which files to list.
#[derive(Debug, Clone, Copy, PartialEq, Eq)]
pub struct FileFilter {
    pub classification: Option<FileClassification>,
    pub minimum_risk: Option<RiskLevel>,
    pub page: Page,
}

impl Default for FileFilter {
    fn default() -> (r: Self)
        ensures
            r == (FileFilter { classification: None, minimum_risk: None, page: (Page { limit: None, offset: 0 }) }),
    {
        FileFilter { classification: None, minimum_risk: None, page: Page { limit: None, offset: 0 } }
    }
}

/// The texts of borrowed strings.
pub open spec fn borrowed(items: Seq<&str>) -> Seq<Seq<char>> {
    Seq::new(items.len(), |i: int| items[i]@)
}

pub(crate) fn borrow_all<'a>(items: &'a Vec<String>) -> (r: Vec<&'a str>)
    ensures
        borrowed(r@) == texts(items@),
{
    let mut out: Vec<&'a str> = Vec::new();
    let mut i: usize = 0;
    while i < items.len()
        invariant
            i <= items.len(),
            out@.len() == i,
            forall|k: int| 0 <= k < i ==> (#[trigger] out@[k])@ == items@[k]@,
        decreases items.len() - i,
    {
        out.push(items[i].as_str());
        i = i + 1;
    }
    assert(borrowed(out@) =~= texts(items@));
    out
}

/// Names that a change adds to and removes from a module's public surface.
#[derive(Debug, Clone)]
pub struct ExportChange<'a> {
    pub added: Vec<&'a str>,
    pub removed: Vec<&'a str>,
}

impl<'a> ExportChange<'a> {
    #[must_use]
    pub fn is_empty(&self) -> (r: bool)
        ensures
            r == (self.added@.len() == 0 && self.removed@.len() == 0),
    {
        self.added.len() == 0 && self.removed.len() == 0
    }
}

/// A related test, as an answer reports it.
#[derive(Debug, Clone)]
pub struct RelatedTestView {
    pub file: String,
    pub reason: &'static str,
    /// Confidence that the test exercises the change, in hundredths.
    pub confidence: u32,
}

/// What else in the revision reaches a file, as an answer reports it.
#[derive(Debug, Clone)]
pub struct ImpactView {
    pub direct_importers: u32,
    pub nearby_importers: u32,
    pub related_tests: Vec<RelatedTestView>,
}

/// A reported impact by what it holds.
#[verifier::ext_equal]
pub struct ImpactRow {
    pub direct_importers: u32,
    pub nearby_importers: u32,
    pub related_tests: Seq<(Seq<char>, Seq<char>, u32)>,
}

/// Related tests by what they hold.
pub open spec fn test_rows(tests: Seq<RelatedTestView>) -> Seq<(Seq<char>, Seq<char>, u32)> {
    Seq::new(tests.len(), |i: int| (tests[i].file@, tests[i].reason@, tests[i].confidence))
}

impl View for ImpactView {
    type V = ImpactRow;

    open spec fn view(&self) -> ImpactRow {
        ImpactRow {
            direct_importers: self.direct_importers,
            nearby_importers: self.nearby_importers,
            related_tests: test_rows(self.related_tests@),
        }
    }
}

/// How an impact is reported.
pub open spec fn reported(impact: FileImpactView) -> ImpactRow {
    ImpactRow {
        direct_importers: impact.direct_importers,
        nearby_importers: impact.nearby_importers,
        related_tests: Seq::new(
            impact.related_tests.len(),
            |i: int| (impact.related_tests[i].0, link_reason(impact.related_tests[i].1), link_confidence(impact.related_tests[i].1)),
        ),
    }
}

/// The impact that is reported of a path: none where no index was built.
pub open spec fn reported_impact(index: Option<IndexView>, path: Seq<char>) -> Option<ImpactRow> {
    match index {
        Some(index) => Some(reported(impact_of(index, path))),
        None => None,
    }
}

/// A reported impact by what it holds, where there is one.
pub open spec fn impact_row(impact: Option<ImpactView>) -> Option<ImpactRow> {
    match impact {
        Some(impact) => Some(impact@),
        None => None,
    }
}

/// Project one file's reach into the response shape.
pub(crate) fn impact_view(index: Option<&ImportIndex>, path: &str) -> (r: Option<ImpactView>)
    ensures
        impact_row(r) == reported_impact(index_view(index), path@),
{
    let Some(index) = index else {
        return None;
    };
    let reach = for_file(index, path);
    let ghost known = reach@.related_tests;
    let mut related_tests: Vec<RelatedTestView> = Vec::new();
    let mut i: usize = 0;
    while i < reach.related_tests.len()
        invariant
            i <= reach.related_tests.len(),
            known == test_views(reach.related_tests@),
            related_tests@.len() == i,
            forall|k: int| #![trigger related_tests@[k]]
                0 <= k < i ==> related_tests@[k].file@ == known[k].0 && related_tests@[k].reason@ == link_reason(known[k].1)
                    && related_tests@[k].confidence == link_confidence(known[k].1),
        decreases reach.related_tests.len() - i,
    {
        let test = &reach.related_tests[i];
        assert(known[i as int] == (test.file@, test.link));
        related_tests.push(RelatedTestView { file: test.file.clone(), reason: test.link.reason(), confidence: test.link.confidence() });
        i = i + 1;
    }
    let r = ImpactView { direct_importers: reach.direct_importers, nearby_importers: reach.nearby_importers, related_tests };
    assert(r@ =~= reported(impact_of(index@, path@)));
    Some(r)
}

/// One changed file, as a list reports it.
#[derive(Debug, Clone)]
pub struct ChangedFile<'a> {
    pub path: &'a str,
    pub renamed_from: Option<&'a str>,
    pub status: &'static str,
    pub classification: &'static str,
    pub language: Option<&'static str>,
    pub area: String,
    pub lines: LineCounts,
    pub functions: FunctionCounts,
    pub complexity: AggregateComplexity,
    /// Intrinsic risk of the riskiest function this change touched here.
    pub risk: ScoreAssessment,
    /// The same functions ranked by how much review attention they are owed.
    ///
    /// Always at least [`Self::risk`] in level, because it starts from that
    /// score and adds what the function's position in the module exposes.
    pub review_priority: ScoreAssessment,
    /// Whether this change moved complexity out of a function into new ones.
    pub change_shape: &'static str,
    /// Names this change adds to and removes from the module's public surface.
    pub exports: ExportChange<'a>,
    /// What else in the revision reaches this file. Absent when the import
    /// graph was not built, which is not the same as nothing reaching it.
    pub impact: Option<ImpactView>,
    pub diagnostics: DiagnosticCounts,
}

/// A changed file by what it holds.
#[verifier::ext_equal]
pub struct FileRow {
    pub path: Seq<char>,
    pub renamed_from: Option<Seq<char>>,
    pub status: Seq<char>,
    pub classification: Seq<char>,
    pub language: Option<Seq<char>>,
    pub area: Seq<char>,
    pub lines: LineCounts,
    pub functions: FunctionCounts,
    pub complexity: AggregateComplexity,
    pub risk: ScoreView,
    pub review_priority: ScoreView,
    pub change_shape: Seq<char>,
    pub exports_added: Seq<Seq<char>>,
    pub exports_removed: Seq<Seq<char>>,
    pub impact: Option<ImpactRow>,
    pub diagnostics: DiagnosticCounts,
}

/// The text of a borrowed string, where there is one.
pub open spec fn borrowed_text(text: Option<&str>) -> Option<Seq<char>> {
    match text {
        Some(text) => Some(text@),
        None => None,
    }
}

impl<'a> View for ChangedFile<'a> {
    type V = FileRow;

    open spec fn view(&self) -> FileRow {
        FileRow {
            path: self.path@,
            renamed_from: borrowed_text(self.renamed_from),
            status: self.status@,
            classification: self.classification@,
            language: borrowed_text(self.language),
            area: self.area@,
            lines: self.lines,
            functions: self.functions,
            complexity: self.complexity,
            risk: self.risk@,
            review_priority: self.review_priority@,
            change_shape: self.change_shape@,
            exports_added: borrowed(self.exports.added@),
            exports_removed: borrowed(self.exports.removed@),
            impact: impact_row(self.impact),
            diagnostics: self.diagnostics,
        }
    }
}

/// Changed files by what they hold.
pub open spec fn file_rows(rows: Seq<ChangedFile>) -> Seq<FileRow> {
    Seq::new(rows.len(), |i: int| rows[i]@)
}

/// The row of a changed file.
pub open spec fn file_row(file: FileView, index: Option<IndexView>) -> FileRow {
    let path = path_of(file);
    let assessment = file_risk(file, importer_count(index, path));
    FileRow {
        path,
        renamed_from: if file.base_path is Some && file.base_path != file.target_path {
            file.base_path
        } else {
            None
        },
        status: file_status_word(file.status),
        classification: classification_word(classification(path)),
        language: match file.language {
            Some(language) => Some(language_word(language)),
            None => None,
        },
        area: area_of(path),
        lines: LineCounts { added: file.added_lines, removed: file.removed_lines },
        functions: with_functions(no_functions(), file.functions),
        complexity: aggregate(sums_over(file.functions)),
        risk: assessment.risk,
        review_priority: assessment.review_priority,
        change_shape: shape_of(file),
        exports_added: file.exports_added,
        exports_removed: file.exports_removed,
        impact: reported_impact(index, path),
        diagnostics: counts_of(file.diagnostics),
    }
}

/// Whether a filter asks for a file.
pub open spec fn admits(filter: FileFilter, file: FileView, row: FileRow) -> bool {
    &&& filter.classification is Some ==> filter.classification->0 == classification(path_of(file))
    &&& filter.minimum_risk is Some ==> level_place(row.risk.level) >= level_place(filter.minimum_risk->0)
}

/// The rows that a filter asks for, in the order of files.
pub open spec fn selected_files(filter: FileFilter, files: Seq<FileView>, index: Option<IndexView>) -> Seq<FileRow>
    decreases files.len(),
{
    if files.len() == 0 {
        Seq::empty()
    } else {
        let before = selected_files(filter, files.drop_last(), index);
        let row = file_row(files.last(), index);
        if admits(filter, files.last(), row) {
            before.push(row)
        } else {
            before
        }
    }
}

/// The changed lines of a row.
pub open spec fn file_row_lines(row: FileRow) -> int {
    row.lines.added + row.lines.removed
}

/// Where one row stands relative to another: what most needs review first.
pub open spec fn file_row_rank(a: FileRow, b: FileRow) -> Rank {
    otherwise(
        number_rank(level_place(b.review_priority.level), level_place(a.review_priority.level)),
        otherwise(
            number_rank(level_place(b.risk.level), level_place(a.risk.level)),
            otherwise(number_rank(file_row_lines(b), file_row_lines(a)), text_rank(a.path, b.path)),
        ),
    )
}

/// The order of rows.
pub open spec fn file_row_order() -> spec_fn(FileRow, FileRow) -> Rank {
    |a: FileRow, b: FileRow| file_row_rank(a, b)
}

proof fn lemma_file_row_order()
    ensures
        lawful(file_row_order()),
{
    let priority = |r: FileRow| level_place(r.review_priority.level);
    let risk = |r: FileRow| level_place(r.risk.level);
    let lines = |r: FileRow| file_row_lines(r);
    let path = |r: FileRow| r.path;
    lemma_largest_first(priority);
    lemma_largest_first(risk);
    lemma_largest_first(lines);
    lemma_by_text(path);
    let by_path = |a: FileRow, b: FileRow| text_rank(path(a), path(b));
    let by_lines = |a: FileRow, b: FileRow| number_rank(lines(b), lines(a));
    let by_risk = |a: FileRow, b: FileRow| number_rank(risk(b), risk(a));
    let by_priority = |a: FileRow, b: FileRow| number_rank(priority(b), priority(a));
    let from_lines = |a: FileRow, b: FileRow| otherwise(by_lines(a, b), by_path(a, b));
    lemma_lawful_otherwise(by_lines, by_path);
    let from_risk = |a: FileRow, b: FileRow| otherwise(by_risk(a, b), from_lines(a, b));
    lemma_lawful_otherwise(by_risk, from_lines);
    lemma_lawful_otherwise(by_priority, from_risk);
    assert(file_row_order() =~= |a: FileRow, b: FileRow| otherwise(by_priority(a, b), from_risk(a, b)));
}

/// Describe one changed file.
fn changed_file<'a>(file: &'a FileResult, index: Option<&ImportIndex>) -> (r: ChangedFile<'a>)
    ensures
        r@ == file_row(file@, index_view(index)),
{
    let path = display_path(file);
    let role = classify(path);
    let assessment = file_assessment(file, role, direct_importers(index, path));
    let mut functions = FunctionCounts { added: 0, removed: 0, modified: 0, unchanged: 0 };
    count_functions(&mut functions, file);
    let renamed_from: Option<&'a str> = match &file.base_path {
        Some(base) => match &file.target_path {
            Some(target) => if same_text(base.as_str(), target.as_str()) {
                None
            } else {
                Some(base.as_str())
            },
            None => Some(base.as_str()),
        },
        None => None,
    };
    let r = ChangedFile {
        path,
        renamed_from,
        status: file_status(file.status),
        classification: role.as_str(),
        language: match file.language {
            Some(value) => Some(language(value)),
            None => None,
        },
        area: change_area(path),
        lines: LineCounts { added: file.added_lines, removed: file.removed_lines },
        functions,
        complexity: aggregate_complexity(file),
        risk: assessment.risk,
        review_priority: assessment.review_priority,
        change_shape: change_shape(file),
        exports: ExportChange { added: borrow_all(&file.exports_added), removed: borrow_all(&file.exports_removed) },
        impact: impact_view(index, path),
        diagnostics: diagnostic_counts(&file.diagnostics),
    };
    assert(r@ =~= file_row(file@, index_view(index)));
    r
}

/// A page of changed files.
#[derive(Debug, Clone)]
pub struct FileList<'a> {
    pub files: Vec<ChangedFile<'a>>,
    pub page: PageWindow,
}

/// Select and rank the files a filter asks for.
pub fn ranked_files<'a>(result: &'a AnalysisResult, filter: &FileFilter, index: Option<&ImportIndex>) -> (rows: Vec<ChangedFile<'a>>)
    ensures
        file_rows(rows@) == arranged(selected_files(*filter, result@.files, index_view(index)), by_rank(file_row_order())),
        in_sequence(file_rows(rows@), by_rank(file_row_order())),
        file_rows(rows@).to_multiset() == selected_files(*filter, result@.files, index_view(index)).to_multiset(),
{
    let ghost files = result@.files;
    let ghost known = index_view(index);
    let mut rows: Vec<ChangedFile<'a>> = Vec::new();
    let mut i: usize = 0;
    assert(files.take(0) =~= Seq::<FileView>::empty());
    assert(file_rows(rows@) =~= Seq::<FileRow>::empty());
    while i < result.files.len()
        invariant
            i <= result.files.len(),
            files == file_views(result.files@),
            known == index_view(index),
            file_rows(rows@) == selected_files(*filter, files.take(i as int), known),
        decreases result.files.len() - i,
    {
        let file = &result.files[i];
        let ghost so_far = file_rows(rows@);
        assert(files.take(i + 1).drop_last() =~= files.take(i as int));
        assert(files.take(i + 1).last() == file@);
        let wanted = match filter.classification {
            Some(wanted) => wanted == classify(display_path(file)),
            None => true,
        };
        if wanted {
            let row = changed_file(file, index);
            let ghost shown = row@;
            let risky = match filter.minimum_risk {
                Some(minimum) => level_number(row.risk.level) >= level_number(minimum),
                None => true,
            };
            if risky {
                rows.push(row);
                assert(file_rows(rows@) =~= so_far.push(shown));
            }
        }
        i = i + 1;
    }
    assert(files.take(i as int) =~= files);
    let rank_of = |a: &ChangedFile<'a>, b: &ChangedFile<'a>| -> (r: Rank)
        ensures
            r == file_row_rank(a@, b@),
    {
        let a_lines: u64 = a.lines.added as u64 + a.lines.removed as u64;
        let b_lines: u64 = b.lines.added as u64 + b.lines.removed as u64;
        or_else(
            compare_numbers(level_number(b.review_priority.level), level_number(a.review_priority.level)),
            or_else(
                compare_numbers(level_number(b.risk.level), level_number(a.risk.level)),
                or_else(compare_numbers(b_lines, a_lines), compare(a.path, b.path)),
            ),
        )
    };
    let ghost shown = |r: ChangedFile<'a>| r@;
    let ghost unsorted = file_rows(rows@);
    assert(unsorted =~= rows@.map_values(shown));
    arrange_by::<ChangedFile<'a>, FileRow, _>(&mut rows, rank_of, Ghost(shown), Ghost(file_row_order()));
    proof {
        assert(file_rows(rows@) =~= rows@.map_values(shown));
        lemma_file_row_order();
        lemma_sorted_by_rank(unsorted, file_row_order());
        lemma_arranged_keeps(unsorted, by_rank(file_row_order()));
    }
    rows
}

/// List changed files, most in need of review first.
#[must_use]
pub fn list_changed_files<'a>(result: &'a AnalysisResult, filter: &FileFilter, index: Option<&ImportIndex>) -> (r: FileList<'a>)
    ensures
        ({
            let all = arranged(selected_files(*filter, result@.files, index_view(index)), by_rank(file_row_order()));
            file_rows(r.files@) == window(all, filter.page.offset as int, applied_limit(filter.page.limit)) && r.page == window_facts(
                all.len(),
                filter.page,
            )
        }),
{
    let rows = ranked_files(result, filter, index);
    let ghost all = rows@;
    let (files, page) = paginate(rows, &filter.page);
    assert(file_rows(files@) =~= window(file_rows(all), filter.page.offset as int, applied_limit(filter.page.limit)));
    FileList { files, page }
}

} // verus!
