//! Which changed functions a caller asked for, and in what order.

use vstd::prelude::*;

use crate::analysis::{saturated, FunctionChangeStatus};
use crate::collections::{arranged, in_sequence, lemma_arranged_keeps, lemma_listed, listed};
use crate::graph::count;
use crate::imports::{ImportIndex, IndexView};
use crate::order::{
    arrange_by, by_rank, compare_numbers, lawful, lemma_lawful_by, lemma_lawful_flipped, lemma_lawful_otherwise, lemma_numbers_lawful, lemma_sorted_by_rank,
    lemma_texts_lawful, number_rank, or_else, otherwise,
};
use crate::output::function_status_word;
use crate::query::classify::{classification, classify, FileClassification};
use crate::query::page::{applied_limit, paginate, window, window_facts, Page, PageWindow};
use crate::query::risk::RiskLevel;
use crate::query::rows::{changed_function, display_path, function_rows, path_of, row_of, ChangedFunction, FunctionRow};
use crate::result::{file_views, function_views, AnalysisResult, FileResult, FileView, FunctionView};
use crate::text::{compare, same_text, text_option, text_rank, Rank};

verus! {

/// Which functions to list.
#[derive(Debug, Clone, PartialEq, Eq)]
pub struct FunctionFilter {
    pub file: Option<String>,
    pub status: Option<FunctionChangeStatus>,
    pub classification: Option<FileClassification>,
    pub minimum_risk: Option<RiskLevel>,
    pub min_complexity_delta: Option<i64>,
    pub include_unchanged: bool,
    pub page: Page,
}

/// A filter by its texts.
#[verifier::ext_equal]
pub struct FilterFacts {
    pub file: Option<Seq<char>>,
    pub status: Option<FunctionChangeStatus>,
    pub classification: Option<FileClassification>,
    pub minimum_risk: Option<RiskLevel>,
    pub min_complexity_delta: Option<i64>,
    pub include_unchanged: bool,
    pub page: Page,
}

impl View for FunctionFilter {
    type V = FilterFacts;

    open spec fn view(&self) -> FilterFacts {
        FilterFacts {
            file: text_option(self.file),
            status: self.status,
            classification: self.classification,
            minimum_risk: self.minimum_risk,
            min_complexity_delta: self.min_complexity_delta,
            include_unchanged: self.include_unchanged,
            page: self.page,
        }
    }
}

impl Default for FunctionFilter {
    fn default() -> (r: Self)
        ensures
            r@ == everything(),
    {
        FunctionFilter {
            file: None,
            status: None,
            classification: None,
            minimum_risk: None,
            min_complexity_delta: None,
            include_unchanged: false,
            page: Page { limit: None, offset: 0 },
        }
    }
}

/// The filter that admits every changed function.
pub open spec fn everything() -> FilterFacts {
    FilterFacts {
        file: None,
        status: None,
        classification: None,
        minimum_risk: None,
        min_complexity_delta: None,
        include_unchanged: false,
        page: Page { limit: None, offset: 0 },
    }
}

/// Where a level stands, the lowest first.
pub open spec fn level_place(level: RiskLevel) -> int {
    match level {
        RiskLevel::Low => 0,
        RiskLevel::Medium => 1,
        RiskLevel::High => 2,
    }
}

pub(crate) fn level_number(level: RiskLevel) -> (r: u64)
    ensures
        r == level_place(level),
{
    match level {
        RiskLevel::Low => 0,
        RiskLevel::Medium => 1,
        RiskLevel::High => 2,
    }
}

/// An import index by what it holds, where there is one.
pub open spec fn index_view(index: Option<&ImportIndex>) -> Option<IndexView> {
    match index {
        Some(index) => Some(index@),
        None => None,
    }
}

/// How many modules import a path directly, where an index can tell.
pub open spec fn importer_count(index: Option<IndexView>, path: Seq<char>) -> Option<u32> {
    match index {
        Some(index) => Some(saturated(listed(index.importers_of(path)).len())),
        None => None,
    }
}

pub(crate) fn direct_importers(index: Option<&ImportIndex>, path: &str) -> (r: Option<u32>)
    ensures
        r == importer_count(index_view(index), path@),
{
    match index {
        Some(index) => {
            let importers = index.importers(path);
            let n: usize = importers.len();
            proof {
                lemma_listed(importers.keys());
            }
            Some(count(n))
        },
        None => None,
    }
}

/// Whether a filter asks for a file's functions.
pub open spec fn admits_file(filter: FilterFacts, file: FileView) -> bool {
    &&& filter.file is Some ==> filter.file->0 == path_of(file)
    &&& filter.classification is Some ==> filter.classification->0 == classification(path_of(file))
}

/// Whether a filter asks for a function of a file that it asks for.
pub open spec fn admits_function(filter: FilterFacts, function: FunctionView, row: FunctionRow) -> bool {
    let cognitive = row.metrics.cognitive_complexity.delta;
    let cyclomatic = row.metrics.cyclomatic_complexity.delta;
    &&& filter.include_unchanged || function.status != FunctionChangeStatus::Unchanged
    &&& filter.status is Some ==> filter.status->0 == function.status
    &&& filter.minimum_risk is Some ==> level_place(row.risk.level) >= level_place(filter.minimum_risk->0)
    &&& filter.min_complexity_delta is Some ==> cognitive >= filter.min_complexity_delta->0 || cyclomatic >= filter.min_complexity_delta->0
}

/// The rows that a filter asks for among a file's functions, in their order.
pub open spec fn selected_in(filter: FilterFacts, file: FileView, functions: Seq<FunctionView>, importers: Option<u32>) -> Seq<FunctionRow>
    decreases functions.len(),
{
    if functions.len() == 0 {
        Seq::empty()
    } else {
        let before = selected_in(filter, file, functions.drop_last(), importers);
        let row = row_of(file, functions.last(), importers);
        if admits_function(filter, functions.last(), row) {
            before.push(row)
        } else {
            before
        }
    }
}

/// The rows that a filter asks for, in the order of files and functions.
pub open spec fn selected(filter: FilterFacts, files: Seq<FileView>, index: Option<IndexView>) -> Seq<FunctionRow>
    decreases files.len(),
{
    if files.len() == 0 {
        Seq::empty()
    } else {
        let before = selected(filter, files.drop_last(), index);
        let file = files.last();
        if admits_file(filter, file) {
            before + selected_in(filter, file, file.functions, importer_count(index, path_of(file)))
        } else {
            before
        }
    }
}

/// The changed lines of a row.
pub open spec fn row_lines(row: FunctionRow) -> int {
    row.change.lines_added + row.change.lines_removed
}

/// Where one row stands relative to another: what most needs review first.
pub open spec fn row_rank(a: FunctionRow, b: FunctionRow) -> Rank {
    otherwise(
        number_rank(b.review_priority.score as int, a.review_priority.score as int),
        otherwise(
            number_rank(b.risk.score as int, a.risk.score as int),
            otherwise(
                number_rank(b.metrics.cognitive_complexity.delta as int, a.metrics.cognitive_complexity.delta as int),
                otherwise(number_rank(row_lines(b), row_lines(a)), otherwise(text_rank(a.file, b.file), text_rank(a.symbol, b.symbol))),
            ),
        ),
    )
}

/// The order of rows.
pub open spec fn row_order() -> spec_fn(FunctionRow, FunctionRow) -> Rank {
    |a: FunctionRow, b: FunctionRow| row_rank(a, b)
}

/// Numbers read off elements give a lawful order, the largest first.
pub proof fn lemma_largest_first<T>(key: spec_fn(T) -> int)
    ensures
        lawful(|a: T, b: T| number_rank(key(b), key(a))),
{
    let plain = |a: int, b: int| number_rank(a, b);
    lemma_numbers_lawful();
    lemma_lawful_by(plain, key);
    let rising = |a: T, b: T| plain(key(a), key(b));
    lemma_lawful_flipped(rising);
    assert((|a: T, b: T| number_rank(key(b), key(a))) =~= |a: T, b: T| rising(b, a));
}

/// Texts read off elements give a lawful order.
pub proof fn lemma_by_text<T>(key: spec_fn(T) -> Seq<char>)
    ensures
        lawful(|a: T, b: T| text_rank(key(a), key(b))),
{
    let plain = |a: Seq<char>, b: Seq<char>| text_rank(a, b);
    lemma_texts_lawful();
    lemma_lawful_by(plain, key);
    assert((|a: T, b: T| text_rank(key(a), key(b))) =~= |a: T, b: T| plain(key(a), key(b)));
}

proof fn lemma_row_order()
    ensures
        lawful(row_order()),
{
    let priority = |r: FunctionRow| r.review_priority.score as int;
    let risk = |r: FunctionRow| r.risk.score as int;
    let cognitive = |r: FunctionRow| r.metrics.cognitive_complexity.delta as int;
    let lines = |r: FunctionRow| row_lines(r);
    let file = |r: FunctionRow| r.file;
    let symbol = |r: FunctionRow| r.symbol;
    lemma_largest_first(priority);
    lemma_largest_first(risk);
    lemma_largest_first(cognitive);
    lemma_largest_first(lines);
    lemma_by_text(file);
    lemma_by_text(symbol);
    let by_symbol = |a: FunctionRow, b: FunctionRow| text_rank(symbol(a), symbol(b));
    let by_file = |a: FunctionRow, b: FunctionRow| text_rank(file(a), file(b));
    let by_lines = |a: FunctionRow, b: FunctionRow| number_rank(lines(b), lines(a));
    let by_cognitive = |a: FunctionRow, b: FunctionRow| number_rank(cognitive(b), cognitive(a));
    let by_risk = |a: FunctionRow, b: FunctionRow| number_rank(risk(b), risk(a));
    let by_priority = |a: FunctionRow, b: FunctionRow| number_rank(priority(b), priority(a));
    let from_file = |a: FunctionRow, b: FunctionRow| otherwise(by_file(a, b), by_symbol(a, b));
    lemma_lawful_otherwise(by_file, by_symbol);
    let from_lines = |a: FunctionRow, b: FunctionRow| otherwise(by_lines(a, b), from_file(a, b));
    lemma_lawful_otherwise(by_lines, from_file);
    let from_cognitive = |a: FunctionRow, b: FunctionRow| otherwise(by_cognitive(a, b), from_lines(a, b));
    lemma_lawful_otherwise(by_cognitive, from_lines);
    let from_risk = |a: FunctionRow, b: FunctionRow| otherwise(by_risk(a, b), from_cognitive(a, b));
    lemma_lawful_otherwise(by_risk, from_cognitive);
    lemma_lawful_otherwise(by_priority, from_risk);
    assert(row_order() =~= |a: FunctionRow, b: FunctionRow| otherwise(by_priority(a, b), from_risk(a, b)));
}

/// Compare two signed numbers.
pub(crate) fn compare_signed(a: i64, b: i64) -> (r: Rank)
    ensures
        r == number_rank(a as int, b as int),
{
    if a < b {
        Rank::Before
    } else if a == b {
        Rank::Same
    } else {
        Rank::After
    }
}

/// The rows that a filter asks for among one file's functions, behind what a
/// list holds already.
fn select_in<'a>(rows: &mut Vec<ChangedFunction<'a>>, filter: &FunctionFilter, file: &'a FileResult, role: FileClassification, importers: Option<u32>)
    requires
        role == classification(path_of(file@)),
    ensures
        function_rows(final(rows)@) == function_rows(old(rows)@) + selected_in(filter@, file@, file@.functions, importers),
{
    let ghost given = function_rows(rows@);
    let ghost functions = file@.functions;
    let mut i: usize = 0;
    assert(functions.take(0) =~= Seq::<FunctionView>::empty());
    while i < file.functions.len()
        invariant
            i <= file.functions.len(),
            functions == file@.functions,
            functions == function_views(file.functions@),
            role == classification(path_of(file@)),
            function_rows(rows@) =~= given + selected_in(filter@, file@, functions.take(i as int), importers),
        decreases file.functions.len() - i,
    {
        let function = &file.functions[i];
        let ghost so_far = function_rows(rows@);
        assert(functions.take(i + 1).drop_last() =~= functions.take(i as int));
        assert(functions.take(i + 1).last() == function@);
        if filter.include_unchanged || function.status != FunctionChangeStatus::Unchanged {
            let wanted_status = match filter.status {
                Some(wanted) => wanted == function.status,
                None => true,
            };
            if wanted_status {
                let row = changed_function(role, file, function, importers);
                let ghost shown = row@;
                let risky = match filter.minimum_risk {
                    Some(minimum) => level_number(row.risk.level) >= level_number(minimum),
                    None => true,
                };
                let grown = match filter.min_complexity_delta {
                    Some(minimum) => row.metrics.cognitive_complexity.delta >= minimum || row.metrics.cyclomatic_complexity.delta >= minimum,
                    None => true,
                };
                if risky && grown {
                    rows.push(row);
                    assert(function_rows(rows@) =~= so_far.push(shown));
                }
            }
        }
        i = i + 1;
    }
    assert(functions.take(i as int) =~= functions);
}

/// Select, score, and rank the functions a filter asks for.
pub fn ranked_functions<'a>(result: &'a AnalysisResult, filter: &FunctionFilter, index: Option<&ImportIndex>) -> (rows: Vec<ChangedFunction<'a>>)
    ensures
        function_rows(rows@) == arranged(selected(filter@, result@.files, index_view(index)), by_rank(row_order())),
        in_sequence(function_rows(rows@), by_rank(row_order())),
        function_rows(rows@).to_multiset() == selected(filter@, result@.files, index_view(index)).to_multiset(),
{
    let mut rows: Vec<ChangedFunction<'a>> = Vec::new();
    let ghost files = result@.files;
    let ghost known = index_view(index);
    let mut i: usize = 0;
    assert(files.take(0) =~= Seq::<FileView>::empty());
    assert(function_rows(rows@) =~= Seq::<FunctionRow>::empty());
    while i < result.files.len()
        invariant
            i <= result.files.len(),
            files == file_views(result.files@),
            known == index_view(index),
            function_rows(rows@) == selected(filter@, files.take(i as int), known),
        decreases result.files.len() - i,
    {
        let file = &result.files[i];
        assert(files.take(i + 1).drop_last() =~= files.take(i as int));
        assert(files.take(i + 1).last() == file@);
        let path = display_path(file);
        let wanted_file = match &filter.file {
            Some(wanted) => same_text(wanted.as_str(), path),
            None => true,
        };
        let role = classify(path);
        let wanted_role = match filter.classification {
            Some(wanted) => wanted == role,
            None => true,
        };
        if wanted_file && wanted_role {
            select_in(&mut rows, filter, file, role, direct_importers(index, path));
        }
        i = i + 1;
    }
    assert(files.take(i as int) =~= files);
    let rank_of = |a: &ChangedFunction<'a>, b: &ChangedFunction<'a>| -> (r: Rank)
        ensures
            r == row_rank(a@, b@),
    {
        let a_lines: u64 = a.change.lines_added as u64 + a.change.lines_removed as u64;
        let b_lines: u64 = b.change.lines_added as u64 + b.change.lines_removed as u64;
        or_else(
            compare_numbers(b.review_priority.score as u64, a.review_priority.score as u64),
            or_else(
                compare_numbers(b.risk.score as u64, a.risk.score as u64),
                or_else(
                    compare_signed(b.metrics.cognitive_complexity.delta, a.metrics.cognitive_complexity.delta),
                    or_else(compare_numbers(b_lines, a_lines), or_else(compare(a.file, b.file), compare(a.symbol.as_str(), b.symbol.as_str()))),
                ),
            ),
        )
    };
    let ghost shown = |r: ChangedFunction<'a>| r@;
    let ghost unsorted = function_rows(rows@);
    assert(unsorted =~= rows@.map_values(shown));
    arrange_by::<ChangedFunction<'a>, FunctionRow, _>(&mut rows, rank_of, Ghost(shown), Ghost(row_order()));
    proof {
        assert(function_rows(rows@) =~= rows@.map_values(shown));
        lemma_row_order();
        lemma_sorted_by_rank(unsorted, row_order());
        lemma_arranged_keeps(unsorted, by_rank(row_order()));
    }
    rows
}

/// A page of changed functions.
#[derive(Debug, Clone)]
pub struct FunctionList<'a> {
    pub functions: Vec<ChangedFunction<'a>>,
    pub page: PageWindow,
}

/// List changed functions, most in need of review first.
#[must_use]
pub fn list_changed_functions<'a>(result: &'a AnalysisResult, filter: &FunctionFilter, index: Option<&ImportIndex>) -> (r: FunctionList<'a>)
    ensures
        ({
            let all = arranged(selected(filter@, result@.files, index_view(index)), by_rank(row_order()));
            function_rows(r.functions@) == window(all, filter.page.offset as int, applied_limit(filter.page.limit)) && r.page == window_facts(
                all.len(),
                filter.page,
            )
        }),
{
    let rows = ranked_functions(result, filter, index);
    let ghost all = rows@;
    let (functions, page) = paginate(rows, &filter.page);
    assert(function_rows(functions@) =~= window(function_rows(all), filter.page.offset as int, applied_limit(filter.page.limit)));
    FunctionList { functions, page }
}

proof fn lemma_statuses_differ()
    ensures
        function_status_word(FunctionChangeStatus::Added) != function_status_word(FunctionChangeStatus::Unchanged),
        function_status_word(FunctionChangeStatus::Removed) != function_status_word(FunctionChangeStatus::Unchanged),
        function_status_word(FunctionChangeStatus::Modified) != function_status_word(FunctionChangeStatus::Unchanged),
{
    reveal_strlit("added");
    reveal_strlit("removed");
    reveal_strlit("modified");
    reveal_strlit("unchanged");
    assert("added"@.len() == 5 && "removed"@.len() == 7 && "modified"@.len() == 8 && "unchanged"@.len() == 9);
}

proof fn lemma_unchanged_hidden_in(filter: FilterFacts, file: FileView, functions: Seq<FunctionView>, importers: Option<u32>, i: int)
    requires
        !filter.include_unchanged,
        0 <= i < selected_in(filter, file, functions, importers).len(),
    ensures
        selected_in(filter, file, functions, importers)[i].status != function_status_word(FunctionChangeStatus::Unchanged),
    decreases functions.len(),
{
    if functions.len() > 0 {
        let before = selected_in(filter, file, functions.drop_last(), importers);
        if i < before.len() {
            lemma_unchanged_hidden_in(filter, file, functions.drop_last(), importers, i);
        } else {
            lemma_statuses_differ();
        }
    }
}

/// An unchanged function is never listed unless it is asked for.
pub proof fn lemma_unchanged_hidden(filter: FilterFacts, files: Seq<FileView>, index: Option<IndexView>, i: int)
    requires
        !filter.include_unchanged,
        0 <= i < selected(filter, files, index).len(),
    ensures
        selected(filter, files, index)[i].status != function_status_word(FunctionChangeStatus::Unchanged),
    decreases files.len(),
{
    if files.len() > 0 {
        let before = selected(filter, files.drop_last(), index);
        if i < before.len() {
            lemma_unchanged_hidden(filter, files.drop_last(), index, i);
        } else {
            let file = files.last();
            lemma_unchanged_hidden_in(filter, file, file.functions, importer_count(index, path_of(file)), i - before.len());
        }
    }
}

} // verus!
