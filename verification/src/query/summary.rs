//! The overview of a change, with a short ranked list to start from.

use vstd::prelude::*;

use crate::analysis::saturated;
use crate::collections::{arranged, TextMap};
use crate::imports::{ImportIndex, IndexView};
use crate::order::{
    arrange_by, by_rank, compare_numbers, lawful, lemma_arranged_ranked, lemma_lawful_otherwise, number_rank, or_else, otherwise, picked, ranked, strictly,
};
use crate::query::classify::{classification, classification_word, classify, FileClassification};
use crate::query::functions::{
    direct_importers, everything, importer_count, index_view, lemma_by_text, lemma_largest_first, level_number, level_place, ranked_functions, row_order,
    selected, FunctionFilter,
};
use crate::query::page::{applied_limit, window};
use crate::query::risk::{level_word, RiskLevel};
use crate::query::rows::{display_path, function_rows, path_of, FunctionRow};
use crate::query::totals::{
    add_sums, aggregate, aggregate_complexity, area_of, change_area, count_functions, counts_from, file_assessment, file_risk, more,
    no_functions, no_sums, sums_over, with_functions, AggregateComplexity, DiagnosticCounts, FunctionCounts, LineCounts, Sums,
};
use crate::result::{file_views, AnalysisResult, FileResult, FileView, ResultView};
use crate::text::{compare, text_rank, Rank};

verus! {

/// Review candidates that the overview carries.
pub const SUMMARY_CANDIDATES: usize = 5;

/// One revision of a comparison, as an answer reports it.
#[derive(Debug, Clone, Copy)]
pub struct RevisionView<'a> {
    pub id: &'a str,
    pub display_name: &'a str,
}

/// Changed files, by whether they are supported and what they are for.
#[derive(Debug)]
pub struct FileCounts {
    pub changed: u32,
    pub supported: u32,
    pub unsupported: u32,
    /// Changed file count per role, omitting roles with no changed files.
    pub by_classification: TextMap<u32>,
}

/// A group of changed files that belong to the same project area.
///
/// Areas are derived from paths, so their names are paths: nothing in a diff
/// says what a directory is for.
#[derive(Debug, Clone)]
pub struct ChangeArea {
    pub name: String,
    pub files: u32,
    pub lines: LineCounts,
    /// Highest intrinsic risk level among the area's changed functions.
    pub risk: &'static str,
    /// Highest review priority level among the area's changed functions.
    pub review_priority: &'static str,
    pub complexity: AggregateComplexity,
}

/// What a change did to a function's complexity.
#[derive(Debug, Clone, Copy, PartialEq, Eq)]
pub struct ComplexityDelta {
    pub cyclomatic: i64,
    pub cognitive: i64,
}

/// One entry in the overview's ranked shortlist.
#[derive(Debug, Clone)]
pub struct ReviewCandidate<'a> {
    /// Identity of the full record, for a detail query.
    pub function_id: String,
    pub file: &'a str,
    pub symbol: String,
    pub status: &'static str,
    pub complexity_delta: ComplexityDelta,
    /// Level of the intrinsic-risk model.
    pub risk: &'static str,
    /// Level of the review-priority model, which is what the shortlist is
    /// ranked by.
    pub review_priority: &'static str,
    /// Confidence of the match between the revisions, in tenths.
    pub match_confidence: u32,
}

/// The overview of a change.
#[derive(Debug)]
pub struct ChangeSummary<'a> {
    pub base: RevisionView<'a>,
    pub target: RevisionView<'a>,
    pub files: FileCounts,
    pub lines: LineCounts,
    pub functions: FunctionCounts,
    pub diagnostics: DiagnosticCounts,
    pub change_areas: Vec<ChangeArea>,
    /// The highest-ranked changed functions, as a starting point for review.
    pub review_candidates: Vec<ReviewCandidate<'a>>,
}

/// The condition of being a file of an area.
pub open spec fn within_area(name: Seq<char>) -> spec_fn(FileView) -> bool {
    |file: FileView| area_of(path_of(file)) == name
}

/// The condition of being a file of a role.
pub open spec fn of_role(word: Seq<char>) -> spec_fn(FileView) -> bool {
    |file: FileView| classification_word(classification(path_of(file))) == word
}

/// The lines that files add.
pub open spec fn added_in(files: Seq<FileView>) -> nat
    decreases files.len(),
{
    if files.len() == 0 {
        0
    } else {
        added_in(files.drop_last()) + files.last().added_lines as nat
    }
}

/// The lines that files remove.
pub open spec fn removed_in(files: Seq<FileView>) -> nat
    decreases files.len(),
{
    if files.len() == 0 {
        0
    } else {
        removed_in(files.drop_last()) + files.last().removed_lines as nat
    }
}

/// The complexity of files, summed.
pub open spec fn sums_in(files: Seq<FileView>) -> Sums
    decreases files.len(),
{
    if files.len() == 0 {
        no_sums()
    } else {
        add_sums(sums_in(files.drop_last()), sums_over(files.last().functions))
    }
}

/// The higher of two levels.
pub open spec fn higher(a: RiskLevel, b: RiskLevel) -> RiskLevel {
    if level_place(a) < level_place(b) {
        b
    } else {
        a
    }
}

/// The highest risk level among files.
pub open spec fn risk_in(files: Seq<FileView>, index: Option<IndexView>) -> RiskLevel
    decreases files.len(),
{
    if files.len() == 0 {
        RiskLevel::Low
    } else {
        let file = files.last();
        higher(risk_in(files.drop_last(), index), file_risk(file, importer_count(index, path_of(file))).risk.level)
    }
}

/// The highest review priority level among files.
pub open spec fn priority_in(files: Seq<FileView>, index: Option<IndexView>) -> RiskLevel
    decreases files.len(),
{
    if files.len() == 0 {
        RiskLevel::Low
    } else {
        let file = files.last();
        higher(priority_in(files.drop_last(), index), file_risk(file, importer_count(index, path_of(file))).review_priority.level)
    }
}

/// An area by what it holds.
#[verifier::ext_equal]
pub struct AreaFacts {
    pub name: Seq<char>,
    pub files: u32,
    pub lines: LineCounts,
    pub risk: RiskLevel,
    pub review_priority: RiskLevel,
    pub complexity: AggregateComplexity,
}

/// What an area of some files holds.
pub open spec fn facts_of(name: Seq<char>, files: Seq<FileView>, index: Option<IndexView>) -> AreaFacts {
    AreaFacts {
        name,
        files: saturated(files.len()),
        lines: LineCounts { added: saturated(added_in(files)), removed: saturated(removed_in(files)) },
        risk: risk_in(files, index),
        review_priority: priority_in(files, index),
        complexity: aggregate(sums_in(files)),
    }
}

/// What an area of a change holds.
pub open spec fn area_facts(files: Seq<FileView>, index: Option<IndexView>, name: Seq<char>) -> AreaFacts {
    facts_of(name, picked(files, within_area(name)), index)
}

/// Whether a change has a file in an area.
pub open spec fn has_area(files: Seq<FileView>, name: Seq<char>) -> bool {
    exists|i: int| 0 <= i < files.len() && area_of(path_of(#[trigger] files[i])) == name
}

/// The areas of a change.
pub open spec fn areas_of(files: Seq<FileView>, index: Option<IndexView>) -> Set<AreaFacts> {
    Set::new(|a: AreaFacts| has_area(files, a.name) && a == area_facts(files, index, a.name))
}

/// Where one area stands relative to another: what most needs review first.
pub open spec fn area_rank(a: AreaFacts, b: AreaFacts) -> Rank {
    otherwise(
        number_rank(level_place(b.review_priority), level_place(a.review_priority)),
        otherwise(
            number_rank(level_place(b.risk), level_place(a.risk)),
            otherwise(number_rank(b.files as int, a.files as int), text_rank(a.name, b.name)),
        ),
    )
}

/// The order of areas.
pub open spec fn area_order() -> spec_fn(AreaFacts, AreaFacts) -> Rank {
    |a: AreaFacts, b: AreaFacts| area_rank(a, b)
}

proof fn lemma_area_order()
    ensures
        lawful(area_order()),
        forall|a: AreaFacts, b: AreaFacts| #[trigger] area_order()(a, b) == Rank::Same ==> a.name == b.name,
{
    let priority = |r: AreaFacts| level_place(r.review_priority);
    let risk = |r: AreaFacts| level_place(r.risk);
    let files = |r: AreaFacts| r.files as int;
    let name = |r: AreaFacts| r.name;
    lemma_largest_first(priority);
    lemma_largest_first(risk);
    lemma_largest_first(files);
    lemma_by_text(name);
    let by_name = |a: AreaFacts, b: AreaFacts| text_rank(name(a), name(b));
    let by_files = |a: AreaFacts, b: AreaFacts| number_rank(files(b), files(a));
    let by_risk = |a: AreaFacts, b: AreaFacts| number_rank(risk(b), risk(a));
    let by_priority = |a: AreaFacts, b: AreaFacts| number_rank(priority(b), priority(a));
    let from_files = |a: AreaFacts, b: AreaFacts| otherwise(by_files(a, b), by_name(a, b));
    lemma_lawful_otherwise(by_files, by_name);
    let from_risk = |a: AreaFacts, b: AreaFacts| otherwise(by_risk(a, b), from_files(a, b));
    lemma_lawful_otherwise(by_risk, from_files);
    lemma_lawful_otherwise(by_priority, from_risk);
    assert(area_order() =~= |a: AreaFacts, b: AreaFacts| otherwise(by_priority(a, b), from_risk(a, b)));
}

/// An area as its files are counted.
struct AreaTotals {
    name: String,
    files: u32,
    lines: LineCounts,
    risk: RiskLevel,
    review_priority: RiskLevel,
    complexity: AggregateComplexity,
}

impl View for AreaTotals {
    type V = AreaFacts;

    closed spec fn view(&self) -> AreaFacts {
        AreaFacts {
            name: self.name@,
            files: self.files,
            lines: self.lines,
            risk: self.risk,
            review_priority: self.review_priority,
            complexity: self.complexity,
        }
    }
}

closed spec fn totals_views(areas: Seq<AreaTotals>) -> Seq<AreaFacts> {
    Seq::new(areas.len(), |i: int| areas[i]@)
}

fn higher_level(a: RiskLevel, b: RiskLevel) -> (r: RiskLevel)
    ensures
        r == higher(a, b),
{
    if level_number(a) < level_number(b) {
        b
    } else {
        a
    }
}

fn plus(n: u32, Ghost(x): Ghost<nat>) -> (r: u32)
    requires
        n == saturated(x),
    ensures
        r == saturated(x + 1),
{
    if n < u32::MAX {
        n + 1
    } else {
        n
    }
}

impl AreaTotals {
    fn new(name: &str, Ghost(index): Ghost<Option<IndexView>>) -> (r: Self)
        ensures
            r@ == facts_of(name@, Seq::empty(), index),
    {
        AreaTotals {
            name: name.to_owned(),
            files: 0,
            lines: LineCounts { added: 0, removed: 0 },
            risk: RiskLevel::Low,
            review_priority: RiskLevel::Low,
            complexity: AggregateComplexity::new(),
        }
    }

    fn copy(&self) -> (r: Self)
        ensures
            r@ == self@,
    {
        AreaTotals {
            name: self.name.clone(),
            files: self.files,
            lines: self.lines,
            risk: self.risk,
            review_priority: self.review_priority,
            complexity: self.complexity,
        }
    }

    /// The area with one more file.
    fn with_file(self, file: &FileResult, role: FileClassification, index: Option<&ImportIndex>, Ghost(held): Ghost<Seq<FileView>>) -> (r: Self)
        requires
            self@ == facts_of(self@.name, held, index_view(index)),
            role == classification(path_of(file@)),
        ensures
            r@ == facts_of(self@.name, held.push(file@), index_view(index)),
    {
        let ghost now = held.push(file@);
        assert(now.drop_last() =~= held);
        assert(now.last() == file@);
        let assessment = file_assessment(file, role, direct_importers(index, display_path(file)));
        let own = aggregate_complexity(file);
        let mut complexity = self.complexity;
        complexity.merge(&own, Ghost(sums_in(held)), Ghost(sums_over(file@.functions)));
        AreaTotals {
            files: plus(self.files, Ghost(held.len())),
            lines: LineCounts {
                added: more(self.lines.added, file.added_lines, Ghost(added_in(held)), Ghost(file@.added_lines as nat)),
                removed: more(self.lines.removed, file.removed_lines, Ghost(removed_in(held)), Ghost(file@.removed_lines as nat)),
            },
            risk: higher_level(self.risk, assessment.risk.level),
            review_priority: higher_level(self.review_priority, assessment.review_priority.level),
            complexity,
            name: self.name,
        }
    }
}

proof fn lemma_has_area_step(files: Seq<FileView>, i: int, name: Seq<char>)
    requires
        0 <= i < files.len(),
    ensures
        has_area(files.take(i + 1), name) <==> has_area(files.take(i), name) || area_of(path_of(files[i])) == name,
{
    let short = files.take(i);
    let long = files.take(i + 1);
    if has_area(short, name) {
        let k = choose|k: int| 0 <= k < short.len() && area_of(path_of(#[trigger] short[k])) == name;
        assert(area_of(path_of(long[k])) == name);
    }
    if area_of(path_of(files[i])) == name {
        assert(area_of(path_of(long[i])) == name);
    }
    if has_area(long, name) {
        let k = choose|k: int| 0 <= k < long.len() && area_of(path_of(#[trigger] long[k])) == name;
        if k < i {
            assert(area_of(path_of(short[k])) == name);
        }
    }
}

proof fn lemma_no_area(files: Seq<FileView>, name: Seq<char>)
    requires
        !has_area(files, name),
    ensures
        picked(files, within_area(name)).len() == 0,
{
    let members = picked(files, within_area(name));
    crate::order::lemma_picked(files, within_area(name));
    if members.len() > 0 {
        assert(members.contains(members[0]));
        let k = choose|k: int| 0 <= k < files.len() && files[k] == members[0];
        assert(area_of(path_of(files[k])) == name);
    }
}

/// The areas of a change, in ascending order of names.
fn collect_areas(result: &AnalysisResult, index: Option<&ImportIndex>) -> (r: Vec<AreaTotals>)
    ensures
        totals_views(r@).no_duplicates(),
        totals_views(r@).to_set() == areas_of(result@.files, index_view(index)),
{
    let ghost files = result@.files;
    let ghost known = index_view(index);
    let mut areas: TextMap<AreaTotals> = TextMap::new();
    let mut i: usize = 0;
    while i < result.files.len()
        invariant
            i <= result.files.len(),
            files == file_views(result.files@),
            known == index_view(index),
            forall|name: Seq<char>| #[trigger] areas@.contains_key(name) <==> has_area(files.take(i as int), name),
            forall|name: Seq<char>| #[trigger] areas@.contains_key(name) ==> areas@[name]@ == area_facts(files.take(i as int), known, name),
        decreases result.files.len() - i,
    {
        let file = &result.files[i];
        let path = display_path(file);
        let name = change_area(path);
        let ghost before = areas@;
        let ghost short = files.take(i as int);
        let ghost held = picked(short, within_area(name@));
        proof {
            assert(files[i as int] == file@);
            assert(files.take(i + 1).drop_last() =~= short);
            assert forall|other: Seq<char>| has_area(files.take(i + 1), other) <==> has_area(short, other) || name@ == other by {
                lemma_has_area_step(files, i as int, other);
            }
        }
        let area = match areas.remove(name.as_str()) {
            Some(area) => area,
            None => {
                proof {
                    lemma_no_area(short, name@);
                    assert(held =~= Seq::<FileView>::empty());
                }
                AreaTotals::new(name.as_str(), Ghost(known))
            },
        };
        let area = area.with_file(file, classify(path), index, Ghost(held));
        areas.insert(name, area);
        i = i + 1;
    }
    assert(files.take(i as int) =~= files);
    let n: usize = areas.len();
    let ghost names = areas.keys();
    let mut out: Vec<AreaTotals> = Vec::new();
    let mut j: usize = 0;
    while j < n
        invariant
            n == names.len(),
            names == areas.keys(),
            areas.ordered(),
            j <= n,
            out@.len() == j,
            forall|k: int| 0 <= k < j ==> (#[trigger] out@[k])@ == areas@[names[k]]@,
        decreases n - j,
    {
        out.push(areas.value_at(j).copy());
        j = j + 1;
    }
    proof {
        let views = totals_views(out@);
        assert forall|k: int| 0 <= k < n implies (#[trigger] views[k]).name == names[k] && areas@.contains_key(names[k]) && views[k] == area_facts(
            files,
            known,
            names[k],
        ) by {
            assert(names.contains(names[k]));
            assert(areas@.contains_key(names[k]));
            assert(out@[k]@ == areas@[names[k]]@);
            assert(views[k] == out@[k]@);
        }
        assert forall|a: int, b: int| 0 <= a < views.len() && 0 <= b < views.len() && a != b implies views[a] != views[b] by {
            assert(views[a].name == names[a] && views[b].name == names[b]);
            if names[a] == names[b] {
                crate::collections::lemma_ascending_unique(names, a, b);
            }
        }
        assert forall|a: AreaFacts| views.to_set().contains(a) <==> areas_of(files, known).contains(a) by {
            if views.contains(a) {
                let k = choose|k: int| 0 <= k < views.len() && views[k] == a;
                assert(views[k].name == names[k]);
            }
            if areas_of(files, known).contains(a) {
                assert(areas@.contains_key(a.name));
                assert(names.contains(a.name));
                let k = choose|k: int| 0 <= k < names.len() && names[k] == a.name;
                assert(views[k] == a);
                assert(views.contains(a));
            }
        }
        assert(views.to_set() =~= areas_of(files, known));
    }
    out
}

/// An area as an answer reports it.
#[verifier::ext_equal]
pub struct AreaRow {
    pub name: Seq<char>,
    pub files: u32,
    pub lines: LineCounts,
    pub risk: Seq<char>,
    pub review_priority: Seq<char>,
    pub complexity: AggregateComplexity,
}

impl View for ChangeArea {
    type V = AreaRow;

    open spec fn view(&self) -> AreaRow {
        AreaRow {
            name: self.name@,
            files: self.files,
            lines: self.lines,
            risk: self.risk@,
            review_priority: self.review_priority@,
            complexity: self.complexity,
        }
    }
}

/// How an area is reported.
pub open spec fn area_row(a: AreaFacts) -> AreaRow {
    AreaRow {
        name: a.name,
        files: a.files,
        lines: a.lines,
        risk: level_word(a.risk),
        review_priority: level_word(a.review_priority),
        complexity: a.complexity,
    }
}

/// Reported areas by what they hold.
pub open spec fn area_rows(areas: Seq<ChangeArea>) -> Seq<AreaRow> {
    Seq::new(areas.len(), |i: int| areas[i]@)
}

/// The areas that the overview of a change reports.
pub open spec fn reported_areas(files: Seq<FileView>, index: Option<IndexView>) -> Seq<AreaRow> {
    ranked(areas_of(files, index), area_order()).map_values(|a: AreaFacts| area_row(a))
}

/// Group changed files by the area they belong to, what most needs review
/// first.
pub fn change_areas(result: &AnalysisResult, index: Option<&ImportIndex>) -> (r: Vec<ChangeArea>)
    ensures
        area_rows(r@) == reported_areas(result@.files, index_view(index)),
        strictly(ranked(areas_of(result@.files, index_view(index)), area_order()), area_order()),
        ranked(areas_of(result@.files, index_view(index)), area_order()).to_set() == areas_of(result@.files, index_view(index)),
{
    let mut areas = collect_areas(result, index);
    let ghost unsorted = totals_views(areas@);
    let ghost members = areas_of(result@.files, index_view(index));
    proof {
        lemma_area_order();
        assert forall|a: AreaFacts, b: AreaFacts|
            unsorted.contains(a) && unsorted.contains(b) && #[trigger] area_order()(a, b) == Rank::Same implies a == b by {
            assert(unsorted.to_set().contains(a) && unsorted.to_set().contains(b));
        }
        lemma_arranged_ranked(unsorted, area_order());
    }
    let rank_of = |a: &AreaTotals, b: &AreaTotals| -> (r: Rank)
        ensures
            r == area_rank(a@, b@),
    {
        or_else(
            compare_numbers(level_number(b.review_priority), level_number(a.review_priority)),
            or_else(
                compare_numbers(level_number(b.risk), level_number(a.risk)),
                or_else(compare_numbers(b.files as u64, a.files as u64), compare(a.name.as_str(), b.name.as_str())),
            ),
        )
    };
    let ghost shown = |a: AreaTotals| a@;
    assert(unsorted =~= areas@.map_values(shown));
    arrange_by::<AreaTotals, AreaFacts, _>(&mut areas, rank_of, Ghost(shown), Ghost(area_order()));
    let ghost order = ranked(members, area_order());
    assert(totals_views(areas@) =~= areas@.map_values(shown));
    let mut out: Vec<ChangeArea> = Vec::new();
    let mut i: usize = 0;
    while i < areas.len()
        invariant
            i <= areas.len(),
            order == totals_views(areas@),
            out@.len() == i,
            forall|k: int| 0 <= k < i ==> (#[trigger] out@[k])@ == area_row(order[k]),
        decreases areas.len() - i,
    {
        let area = &areas[i];
        assert(order[i as int] == area@);
        out.push(
            ChangeArea {
                name: area.name.clone(),
                files: area.files,
                lines: area.lines,
                risk: area.risk.as_str(),
                review_priority: area.review_priority.as_str(),
                complexity: area.complexity,
            },
        );
        i = i + 1;
    }
    assert(area_rows(out@) =~= reported_areas(result@.files, index_view(index)));
    out
}

/// How many files each role has; a role without files has no entry.
pub open spec fn role_counts(files: Seq<FileView>) -> Map<Seq<char>, u32> {
    Map::new(
        |word: Seq<char>| picked(files, of_role(word)).len() > 0,
        |word: Seq<char>| saturated(picked(files, of_role(word)).len()),
    )
}

fn count_roles(result: &AnalysisResult) -> (r: TextMap<u32>)
    ensures
        r@ == role_counts(result@.files),
{
    let ghost files = result@.files;
    let mut out: TextMap<u32> = TextMap::new();
    let mut i: usize = 0;
    assert(out@ =~= role_counts(files.take(0)));
    while i < result.files.len()
        invariant
            i <= result.files.len(),
            files == file_views(result.files@),
            out@ == role_counts(files.take(i as int)),
        decreases result.files.len() - i,
    {
        let file = &result.files[i];
        let word = classify(display_path(file)).as_str();
        let ghost before = out@;
        proof {
            assert(files[i as int] == file@);
            assert(files.take(i + 1).drop_last() =~= files.take(i as int));
        }
        let held: u32 = match out.get(word) {
            Some(n) => *n,
            None => 0,
        };
        let next: u32 = if held < u32::MAX {
            held + 1
        } else {
            held
        };
        out.insert(word.to_owned(), next);
        assert(out@ =~= role_counts(files.take(i + 1)));
        i = i + 1;
    }
    assert(files.take(i as int) =~= files);
    out
}

/// The functions of several files, by what happened to them.
pub open spec fn functions_in(files: Seq<FileView>) -> FunctionCounts
    decreases files.len(),
{
    if files.len() == 0 {
        no_functions()
    } else {
        with_functions(functions_in(files.drop_last()), files.last().functions)
    }
}

fn count_all_functions(result: &AnalysisResult) -> (r: FunctionCounts)
    ensures
        r == functions_in(result@.files),
{
    let ghost files = result@.files;
    let mut counts = FunctionCounts { added: 0, removed: 0, modified: 0, unchanged: 0 };
    let mut i: usize = 0;
    assert(files.take(0) =~= Seq::<FileView>::empty());
    while i < result.files.len()
        invariant
            i <= result.files.len(),
            files == file_views(result.files@),
            counts == functions_in(files.take(i as int)),
        decreases result.files.len() - i,
    {
        assert(files.take(i + 1).drop_last() =~= files.take(i as int));
        assert(files.take(i + 1).last() == result.files@[i as int]@);
        count_functions(&mut counts, &result.files[i]);
        i = i + 1;
    }
    assert(files.take(i as int) =~= files);
    counts
}

/// A shortlist entry by what it holds.
#[verifier::ext_equal]
pub struct CandidateRow {
    pub function_id: Seq<char>,
    pub file: Seq<char>,
    pub symbol: Seq<char>,
    pub status: Seq<char>,
    pub complexity_delta: ComplexityDelta,
    pub risk: Seq<char>,
    pub review_priority: Seq<char>,
    pub match_confidence: u32,
}

impl<'a> View for ReviewCandidate<'a> {
    type V = CandidateRow;

    open spec fn view(&self) -> CandidateRow {
        CandidateRow {
            function_id: self.function_id@,
            file: self.file@,
            symbol: self.symbol@,
            status: self.status@,
            complexity_delta: self.complexity_delta,
            risk: self.risk@,
            review_priority: self.review_priority@,
            match_confidence: self.match_confidence,
        }
    }
}

/// Shortlist entries by what they hold.
pub open spec fn candidate_rows(candidates: Seq<ReviewCandidate>) -> Seq<CandidateRow> {
    Seq::new(candidates.len(), |i: int| candidates[i]@)
}

/// The shortlist entry of a row.
pub open spec fn candidate_of(row: FunctionRow) -> CandidateRow {
    CandidateRow {
        function_id: row.function_id,
        file: row.file,
        symbol: row.symbol,
        status: row.status,
        complexity_delta: ComplexityDelta { cyclomatic: row.metrics.cyclomatic_complexity.delta, cognitive: row.metrics.cognitive_complexity.delta },
        risk: level_word(row.risk.level),
        review_priority: level_word(row.review_priority.level),
        match_confidence: row.match_confidence,
    }
}

/// The first rows of a list, as shortlist entries.
pub open spec fn shortlist(rows: Seq<FunctionRow>) -> Seq<CandidateRow> {
    let n = if rows.len() < SUMMARY_CANDIDATES {
        rows.len()
    } else {
        SUMMARY_CANDIDATES as nat
    };
    Seq::new(n, |i: int| candidate_of(rows[i]))
}

/// The shortlist of a change: the rows that rank highest.
pub open spec fn review_shortlist(files: Seq<FileView>, index: Option<IndexView>) -> Seq<CandidateRow> {
    shortlist(arranged(selected(everything(), files, index), by_rank(row_order())))
}

fn candidates<'a>(result: &'a AnalysisResult, index: Option<&ImportIndex>) -> (r: Vec<ReviewCandidate<'a>>)
    ensures
        candidate_rows(r@) == review_shortlist(result@.files, index_view(index)),
{
    let filter = FunctionFilter::default();
    let rows = ranked_functions(result, &filter, index);
    let ghost shown = function_rows(rows@);
    let mut out: Vec<ReviewCandidate<'a>> = Vec::new();
    let mut i: usize = 0;
    while i < rows.len() && i < SUMMARY_CANDIDATES
        invariant
            i <= rows.len(),
            i <= SUMMARY_CANDIDATES,
            shown == function_rows(rows@),
            out@.len() == i,
            forall|k: int| 0 <= k < i ==> (#[trigger] out@[k])@ == candidate_of(shown[k]),
        decreases rows.len() - i,
    {
        let row = &rows[i];
        assert(shown[i as int] == row@);
        out.push(
            ReviewCandidate {
                function_id: row.function_id.clone(),
                file: row.file,
                symbol: row.symbol.clone(),
                status: row.status,
                complexity_delta: ComplexityDelta {
                    cyclomatic: row.metrics.cyclomatic_complexity.delta,
                    cognitive: row.metrics.cognitive_complexity.delta,
                },
                risk: row.risk.level.as_str(),
                review_priority: row.review_priority.level.as_str(),
                match_confidence: row.match_confidence,
            },
        );
        i = i + 1;
    }
    assert(candidate_rows(out@) =~= shortlist(shown));
    out
}

/// The overview of a change by what it holds.
#[verifier::ext_equal]
pub struct SummaryFacts {
    pub base: (Seq<char>, Seq<char>),
    pub target: (Seq<char>, Seq<char>),
    pub changed: u32,
    pub supported: u32,
    pub unsupported: u32,
    pub by_classification: Map<Seq<char>, u32>,
    pub lines: LineCounts,
    pub functions: FunctionCounts,
    pub diagnostics: DiagnosticCounts,
    pub change_areas: Seq<AreaRow>,
    pub review_candidates: Seq<CandidateRow>,
}

impl<'a> View for ChangeSummary<'a> {
    type V = SummaryFacts;

    open spec fn view(&self) -> SummaryFacts {
        SummaryFacts {
            base: (self.base.id@, self.base.display_name@),
            target: (self.target.id@, self.target.display_name@),
            changed: self.files.changed,
            supported: self.files.supported,
            unsupported: self.files.unsupported,
            by_classification: self.files.by_classification@,
            lines: self.lines,
            functions: self.functions,
            diagnostics: self.diagnostics,
            change_areas: area_rows(self.change_areas@),
            review_candidates: candidate_rows(self.review_candidates@),
        }
    }
}

/// The overview of an analysis.
pub open spec fn summary_of(result: ResultView, index: Option<IndexView>) -> SummaryFacts {
    SummaryFacts {
        base: (result.base.id, result.base.display_name),
        target: (result.target.id, result.target.display_name),
        changed: result.summary.changed_files,
        supported: result.summary.supported_files,
        unsupported: result.summary.unsupported_files,
        by_classification: role_counts(result.files),
        lines: LineCounts { added: result.summary.added_lines, removed: result.summary.removed_lines },
        functions: functions_in(result.files),
        diagnostics: counts_from(
            result.summary.diagnostics.info as nat,
            result.summary.diagnostics.warning as nat,
            result.summary.diagnostics.error as nat,
        ),
        change_areas: reported_areas(result.files, index),
        review_candidates: review_shortlist(result.files, index),
    }
}

/// Summarize the whole change, with a short ranked list to start from.
#[must_use]
pub fn change_summary<'a>(result: &'a AnalysisResult, index: Option<&ImportIndex>) -> (r: ChangeSummary<'a>)
    ensures
        r@ == summary_of(result@, index_view(index)),
{
    ChangeSummary {
        base: RevisionView { id: result.base.id.as_str(), display_name: result.base.display_name.as_str() },
        target: RevisionView { id: result.target.id.as_str(), display_name: result.target.display_name.as_str() },
        files: FileCounts {
            changed: result.summary.changed_files,
            supported: result.summary.supported_files,
            unsupported: result.summary.unsupported_files,
            by_classification: count_roles(result),
        },
        lines: LineCounts { added: result.summary.added_lines, removed: result.summary.removed_lines },
        functions: count_all_functions(result),
        diagnostics: DiagnosticCounts::from_summary(&result.summary.diagnostics),
        change_areas: change_areas(result, index),
        review_candidates: candidates(result, index),
    }
}

/// The numbers of several names, added up.
pub open spec fn added_up(names: Seq<Seq<char>>, count: spec_fn(Seq<char>) -> nat) -> nat
    decreases names.len(),
{
    if names.len() == 0 {
        0
    } else {
        added_up(names.drop_last(), count) + count(names.last())
    }
}

proof fn lemma_added_up_alike(names: Seq<Seq<char>>, a: spec_fn(Seq<char>) -> nat, b: spec_fn(Seq<char>) -> nat)
    requires
        forall|name: Seq<char>| names.contains(name) ==> #[trigger] a(name) == b(name),
    ensures
        added_up(names, a) == added_up(names, b),
    decreases names.len(),
{
    if names.len() > 0 {
        assert(names[names.len() - 1] == names.last());
        assert(names.contains(names.last()));
        assert forall|name: Seq<char>| names.drop_last().contains(name) implies #[trigger] a(name) == b(name) by {
            let i = choose|i: int| 0 <= i < names.drop_last().len() && names.drop_last()[i] == name;
            assert(names[i] == name);
        }
        lemma_added_up_alike(names.drop_last(), a, b);
    }
}

proof fn lemma_one_more_of(names: Seq<Seq<char>>, a: spec_fn(Seq<char>) -> nat, b: spec_fn(Seq<char>) -> nat, one: Seq<char>)
    requires
        names.no_duplicates(),
        names.contains(one),
        forall|name: Seq<char>| #[trigger] b(name) == a(name) + (if name == one {
            1nat
        } else {
            0
        }),
    ensures
        added_up(names, b) == added_up(names, a) + 1,
    decreases names.len(),
{
    let shorter = names.drop_last();
    if names.last() == one {
        assert forall|name: Seq<char>| shorter.contains(name) implies #[trigger] a(name) == b(name) by {
            let i = choose|i: int| 0 <= i < shorter.len() && shorter[i] == name;
            assert(names[i] != names[names.len() - 1]);
        }
        lemma_added_up_alike(shorter, a, b);
    } else {
        let i = choose|i: int| 0 <= i < names.len() && names[i] == one;
        assert(shorter[i] == one);
        lemma_one_more_of(shorter, a, b, one);
    }
}

/// Files that are told apart by a name are counted once under distinct names.
proof fn lemma_counted_once(
    files: Seq<FileView>,
    name_of: spec_fn(FileView) -> Seq<char>,
    is_named: spec_fn(Seq<char>) -> spec_fn(FileView) -> bool,
    names: Seq<Seq<char>>,
)
    requires
        names.no_duplicates(),
        forall|name: Seq<char>, f: FileView| #[trigger] is_named(name)(f) == (name_of(f) == name),
        forall|i: int| 0 <= i < files.len() ==> names.contains(name_of(#[trigger] files[i])),
    ensures
        added_up(names, |name: Seq<char>| picked(files, is_named(name)).len()) == files.len(),
    decreases files.len(),
{
    let count = |name: Seq<char>| picked(files, is_named(name)).len();
    if files.len() == 0 {
        let none = |name: Seq<char>| 0nat;
        lemma_added_up_alike(names, count, none);
        lemma_no_sum(names);
    } else {
        let shorter = files.drop_last();
        let before = |name: Seq<char>| picked(shorter, is_named(name)).len();
        let one = name_of(files.last());
        assert forall|i: int| 0 <= i < shorter.len() implies names.contains(name_of(#[trigger] shorter[i])) by {
            assert(shorter[i] == files[i]);
        }
        lemma_counted_once(shorter, name_of, is_named, names);
        assert(files[files.len() - 1] == files.last());
        assert forall|name: Seq<char>| #[trigger] count(name) == before(name) + (if name == one {
            1nat
        } else {
            0
        }) by {
            assert(is_named(name)(files.last()) == (one == name));
        }
        lemma_one_more_of(names, before, count, one);
    }
}

proof fn lemma_no_sum(names: Seq<Seq<char>>)
    ensures
        added_up(names, |name: Seq<char>| 0nat) == 0,
    decreases names.len(),
{
    if names.len() > 0 {
        lemma_no_sum(names.drop_last());
    }
}

/// The names of files, each once.
spec fn names_once(files: Seq<FileView>, name_of: spec_fn(FileView) -> Seq<char>) -> Seq<Seq<char>>
    decreases files.len(),
{
    if files.len() == 0 {
        Seq::empty()
    } else {
        let before = names_once(files.drop_last(), name_of);
        if before.contains(name_of(files.last())) {
            before
        } else {
            before.push(name_of(files.last()))
        }
    }
}

proof fn lemma_names_once(files: Seq<FileView>, name_of: spec_fn(FileView) -> Seq<char>)
    ensures
        names_once(files, name_of).no_duplicates(),
        forall|name: Seq<char>| #[trigger]
            names_once(files, name_of).contains(name) <==> exists|i: int| 0 <= i < files.len() && name_of(#[trigger] files[i]) == name,
    decreases files.len(),
{
    if files.len() > 0 {
        let shorter = files.drop_last();
        let before = names_once(shorter, name_of);
        let last = name_of(files.last());
        lemma_names_once(shorter, name_of);
        crate::collections::lemma_push_contains(before, last);
        assert forall|name: Seq<char>| #[trigger] names_once(files, name_of).contains(name) <==> exists|i: int|
            0 <= i < files.len() && name_of(#[trigger] files[i]) == name by {
            if before.contains(name) {
                let i = choose|i: int| 0 <= i < shorter.len() && name_of(#[trigger] shorter[i]) == name;
                assert(files[i] == shorter[i]);
            }
            if name == last {
                assert(name_of(files[files.len() - 1]) == name);
            }
            if exists|i: int| 0 <= i < files.len() && name_of(#[trigger] files[i]) == name {
                let i = choose|i: int| 0 <= i < files.len() && name_of(#[trigger] files[i]) == name;
                if i < shorter.len() {
                    assert(name_of(shorter[i]) == name);
                    assert(before.contains(name));
                }
            }
        }
    }
}

/// The areas of a change can be listed.
proof fn lemma_areas_listed(files: Seq<FileView>, index: Option<IndexView>)
    ensures
        strictly(ranked(areas_of(files, index), area_order()), area_order()),
        ranked(areas_of(files, index), area_order()).to_set() == areas_of(files, index),
{
    let name_of = |f: FileView| area_of(path_of(f));
    let names = names_once(files, name_of);
    lemma_names_once(files, name_of);
    let list = names.map_values(|name: Seq<char>| area_facts(files, index, name));
    assert(list.no_duplicates()) by {
        assert forall|i: int, j: int| 0 <= i < list.len() && 0 <= j < list.len() && i != j implies list[i] != list[j] by {
            assert(list[i].name == names[i] && list[j].name == names[j]);
        }
    }
    assert forall|a: AreaFacts| list.to_set().contains(a) <==> areas_of(files, index).contains(a) by {
        if list.contains(a) {
            let i = choose|i: int| 0 <= i < list.len() && list[i] == a;
            assert(names.contains(names[i]));
            let k = choose|k: int| 0 <= k < files.len() && name_of(#[trigger] files[k]) == names[i];
            assert(area_of(path_of(files[k])) == a.name);
        }
        if areas_of(files, index).contains(a) {
            let k = choose|k: int| 0 <= k < files.len() && area_of(path_of(#[trigger] files[k])) == a.name;
            assert(name_of(files[k]) == a.name);
            assert(names.contains(a.name));
            let i = choose|i: int| 0 <= i < names.len() && names[i] == a.name;
            assert(list[i] == a);
        }
    }
    assert(list.to_set() =~= areas_of(files, index));
    lemma_area_order();
    assert forall|a: AreaFacts, b: AreaFacts| list.contains(a) && list.contains(b) && #[trigger] area_order()(a, b) == Rank::Same implies a == b by {
        assert(list.to_set().contains(a) && list.to_set().contains(b));
        assert(areas_of(files, index).contains(a) && areas_of(files, index).contains(b));
    }
    lemma_arranged_ranked(list, area_order());
}

/// The files that areas report, added up.
pub open spec fn files_in_areas(areas: Seq<AreaRow>) -> nat
    decreases areas.len(),
{
    if areas.len() == 0 {
        0
    } else {
        files_in_areas(areas.drop_last()) + areas.last().files as nat
    }
}

proof fn lemma_area_files(files: Seq<FileView>, index: Option<IndexView>, order: Seq<AreaFacts>)
    requires
        files.len() <= u32::MAX,
        forall|i: int| 0 <= i < order.len() ==> (#[trigger] order[i]) == area_facts(files, index, order[i].name),
    ensures
        files_in_areas(order.map_values(|a: AreaFacts| area_row(a))) == added_up(
            order.map_values(|a: AreaFacts| a.name),
            |name: Seq<char>| picked(files, within_area(name)).len(),
        ),
    decreases order.len(),
{
    let rows = order.map_values(|a: AreaFacts| area_row(a));
    let names = order.map_values(|a: AreaFacts| a.name);
    if order.len() > 0 {
        let shorter = order.drop_last();
        assert forall|i: int| 0 <= i < shorter.len() implies (#[trigger] shorter[i]) == area_facts(files, index, shorter[i].name) by {
            assert(shorter[i] == order[i]);
        }
        lemma_area_files(files, index, shorter);
        assert(rows.drop_last() =~= shorter.map_values(|a: AreaFacts| area_row(a)));
        assert(names.drop_last() =~= shorter.map_values(|a: AreaFacts| a.name));
        let last = order[order.len() - 1];
        crate::order::lemma_picked(files, within_area(last.name));
        assert(rows.last() == area_row(last));
        assert(last == area_facts(files, index, last.name));
    }
}

proof fn lemma_function_counts(files: Seq<FileView>)
    requires
        crate::harness::function_records(files) <= u32::MAX,
    ensures
        ({
            let counts = functions_in(files);
            counts.added + counts.removed + counts.modified + counts.unchanged == crate::harness::function_records(files)
        }),
    decreases files.len(),
{
    if files.len() > 0 {
        lemma_function_counts(files.drop_last());
        lemma_with_functions(functions_in(files.drop_last()), files.last().functions);
    }
}

proof fn lemma_with_functions(counts: FunctionCounts, functions: Seq<crate::result::FunctionView>)
    requires
        counts.added + counts.removed + counts.modified + counts.unchanged + functions.len() <= u32::MAX,
    ensures
        ({
            let all = with_functions(counts, functions);
            all.added + all.removed + all.modified + all.unchanged == counts.added + counts.removed + counts.modified + counts.unchanged
                + functions.len()
        }),
    decreases functions.len(),
{
    if functions.len() > 0 {
        lemma_with_functions(counts, functions.drop_last());
    }
}

/// The overview of a change adds up: its roles, and its areas, together count
/// every file once, and its four function counts every function.
///
/// The roles are taken in any order, each once.
pub proof fn lemma_summary_adds_up(result: ResultView, index: Option<IndexView>, roles: Seq<Seq<char>>)
    requires
        result.files.len() <= u32::MAX,
        crate::harness::function_records(result.files) <= u32::MAX,
        roles.no_duplicates(),
        roles.to_set() == summary_of(result, index).by_classification.dom(),
    ensures
        added_up(roles, |role: Seq<char>| summary_of(result, index).by_classification[role] as nat) == result.files.len(),
        files_in_areas(summary_of(result, index).change_areas) == result.files.len(),
        ({
            let counts = summary_of(result, index).functions;
            counts.added + counts.removed + counts.modified + counts.unchanged == crate::harness::function_records(result.files)
        }),
{
    let files = result.files;
    let counts = role_counts(files);
    let by_role = |f: FileView| classification_word(classification(path_of(f)));
    let role_named = |word: Seq<char>| of_role(word);
    assert forall|i: int| 0 <= i < files.len() implies roles.contains(by_role(#[trigger] files[i])) by {
        let word = by_role(files[i]);
        crate::order::lemma_picked(files, of_role(word));
        assert(files.contains(files[i]));
        assert(picked(files, of_role(word)).contains(files[i]));
        assert(counts.dom().contains(word));
        assert(roles.to_set().contains(word));
    }
    lemma_counted_once(files, by_role, role_named, roles);
    let exact = |name: Seq<char>| picked(files, role_named(name)).len();
    let reported = |role: Seq<char>| counts[role] as nat;
    assert forall|name: Seq<char>| roles.contains(name) implies #[trigger] exact(name) == reported(name) by {
        assert(roles.to_set().contains(name));
        assert(counts.contains_key(name));
        crate::order::lemma_picked(files, of_role(name));
    }
    lemma_added_up_alike(roles, exact, reported);
    assert(reported =~= |role: Seq<char>| summary_of(result, index).by_classification[role] as nat);

    lemma_areas_listed(files, index);
    lemma_area_order();
    let order = ranked(areas_of(files, index), area_order());
    let names = order.map_values(|a: AreaFacts| a.name);
    assert forall|i: int| 0 <= i < order.len() implies (#[trigger] order[i]) == area_facts(files, index, order[i].name) && has_area(
        files,
        order[i].name,
    ) by {
        assert(order.contains(order[i]));
        assert(order.to_set().contains(order[i]));
    }
    crate::order::lemma_strictly_distinct(order, area_order());
    assert(names.no_duplicates()) by {
        assert forall|i: int, j: int| 0 <= i < names.len() && 0 <= j < names.len() && i != j implies names[i] != names[j] by {
            assert(order[i] != order[j]);
            assert(order[i] == area_facts(files, index, order[i].name) && order[j] == area_facts(files, index, order[j].name));
        }
    }
    let by_area = |f: FileView| area_of(path_of(f));
    let area_named = |name: Seq<char>| within_area(name);
    assert forall|i: int| 0 <= i < files.len() implies names.contains(by_area(#[trigger] files[i])) by {
        let name = by_area(files[i]);
        let area = area_facts(files, index, name);
        assert(has_area(files, name));
        assert(areas_of(files, index).contains(area));
        assert(order.to_set().contains(area));
        let k = choose|k: int| 0 <= k < order.len() && order[k] == area;
        assert(names[k] == name);
    }
    lemma_counted_once(files, by_area, area_named, names);
    lemma_area_files(files, index, order);
    let within = |name: Seq<char>| picked(files, area_named(name)).len();
    assert(within =~= |name: Seq<char>| picked(files, within_area(name)).len());
    lemma_function_counts(files);
}

/// Whether one area of an overview is listed before another: by the review it is
/// owed, its risk, its files, and its name.
pub open spec fn area_precedes(a: AreaFacts, b: AreaFacts) -> bool {
    area_rank(a, b) == Rank::Before
}

/// The areas of an overview have distinct names and come in order, what most
/// needs review first; and its candidates are the first functions that a listing
/// without a filter gives.
pub proof fn lemma_summary_is_ordered(result: ResultView, index: Option<IndexView>)
    ensures
        ({
            let order = ranked(areas_of(result.files, index), area_order());
            &&& summary_of(result, index).change_areas == order.map_values(|a: AreaFacts| area_row(a))
            &&& order.to_set() == areas_of(result.files, index)
            &&& forall|i: int, j: int| 0 <= i < j < order.len() ==> area_precedes(#[trigger] order[i], #[trigger] order[j]) && order[i].name != order[j].name
        }),
        ({
            let all = arranged(selected(everything(), result.files, index), by_rank(row_order()));
            let rows = window(all, 0, applied_limit(None));
            let candidates = summary_of(result, index).review_candidates;
            &&& candidates.len() == (if rows.len() < SUMMARY_CANDIDATES {
                rows.len()
            } else {
                SUMMARY_CANDIDATES as nat
            })
            &&& forall|i: int| 0 <= i < candidates.len() ==> (#[trigger] candidates[i]).function_id == rows[i].function_id
        }),
{
    let files = result.files;
    lemma_areas_listed(files, index);
    lemma_area_order();
    let order = ranked(areas_of(files, index), area_order());
    crate::order::lemma_strictly_distinct(order, area_order());
    assert forall|i: int, j: int| 0 <= i < j < order.len() implies area_precedes(#[trigger] order[i], #[trigger] order[j]) && order[i].name
        != order[j].name by {
        assert(area_order()(order[i], order[j]) == Rank::Before);
        assert(order.to_set().contains(order[i]) && order.to_set().contains(order[j]));
        assert(order[i] != order[j]);
    }
}

} // verus!
