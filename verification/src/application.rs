//! Putting the analysis of a revision pair together.

use vstd::prelude::*;

use crate::analysis::{
    map_changed_functions, mapping_outcome, without_repeats, FileFunctionChanges, FileFunctionsView, FunctionChangeView,
    FunctionMappingDiagnostic, FunctionMappingDiagnosticCode, MappingDiagnosticView,
};
use crate::collections::{arranged, copy_option, lemma_arranged_keeps};
use crate::languages::{copy_calls, detect_language, language_of, DiagnosticSeverity, Language, SourceRange, MAX_ANALYZED_BLOB_BYTES};
use crate::order::{arrange_by, by_rank, compare_numbers, lemma_lawful_by, lemma_numbers_lawful, lemma_sorted_by_rank, number_rank, or_else, otherwise};
use crate::result::{
    code_number, code_place, compare_four, diagnostic_order, diagnostic_views, file_views, four_rank, function_views, sort_diagnostics,
    AnalysisResult, AnalysisSummary, Diagnostic, DiagnosticCode, DiagnosticCounts, DiagnosticView, FileResult, FileView, FunctionResult,
    FunctionView, ResultView, RevisionResult, RevisionView, SCHEMA_VERSION,
};
use crate::text::{compare, decimal, join2, number_text, same_text, text_option, text_rank, texts, Rank};
use crate::{BlobContent, BlobView, ChangeInventory, ChangeSummary, DiffHunk, DiffScopeError, ErrorView, FileChange, FileChangeView, FileStatus};

verus! {

/// Source bytes that may be under analysis at any one time.
///
/// A syntax tree costs many times the source it describes, and a file's two
/// revisions are parsed together, so peak memory follows the bytes in flight
/// rather than the number of workers.
pub const ANALYSIS_BYTES_IN_FLIGHT: usize = 8 * 1024 * 1024;

/// The admission to a fixed budget of bytes under analysis.
pub struct ByteBudget {
    pub in_flight: usize,
}

impl ByteBudget {
    /// Whether work of a cost may start now: it fits beside the work in flight,
    /// or nothing is in flight.
    pub open spec fn admits(self, cost: usize) -> bool {
        self.in_flight == 0 || self.in_flight + cost <= ANALYSIS_BYTES_IN_FLIGHT
    }

    pub fn new() -> (r: Self)
        ensures
            r.in_flight == 0,
    {
        ByteBudget { in_flight: 0 }
    }

    /// Start work of a cost if it may start now; whether it did.
    ///
    /// Work larger than the whole budget is admitted whenever nothing else is
    /// in flight, so none can wait forever.
    pub fn acquire(&mut self, cost: usize) -> (r: bool)
        ensures
            r == old(self).admits(cost),
            final(self).in_flight == if r {
                old(self).in_flight + cost
            } else {
                old(self).in_flight as int
            },
    {
        if self.in_flight > 0 && (cost > ANALYSIS_BYTES_IN_FLIGHT || self.in_flight > ANALYSIS_BYTES_IN_FLIGHT - cost) {
            return false;
        }
        self.in_flight = self.in_flight + cost;
        true
    }

    /// End work of a cost.
    pub fn release(&mut self, cost: usize)
        ensures
            final(self).in_flight == if cost < old(self).in_flight {
                old(self).in_flight - cost
            } else {
                0
            },
    {
        self.in_flight = if cost < self.in_flight {
            self.in_flight - cost
        } else {
            0
        };
    }
}

/// Once all work in flight has ended, any work is admitted: none waits for room
/// that can never appear.
pub proof fn lemma_budget_never_starves(budget: ByteBudget, cost: usize)
    requires
        budget.in_flight == 0,
    ensures
        budget.admits(cost),
{
}

/// Work that joins other work keeps the bytes in flight within the budget.
pub proof fn lemma_budget_holds(budget: ByteBudget, cost: usize)
    requires
        budget.in_flight > 0,
        budget.admits(cost),
    ensures
        budget.in_flight + cost <= ANALYSIS_BYTES_IN_FLIGHT,
{
}

/// The bytes of a blob that will be parsed. Blobs above the analysis size limit
/// never are.
pub open spec fn parsed_bytes(blob: BlobView) -> nat {
    match blob {
        BlobView::Available(source) => if source.len() <= MAX_ANALYZED_BLOB_BYTES {
            source.len()
        } else {
            0
        },
        _ => 0,
    }
}

fn parsed_len(blob: &BlobContent) -> (r: usize)
    ensures
        r == parsed_bytes(blob@),
        r <= MAX_ANALYZED_BLOB_BYTES,
{
    match blob {
        BlobContent::Available(source) => if source.len() <= MAX_ANALYZED_BLOB_BYTES {
            source.len()
        } else {
            0
        },
        _ => 0,
    }
}

/// Bytes a file contributes to the budget: the blobs that will be parsed.
pub fn analysis_cost(file: &FileChange) -> (r: usize)
    ensures
        r == parsed_bytes(file.base_blob@) + parsed_bytes(file.target_blob@),
{
    parsed_len(&file.base_blob) + parsed_len(&file.target_blob)
}

/// How many workers map a number of files on a number of cores.
pub fn worker_count(file_count: usize, available: usize) -> (r: usize)
    ensures
        r == if file_count < 2 {
            1
        } else if available < file_count {
            available
        } else {
            file_count
        },
{
    if file_count < 2 {
        return 1;
    }
    if available < file_count {
        available
    } else {
        file_count
    }
}

/// The values of outcomes, or the first error.
pub open spec fn gathered<T, E>(outcomes: Seq<Result<T, E>>) -> Result<Seq<T>, E>
    decreases outcomes.len(),
{
    if outcomes.len() == 0 {
        Ok(Seq::empty())
    } else {
        match gathered(outcomes.drop_last()) {
            Err(error) => Err(error),
            Ok(values) => match outcomes.last() {
                Err(error) => Err(error),
                Ok(value) => Ok(values.push(value)),
            },
        }
    }
}

/// An error among the first outcomes is the error of all of them.
proof fn lemma_gathered_prefix<T, E>(outcomes: Seq<Result<T, E>>, n: int)
    requires
        0 <= n <= outcomes.len(),
        gathered(outcomes.take(n)) is Err,
    ensures
        gathered(outcomes) == gathered(outcomes.take(n)),
    decreases outcomes.len() - n,
{
    if n < outcomes.len() {
        assert(outcomes.take(n + 1).drop_last() =~= outcomes.take(n));
        lemma_gathered_prefix(outcomes, n + 1);
    } else {
        assert(outcomes.take(n) =~= outcomes);
    }
}

/// The views of the mapped files.
pub open spec fn mapped_views(mapped: Seq<FileFunctionChanges>) -> Seq<FileFunctionsView> {
    mapped.map_values(|m: FileFunctionChanges| m@)
}

/// The outcome of mapping one file, by what it holds.
pub open spec fn outcome_view(r: Result<FileFunctionChanges, DiffScopeError>) -> Result<FileFunctionsView, ErrorView> {
    match r {
        Ok(mapped) => Ok(mapped@),
        Err(error) => Err(error@),
    }
}

/// The outcome of mapping files, by what it holds.
pub open spec fn outcomes_view(r: Result<Vec<FileFunctionChanges>, DiffScopeError>) -> Result<Seq<FileFunctionsView>, ErrorView> {
    match r {
        Ok(mapped) => Ok(mapped_views(mapped@)),
        Err(error) => Err(error@),
    }
}

/// The outcomes of mapping files one after the other.
pub open spec fn mapping_outcomes(files: Seq<FileChangeView>) -> Seq<Result<FileFunctionsView, ErrorView>> {
    files.map_values(|f: FileChangeView| mapping_outcome(f))
}

/// Map every changed file to its function changes; the error of the earliest
/// failing file is the error of all.
pub fn map_files(files: &Vec<FileChange>) -> (r: Result<Vec<FileFunctionChanges>, DiffScopeError>)
    ensures
        outcomes_view(r) == gathered(mapping_outcomes(crate::change_views(files@))),
{
    let ghost outcomes = mapping_outcomes(crate::change_views(files@));
    let mut out: Vec<FileFunctionChanges> = Vec::new();
    let mut i: usize = 0;
    assert(mapped_views(out@) =~= Seq::<FileFunctionsView>::empty());
    while i < files.len()
        invariant
            i <= files.len(),
            outcomes == mapping_outcomes(crate::change_views(files@)),
            gathered(outcomes.take(i as int)) == Ok::<Seq<FileFunctionsView>, ErrorView>(mapped_views(out@)),
        decreases files.len() - i,
    {
        let ghost so_far = mapped_views(out@);
        assert(outcomes.take(i + 1).drop_last() =~= outcomes.take(i as int));
        assert(outcomes.take(i + 1).last() == mapping_outcome(files@[i as int]@));
        match map_changed_functions(&files[i]) {
            Ok(mapped) => {
                let ghost one = mapped@;
                out.push(mapped);
                assert(mapped_views(out@) =~= so_far.push(one));
            },
            Err(error) => {
                proof {
                    lemma_gathered_prefix(outcomes, i + 1);
                }
                return Err(error);
            },
        }
        i = i + 1;
    }
    assert(outcomes.take(i as int) =~= outcomes);
    Ok(out)
}

/// A worker's outcome with the index of its file, by what it holds.
pub open spec fn claim_view(claim: (usize, Result<FileFunctionChanges, DiffScopeError>)) -> (int, Result<FileFunctionsView, ErrorView>) {
    (claim.0 as int, outcome_view(claim.1))
}

/// The outcomes of workers, by what they hold.
pub open spec fn claim_views(claimed: Seq<(usize, Result<FileFunctionChanges, DiffScopeError>)>) -> Seq<
    (int, Result<FileFunctionsView, ErrorView>),
> {
    claimed.map_values(|c: (usize, Result<FileFunctionChanges, DiffScopeError>)| claim_view(c))
}

/// The ranks by which workers' outcomes are put into input order.
pub open spec fn claim_order() -> spec_fn(
    (int, Result<FileFunctionsView, ErrorView>),
    (int, Result<FileFunctionsView, ErrorView>),
) -> Rank {
    |a: (int, Result<FileFunctionsView, ErrorView>), b: (int, Result<FileFunctionsView, ErrorView>)| number_rank(a.0, b.0)
}

/// Workers' outcomes in input order.
pub open spec fn in_input_order(claimed: Seq<(int, Result<FileFunctionsView, ErrorView>)>) -> Seq<Result<FileFunctionsView, ErrorView>> {
    arranged(claimed, by_rank(claim_order())).map_values(|c: (int, Result<FileFunctionsView, ErrorView>)| c.1)
}

/// Put the outcomes of workers, in whatever order they came, into input order.
pub fn restore_order(claimed: Vec<(usize, Result<FileFunctionChanges, DiffScopeError>)>) -> (r: Result<Vec<FileFunctionChanges>, DiffScopeError>)
    ensures
        outcomes_view(r) == gathered(in_input_order(claim_views(claimed@))),
{
    let ghost given = claim_views(claimed@);
    let mut claimed = claimed;
    let rank_of = |a: &(usize, Result<FileFunctionChanges, DiffScopeError>), b: &(usize, Result<FileFunctionChanges, DiffScopeError>)| -> (r:
        Rank)
        ensures
            r == number_rank(a.0 as int, b.0 as int),
    {
        compare_numbers(a.0 as u64, b.0 as u64)
    };
    arrange_by::<(usize, Result<FileFunctionChanges, DiffScopeError>), (int, Result<FileFunctionsView, ErrorView>), _>(
        &mut claimed,
        rank_of,
        Ghost(|c: (usize, Result<FileFunctionChanges, DiffScopeError>)| claim_view(c)),
        Ghost(claim_order()),
    );
    let ghost sorted = claim_views(claimed@);
    let ghost outcomes = in_input_order(given);
    assert(outcomes =~= sorted.map_values(|c: (int, Result<FileFunctionsView, ErrorView>)| c.1));
    let n: usize = claimed.len();
    let mut out: Vec<FileFunctionChanges> = Vec::new();
    let mut i: usize = 0;
    assert(mapped_views(out@) =~= Seq::<FileFunctionsView>::empty());
    #[verifier::loop_isolation(false)]
    while claimed.len() > 0
        invariant
            i + claimed.len() == n == sorted.len() == outcomes.len(),
            claim_views(claimed@) =~= sorted.skip(i as int),
            gathered(outcomes.take(i as int)) == Ok::<Seq<FileFunctionsView>, ErrorView>(mapped_views(out@)),
        decreases claimed.len(),
    {
        let ghost so_far = mapped_views(out@);
        assert(outcomes.take(i + 1).drop_last() =~= outcomes.take(i as int));
        assert(claim_views(claimed@)[0] == sorted[i as int]);
        assert(outcomes.take(i + 1).last() == sorted[i as int].1);
        let ghost held = claimed@;
        let (_, outcome) = claimed.remove(0);
        assert(claim_views(claimed@) =~= sorted.skip(i + 1)) by {
            assert forall|k: int| 0 <= k < claimed@.len() implies claim_views(claimed@)[k] == sorted.skip(i + 1)[k] by {
                assert(claim_views(held)[k + 1] == sorted.skip(i as int)[k + 1]);
            }
        }
        match outcome {
            Ok(mapped) => {
                let ghost one = mapped@;
                out.push(mapped);
                assert(mapped_views(out@) =~= so_far.push(one));
            },
            Err(error) => {
                proof {
                    lemma_gathered_prefix(outcomes, i + 1);
                }
                return Err(error);
            },
        }
        i = i + 1;
    }
    assert(outcomes.take(i as int) =~= outcomes);
    Ok(out)
}

/// Values with their positions.
pub open spec fn numbered<T>(values: Seq<T>) -> Seq<(int, T)> {
    Seq::new(values.len(), |i: int| (i, values[i]))
}

proof fn lemma_same_members<T>(a: Seq<T>, b: Seq<T>, k: int)
    requires
        a.to_multiset() == b.to_multiset(),
        0 <= k < a.len(),
    ensures
        b.contains(a[k]),
{
    broadcast use vstd::seq_lib::group_to_multiset_ensures;

    assert(a.contains(a[k]));
    assert(a.to_multiset().count(a[k]) > 0);
}

/// Numbered values that stand in ascending order stand at their positions.
proof fn lemma_numbered_in_place<T>(sorted: Seq<(int, T)>, values: Seq<T>)
    requires
        sorted.to_multiset() == numbered(values).to_multiset(),
        forall|j: int, k: int| 0 <= j < k < sorted.len() ==> (#[trigger] sorted[j]).0 <= (#[trigger] sorted[k]).0,
    ensures
        sorted == numbered(values),
{
    let expected = numbered(values);
    assert(expected.no_duplicates());
    expected.lemma_multiset_has_no_duplicates();
    vstd::seq_lib::to_multiset_len(sorted);
    vstd::seq_lib::to_multiset_len(expected);
    sorted.lemma_multiset_has_no_duplicates_conv();
    assert forall|k: int| 0 <= k < sorted.len() implies 0 <= (#[trigger] sorted[k]).0 < sorted.len() && sorted[k].1
        == values[sorted[k].0] by {
        lemma_same_members(sorted, expected, k);
    }
    assert forall|j: int, k: int| 0 <= j < k < sorted.len() implies (#[trigger] sorted[j]).0 < (#[trigger] sorted[k]).0 by {
        if sorted[j].0 == sorted[k].0 {
            assert(sorted[j] == sorted[k]);
        }
    }
    assert forall|k: int| 0 <= k < sorted.len() implies (#[trigger] sorted[k]).0 == k by {
        lemma_climbs(sorted, k);
        lemma_leaves_room(sorted, k);
    }
    assert(sorted =~= expected);
}

/// Parallel execution does not affect the result: whatever the order in which
/// workers finish, once every file has been mapped the results, and the error of
/// a failing analysis, are those of a sequential pass.
pub proof fn lemma_parallel_matches_sequential(files: Seq<FileChangeView>, claimed: Seq<(int, Result<FileFunctionsView, ErrorView>)>)
    requires
        claimed.to_multiset() == numbered(mapping_outcomes(files)).to_multiset(),
    ensures
        in_input_order(claimed) == mapping_outcomes(files),
{
    let sorted = arranged(claimed, by_rank(claim_order()));
    let index = |c: (int, Result<FileFunctionsView, ErrorView>)| c.0;
    let numbers = |a: int, b: int| number_rank(a, b);
    lemma_numbers_lawful();
    lemma_lawful_by(numbers, index);
    assert(claim_order() =~= |a: (int, Result<FileFunctionsView, ErrorView>), b: (int, Result<FileFunctionsView, ErrorView>)|
        numbers(index(a), index(b)));
    lemma_sorted_by_rank(claimed, claim_order());
    lemma_arranged_keeps(claimed, by_rank(claim_order()));
    assert forall|j: int, k: int| 0 <= j < k < sorted.len() implies (#[trigger] sorted[j]).0 <= (#[trigger] sorted[k]).0 by {
        assert(by_rank(claim_order())(sorted[j], sorted[k]));
    }
    lemma_numbered_in_place(sorted, mapping_outcomes(files));
    assert(in_input_order(claimed) =~= mapping_outcomes(files));
}

proof fn lemma_climbs<T>(s: Seq<(int, T)>, k: int)
    requires
        0 <= k < s.len(),
        forall|i: int| 0 <= i < s.len() ==> 0 <= (#[trigger] s[i]).0,
        forall|i: int, j: int| 0 <= i < j < s.len() ==> (#[trigger] s[i]).0 < (#[trigger] s[j]).0,
    ensures
        s[k].0 >= k,
    decreases k,
{
    if k > 0 {
        lemma_climbs(s, k - 1);
        assert(s[k - 1].0 < s[k].0);
    }
}

proof fn lemma_leaves_room<T>(s: Seq<(int, T)>, k: int)
    requires
        0 <= k < s.len(),
        forall|i: int| 0 <= i < s.len() ==> (#[trigger] s[i]).0 < s.len(),
        forall|i: int, j: int| 0 <= i < j < s.len() ==> (#[trigger] s[i]).0 < (#[trigger] s[j]).0,
    ensures
        s[k].0 <= k,
    decreases s.len() - k,
{
    if k < s.len() - 1 {
        lemma_leaves_room(s, k + 1);
        assert(s[k].0 < s[k + 1].0);
    }
}

/// The code that a mapping diagnostic is reported with.
pub open spec fn reported_code(code: FunctionMappingDiagnosticCode) -> DiagnosticCode {
    match code {
        FunctionMappingDiagnosticCode::AmbiguousFunctionMatch => DiagnosticCode::AmbiguousFunctionMatch,
        FunctionMappingDiagnosticCode::UnsupportedLanguage => DiagnosticCode::UnsupportedLanguage,
        FunctionMappingDiagnosticCode::MalformedSource => DiagnosticCode::MalformedSource,
        FunctionMappingDiagnosticCode::ParseError => DiagnosticCode::ParseError,
        FunctionMappingDiagnosticCode::InvalidUtf8 => DiagnosticCode::InvalidUtf8,
        FunctionMappingDiagnosticCode::OversizedFile => DiagnosticCode::OversizedFile,
        FunctionMappingDiagnosticCode::BlobUnavailable => DiagnosticCode::MissingBlob,
    }
}

/// The diagnostic that a mapping diagnostic is reported as.
pub open spec fn reported(d: MappingDiagnosticView, path: Option<Seq<char>>) -> DiagnosticView {
    DiagnosticView {
        code: reported_code(d.code),
        severity: d.severity,
        message: d.message,
        path,
        range: d.range,
        related_entity_ids: match d.qualified_name {
            Some(name) => seq![name],
            None => Seq::empty(),
        },
    }
}

fn mapping_diagnostic(diagnostic: &FunctionMappingDiagnostic, path: &Option<String>) -> (r: Diagnostic)
    ensures
        r@ == reported(diagnostic@, text_option(*path)),
{
    let code = match diagnostic.code {
        FunctionMappingDiagnosticCode::AmbiguousFunctionMatch => DiagnosticCode::AmbiguousFunctionMatch,
        FunctionMappingDiagnosticCode::UnsupportedLanguage => DiagnosticCode::UnsupportedLanguage,
        FunctionMappingDiagnosticCode::MalformedSource => DiagnosticCode::MalformedSource,
        FunctionMappingDiagnosticCode::ParseError => DiagnosticCode::ParseError,
        FunctionMappingDiagnosticCode::InvalidUtf8 => DiagnosticCode::InvalidUtf8,
        FunctionMappingDiagnosticCode::OversizedFile => DiagnosticCode::OversizedFile,
        FunctionMappingDiagnosticCode::BlobUnavailable => DiagnosticCode::MissingBlob,
    };
    let mut related_entity_ids: Vec<String> = Vec::new();
    if let Some(name) = &diagnostic.qualified_name {
        related_entity_ids.push(name.clone());
    }
    assert(texts(related_entity_ids@) =~= reported(diagnostic@, text_option(*path)).related_entity_ids);
    Diagnostic {
        code,
        severity: diagnostic.severity,
        message: diagnostic.message.clone(),
        path: copy_option(path),
        range: diagnostic.range,
        related_entity_ids,
    }
}

/// The diagnostic of a binary file.
pub open spec fn binary_file(path: Option<Seq<char>>) -> DiagnosticView {
    DiagnosticView {
        code: DiagnosticCode::BinaryFile,
        severity: DiagnosticSeverity::Info,
        message: "binary file is inventoried without source metrics"@,
        path,
        range: None,
        related_entity_ids: Seq::empty(),
    }
}

/// The place of a severity by its weight.
pub open spec fn weight_place(severity: DiagnosticSeverity) -> int {
    match severity {
        DiagnosticSeverity::Info => 0,
        DiagnosticSeverity::Warning => 1,
        DiagnosticSeverity::Error => 2,
    }
}

fn weight_number(severity: DiagnosticSeverity) -> (r: u64)
    ensures
        r == weight_place(severity),
{
    match severity {
        DiagnosticSeverity::Info => 0,
        DiagnosticSeverity::Warning => 1,
        DiagnosticSeverity::Error => 2,
    }
}

/// Where one optional range stands relative to another: none stands first.
pub open spec fn range_rank(a: Option<SourceRange>, b: Option<SourceRange>) -> Rank {
    match (a, b) {
        (None, None) => Rank::Same,
        (None, Some(_)) => Rank::Before,
        (Some(_), None) => Rank::After,
        (Some(x), Some(y)) => four_rank(
            (x.start_line as int, x.start_column as int, x.end_line as int, x.end_column as int),
            (y.start_line as int, y.start_column as int, y.end_line as int, y.end_column as int),
        ),
    }
}

fn compare_ranges(a: &Option<SourceRange>, b: &Option<SourceRange>) -> (r: Rank)
    ensures
        r == range_rank(*a, *b),
{
    match (a, b) {
        (None, None) => Rank::Same,
        (None, Some(_)) => Rank::Before,
        (Some(_), None) => Rank::After,
        (Some(x), Some(y)) => compare_four(
            (x.start_line, x.start_column, x.end_line, x.end_column),
            (y.start_line, y.start_column, y.end_line, y.end_column),
        ),
    }
}

/// Where one diagnostic stands relative to another by what it says: the order
/// that brings diagnostics that repeat each other together.
pub open spec fn identity_rank(a: DiagnosticView, b: DiagnosticView) -> Rank {
    otherwise(
        number_rank(code_place(a.code), code_place(b.code)),
        otherwise(
            number_rank(weight_place(a.severity), weight_place(b.severity)),
            otherwise(text_rank(a.message, b.message), range_rank(a.range, b.range)),
        ),
    )
}

/// The ranks by which diagnostics that repeat each other are brought together.
pub open spec fn identity_order() -> spec_fn(DiagnosticView, DiagnosticView) -> Rank {
    |a: DiagnosticView, b: DiagnosticView| identity_rank(a, b)
}

fn compare_identities(a: &Diagnostic, b: &Diagnostic) -> (r: Rank)
    ensures
        r == identity_rank(a@, b@),
{
    or_else(
        compare_numbers(code_number(a.code), code_number(b.code)),
        or_else(
            compare_numbers(weight_number(a.severity), weight_number(b.severity)),
            or_else(compare(a.message.as_str(), b.message.as_str()), compare_ranges(&a.range, &b.range)),
        ),
    )
}

fn same_texts(a: &Vec<String>, b: &Vec<String>) -> (r: bool)
    ensures
        r == (texts(a@) == texts(b@)),
{
    if a.len() != b.len() {
        assert(texts(a@).len() != texts(b@).len());
        return false;
    }
    let mut i: usize = 0;
    while i < a.len()
        invariant
            i <= a.len() == b.len(),
            forall|k: int| 0 <= k < i ==> (#[trigger] a@[k])@ == b@[k]@,
        decreases a.len() - i,
    {
        if !same_text(a[i].as_str(), b[i].as_str()) {
            assert(texts(a@)[i as int] != texts(b@)[i as int]);
            return false;
        }
        i = i + 1;
    }
    assert(texts(a@) =~= texts(b@));
    true
}

fn same_option(a: &Option<String>, b: &Option<String>) -> (r: bool)
    ensures
        r == (text_option(*a) == text_option(*b)),
{
    match (a, b) {
        (None, None) => true,
        (Some(x), Some(y)) => same_text(x.as_str(), y.as_str()),
        _ => false,
    }
}

fn same_range(a: &Option<SourceRange>, b: &Option<SourceRange>) -> (r: bool)
    ensures
        r == (*a == *b),
{
    match (a, b) {
        (None, None) => true,
        (Some(x), Some(y)) => *x == *y,
        _ => false,
    }
}

fn same_diagnostic(a: &Diagnostic, b: &Diagnostic) -> (r: bool)
    ensures
        r == (a@ == b@),
{
    let r = a.code == b.code && a.severity == b.severity && same_text(a.message.as_str(), b.message.as_str()) && same_option(
        &a.path,
        &b.path,
    ) && same_range(&a.range, &b.range) && same_texts(&a.related_entity_ids, &b.related_entity_ids);
    proof {
        if r {
            assert(a@ =~= b@);
        }
    }
    r
}

fn drop_repeats(diagnostics: &Vec<Diagnostic>) -> (r: Vec<Diagnostic>)
    ensures
        diagnostic_views(r@) == without_repeats(diagnostic_views(diagnostics@)),
{
    let ghost views = diagnostic_views(diagnostics@);
    let mut out: Vec<Diagnostic> = Vec::new();
    let mut i: usize = 0;
    assert(diagnostic_views(out@) =~= without_repeats(views.take(0)));
    while i < diagnostics.len()
        invariant
            i <= diagnostics.len(),
            views == diagnostic_views(diagnostics@),
            diagnostic_views(out@) == without_repeats(views.take(i as int)),
        decreases diagnostics.len() - i,
    {
        let ghost so_far = diagnostic_views(out@);
        assert(views.take(i + 1).drop_last() =~= views.take(i as int));
        assert(views[i as int] == diagnostics@[i as int]@);
        let repeats = if i > 0 {
            assert(views[i - 1] == diagnostics@[i - 1]@);
            same_diagnostic(&diagnostics[i - 1], &diagnostics[i])
        } else {
            false
        };
        if !repeats {
            let one = diagnostics[i].copy();
            let ghost view = one@;
            out.push(one);
            assert(diagnostic_views(out@) =~= so_far.push(view));
        }
        i = i + 1;
    }
    assert(views.take(i as int) =~= views);
    out
}

/// The diagnostics that a file is reported with: none of them twice, the most
/// severe first.
pub open spec fn file_diagnostics(file: FileChangeView, mapped: FileFunctionsView) -> Seq<DiagnosticView> {
    let path = crate::git::change_key(file);
    let all = mapped.diagnostics.map_values(|d: MappingDiagnosticView| reported(d, path)) + if file.status == FileStatus::Binary {
        seq![binary_file(path)]
    } else {
        Seq::empty()
    };
    arranged(without_repeats(arranged(all, by_rank(identity_order()))), by_rank(diagnostic_order()))
}

/// A number as far as it fits 64 bits.
pub open spec fn capped_number(n: nat) -> nat {
    if n > u64::MAX {
        u64::MAX as nat
    } else {
        n
    }
}

/// The result of one function.
pub open spec fn function_result(change: FunctionChangeView, number: nat) -> FunctionView {
    FunctionView {
        id: "function-"@ + decimal(capped_number(number)),
        status: change.status,
        kind: change.kind,
        qualified_name: change.qualified_name,
        base_range: change.base_range,
        target_range: change.target_range,
        metrics_before: change.metrics_before,
        metrics_after: change.metrics_after,
        calls_before: change.calls_before,
        calls_after: change.calls_after,
        churn: change.churn,
        match_confidence: change.match_confidence,
        diagnostics: Seq::empty(),
    }
}

/// The language of a changed file.
pub open spec fn file_language(file: FileChangeView) -> Option<Language> {
    match crate::git::change_key(file) {
        Some(path) => language_of(path),
        None => None,
    }
}

/// The result of one file, its functions numbered from `first` on.
pub open spec fn file_result(file: FileChangeView, mapped: FileFunctionsView, first: nat) -> FileView {
    FileView {
        base_path: file.base_path,
        target_path: file.target_path,
        status: file.status,
        language: file_language(file),
        is_binary: file.status == FileStatus::Binary,
        added_lines: file.added_lines,
        removed_lines: file.removed_lines,
        hunks: file.hunks,
        functions: Seq::new(mapped.functions.len(), |i: int| function_result(mapped.functions[i], (first + i) as nat)),
        exports_added: mapped.exports_added,
        exports_removed: mapped.exports_removed,
        diagnostics: file_diagnostics(file, mapped),
    }
}

/// Whether the functions of a file are analyzed.
pub open spec fn is_supported(file: FileChangeView) -> bool {
    file_language(file) is Some && file.status != FileStatus::Binary
}

/// Numbering from a capped number gives the same ids.
proof fn lemma_capped_numbering(file: FileChangeView, mapped: FileFunctionsView, first: nat)
    ensures
        file_result(file, mapped, capped_number(first)) == file_result(file, mapped, first),
{
    let a = file_result(file, mapped, capped_number(first)).functions;
    let b = file_result(file, mapped, first).functions;
    assert forall|i: int| 0 <= i < a.len() implies a[i] == b[i] by {
        assert(capped_number((capped_number(first) + i) as nat) == capped_number((first + i) as nat));
    }
    assert(a =~= b);
}

fn copy_hunks(hunks: &Vec<DiffHunk>) -> (r: Vec<DiffHunk>)
    ensures
        r@ == hunks@,
{
    let mut out: Vec<DiffHunk> = Vec::new();
    let mut i: usize = 0;
    while i < hunks.len()
        invariant
            i <= hunks.len(),
            out@ == hunks@.take(i as int),
        decreases hunks.len() - i,
    {
        out.push(hunks[i]);
        assert(hunks@.take(i + 1) =~= hunks@.take(i as int).push(hunks@[i as int]));
        i = i + 1;
    }
    assert(hunks@.take(i as int) =~= hunks@);
    out
}

fn report_diagnostics(file: &FileChange, mapped: &FileFunctionChanges) -> (r: Vec<Diagnostic>)
    ensures
        diagnostic_views(r@) == file_diagnostics(file@, mapped@),
{
    let path = if file.target_path.is_some() {
        &file.target_path
    } else {
        &file.base_path
    };
    let ghost key = crate::git::change_key(file@);
    let ghost passed = mapped@.diagnostics.map_values(|d: MappingDiagnosticView| reported(d, key));
    let mut diagnostics: Vec<Diagnostic> = Vec::new();
    let mut i: usize = 0;
    assert(diagnostic_views(diagnostics@) =~= passed.take(0));
    while i < mapped.diagnostics.len()
        invariant
            i <= mapped.diagnostics.len(),
            key == text_option(*path),
            passed == mapped@.diagnostics.map_values(|d: MappingDiagnosticView| reported(d, key)),
            diagnostic_views(diagnostics@) == passed.take(i as int),
        decreases mapped.diagnostics.len() - i,
    {
        let ghost so_far = diagnostic_views(diagnostics@);
        let one = mapping_diagnostic(&mapped.diagnostics[i], path);
        let ghost view = one@;
        diagnostics.push(one);
        proof {
            assert(mapped@.diagnostics[i as int] == mapped.diagnostics@[i as int]@);
            assert(diagnostic_views(diagnostics@) =~= so_far.push(view));
            assert(passed.take(i + 1) =~= passed.take(i as int).push(passed[i as int]));
        }
        i = i + 1;
    }
    assert(passed.take(i as int) =~= passed);
    let ghost so_far = diagnostic_views(diagnostics@);
    if file.status == FileStatus::Binary {
        let one = Diagnostic {
            code: DiagnosticCode::BinaryFile,
            severity: DiagnosticSeverity::Info,
            message: "binary file is inventoried without source metrics".to_owned(),
            path: copy_option(path),
            range: None,
            related_entity_ids: Vec::new(),
        };
        proof {
            assert(texts(one.related_entity_ids@) =~= Seq::<Seq<char>>::empty());
            assert(one@ =~= binary_file(key));
        }
        diagnostics.push(one);
        assert(diagnostic_views(diagnostics@) =~= so_far + seq![binary_file(key)]);
    } else {
        assert(diagnostic_views(diagnostics@) =~= so_far + Seq::<DiagnosticView>::empty());
    }
    let rank_of = |a: &Diagnostic, b: &Diagnostic| -> (r: Rank)
        ensures
            r == identity_rank(a@, b@),
    {
        compare_identities(a, b)
    };
    arrange_by::<Diagnostic, DiagnosticView, _>(&mut diagnostics, rank_of, Ghost(|d: Diagnostic| d@), Ghost(identity_order()));
    let mut distinct = drop_repeats(&diagnostics);
    sort_diagnostics(&mut distinct);
    distinct
}

/// Build the result of one file, numbering its functions from
/// `next_function_id` on; and whether its functions are analyzed.
pub fn build_file_result(file: &FileChange, mapped: FileFunctionChanges, next_function_id: &mut u64) -> (r: (FileResult, bool))
    ensures
        r.0@ == file_result(file@, mapped@, *old(next_function_id) as nat),
        r.1 == is_supported(file@),
        *final(next_function_id) == capped_number(*old(next_function_id) as nat + mapped.functions@.len()),
{
    let ghost given = mapped@;
    let ghost first = *next_function_id as nat;
    let diagnostics = report_diagnostics(file, &mapped);
    let path = if file.target_path.is_some() {
        &file.target_path
    } else {
        &file.base_path
    };
    let language = match path {
        Some(path) => detect_language(path.as_str()),
        None => None,
    };
    let is_binary = file.status == FileStatus::Binary;
    let FileFunctionChanges { base_path: _, target_path: _, functions: changes, exports_added, exports_removed, diagnostics: _ } = mapped;
    let ghost all = Seq::new(given.functions.len(), |i: int| function_result(given.functions[i], (first + i) as nat));
    let mut functions: Vec<FunctionResult> = Vec::new();
    let mut i: usize = 0;
    assert(function_views(functions@) =~= all.take(0));
    while i < changes.len()
        invariant
            i <= changes.len() == given.functions.len(),
            given.functions == crate::analysis::function_change_views(changes@),
            all == Seq::new(given.functions.len(), |i: int| function_result(given.functions[i], (first + i) as nat)),
            function_views(functions@) == all.take(i as int),
            *next_function_id == capped_number(first + i as nat),
        decreases changes.len() - i,
    {
        let ghost so_far = function_views(functions@);
        let change = &changes[i];
        let one = FunctionResult {
            id: join2("function-", number_text(*next_function_id).as_str()),
            status: change.status,
            kind: change.kind,
            qualified_name: change.qualified_name.clone(),
            base_range: change.base_range,
            target_range: change.target_range,
            metrics_before: change.metrics_before,
            metrics_after: change.metrics_after,
            calls_before: copy_calls(&change.calls_before),
            calls_after: copy_calls(&change.calls_after),
            churn: change.churn,
            match_confidence: change.match_confidence,
            diagnostics: Vec::new(),
        };
        let ghost view = one@;
        proof {
            assert(given.functions[i as int] == changes@[i as int]@);
            assert(view.diagnostics =~= Seq::<DiagnosticView>::empty());
            assert(view =~= all[i as int]);
        }
        functions.push(one);
        *next_function_id = next_function_id.saturating_add(1);
        proof {
            assert(function_views(functions@) =~= so_far.push(view));
            assert(all.take(i + 1) =~= all.take(i as int).push(all[i as int]));
        }
        i = i + 1;
    }
    assert(all.take(i as int) =~= all);
    (
        FileResult {
            base_path: copy_option(&file.base_path),
            target_path: copy_option(&file.target_path),
            status: file.status,
            language,
            is_binary,
            added_lines: file.added_lines,
            removed_lines: file.removed_lines,
            hunks: copy_hunks(&file.hunks),
            functions,
            exports_added,
            exports_removed,
            diagnostics,
        },
        language.is_some() && !is_binary,
    )
}

/// The results of files, their functions numbered one after the other.
pub open spec fn file_results(files: Seq<FileChangeView>, mapped: Seq<FileFunctionsView>) -> Seq<FileView>
    decreases files.len(),
{
    if files.len() == 0 || mapped.len() == 0 {
        Seq::empty()
    } else {
        file_results(files.drop_last(), mapped.drop_last()).push(
            file_result(files.last(), mapped.last(), 1 + function_total(mapped.drop_last())),
        )
    }
}

/// How many functions mapped files have.
pub open spec fn function_total(mapped: Seq<FileFunctionsView>) -> nat
    decreases mapped.len(),
{
    if mapped.len() == 0 {
        0
    } else {
        function_total(mapped.drop_last()) + mapped.last().functions.len()
    }
}

/// How many files have analyzed functions.
pub open spec fn supported_count(files: Seq<FileChangeView>) -> nat
    decreases files.len(),
{
    if files.len() == 0 {
        0
    } else {
        supported_count(files.drop_last()) + if is_supported(files.last()) {
            1nat
        } else {
            0
        }
    }
}

/// Counts with the diagnostics of a sequence added.
pub open spec fn counted(counts: DiagnosticCounts, diagnostics: Seq<DiagnosticView>) -> DiagnosticCounts
    decreases diagnostics.len(),
{
    if diagnostics.len() == 0 {
        counts
    } else {
        counted(counts, diagnostics.drop_last()).with(diagnostics.last().severity)
    }
}

/// Counts with the diagnostics of files added.
pub open spec fn counted_files(counts: DiagnosticCounts, files: Seq<FileView>) -> DiagnosticCounts
    decreases files.len(),
{
    if files.len() == 0 {
        counts
    } else {
        counted(counted_files(counts, files.drop_last()), files.last().diagnostics)
    }
}

fn count_diagnostics(counts: &mut DiagnosticCounts, diagnostics: &Vec<Diagnostic>)
    ensures
        *final(counts) == counted(*old(counts), diagnostic_views(diagnostics@)),
{
    let ghost views = diagnostic_views(diagnostics@);
    let ghost start = *counts;
    let mut i: usize = 0;
    while i < diagnostics.len()
        invariant
            i <= diagnostics.len(),
            views == diagnostic_views(diagnostics@),
            *counts == counted(start, views.take(i as int)),
        decreases diagnostics.len() - i,
    {
        assert(views.take(i + 1).drop_last() =~= views.take(i as int));
        assert(views[i as int] == diagnostics@[i as int]@);
        counts.add(diagnostics[i].severity);
        i = i + 1;
    }
    assert(views.take(i as int) =~= views);
}

/// The totals of an analysis.
pub open spec fn analysis_summary(totals: ChangeSummary, files: Seq<FileChangeView>, results: Seq<FileView>) -> AnalysisSummary {
    AnalysisSummary {
        changed_files: totals.changed_files,
        added_lines: totals.added_lines,
        removed_lines: totals.removed_lines,
        supported_files: supported_count(files) as u32,
        unsupported_files: (files.len() - supported_count(files)) as u32,
        diagnostics: counted_files(DiagnosticCounts { info: 0, warning: 0, error: 0 }, results),
    }
}

/// The analysis of an inventory whose files have been mapped.
pub open spec fn analysis_of(
    inventory: ChangeInventory,
    mapped: Seq<FileFunctionsView>,
    tool_version: Seq<char>,
) -> ResultView {
    let files = crate::change_views(inventory.files@);
    let results = file_results(files, mapped);
    ResultView {
        schema_version: SCHEMA_VERSION,
        tool_version,
        repository: inventory.repository_path@,
        base: RevisionView { id: inventory.base.commit_id@, display_name: inventory.base.input@ },
        target: RevisionView { id: inventory.target.commit_id@, display_name: inventory.target.input@ },
        summary: analysis_summary(inventory.summary, files, results),
        files: results,
        diagnostics: Seq::empty(),
    }
}

/// Build the analysis of an inventory whose files have been mapped, one for one.
pub fn build_analysis(inventory: &ChangeInventory, mapped: Vec<FileFunctionChanges>, tool_version: &str) -> (r: AnalysisResult)
    requires
        inventory.files@.len() <= u32::MAX,
        mapped@.len() == inventory.files@.len(),
    ensures
        r@ == analysis_of(*inventory, mapped_views(mapped@), tool_version@),
{
    let ghost changes = crate::change_views(inventory.files@);
    let ghost views = mapped_views(mapped@);
    let n: usize = inventory.files.len();
    let mut rest = mapped;
    let mut files: Vec<FileResult> = Vec::new();
    let mut supported: u32 = 0;
    let mut unsupported: u32 = 0;
    let mut next_function_id: u64 = 1;
    let mut counts = DiagnosticCounts::default();
    let ghost zero = counts;
    let mut i: usize = 0;
    assert(file_views(files@) =~= file_results(changes.take(0), views.take(0)));
    #[verifier::loop_isolation(false)]
    while i < n
        invariant
            i <= n == changes.len() == views.len() == inventory.files@.len(),
            n <= u32::MAX,
            changes == crate::change_views(inventory.files@),
            rest.len() == n - i,
            mapped_views(rest@) == views.skip(i as int),
            file_views(files@) == file_results(changes.take(i as int), views.take(i as int)),
            next_function_id == capped_number(1 + function_total(views.take(i as int))),
            supported == supported_count(changes.take(i as int)),
            supported + unsupported == i,
            counts == counted_files(zero, file_views(files@)),
        decreases n - i,
    {
        let ghost so_far = file_views(files@);
        let ghost held = rest@;
        assert(mapped_views(held)[0] == views[i as int]);
        let one = rest.remove(0);
        proof {
            assert(mapped_views(rest@) =~= views.skip(i + 1)) by {
                assert forall|k: int| 0 <= k < rest@.len() implies mapped_views(rest@)[k] == views.skip(i + 1)[k] by {
                    assert(mapped_views(held)[k + 1] == views.skip(i as int)[k + 1]);
                }
            }
            assert(changes.take(i + 1).drop_last() =~= changes.take(i as int));
            assert(views.take(i + 1).drop_last() =~= views.take(i as int));
            assert(changes[i as int] == inventory.files@[i as int]@);
            assert(one@ == views[i as int]);
            assert(one.functions@.len() == one@.functions.len());
        }
        let (file, is_analyzed) = build_file_result(
            &inventory.files[i],
            one,
            &mut next_function_id,
        );
        proof {
            lemma_capped_numbering(changes[i as int], views[i as int], 1 + function_total(views.take(i as int)));
        }
        if is_analyzed {
            supported = supported + 1;
        } else {
            unsupported = unsupported + 1;
        }
        count_diagnostics(&mut counts, &file.diagnostics);
        let ghost view = file@;
        files.push(file);
        proof {
            assert(file_views(files@) =~= so_far.push(view));
            assert(so_far.push(view).drop_last() =~= so_far);
        }
        i = i + 1;
    }
    proof {
        assert(changes.take(i as int) =~= changes);
        assert(views.take(i as int) =~= views);
    }
    let r = AnalysisResult {
        schema_version: SCHEMA_VERSION,
        tool_version: tool_version.to_owned(),
        repository: inventory.repository_path.clone(),
        base: RevisionResult { id: inventory.base.commit_id.clone(), display_name: inventory.base.input.clone() },
        target: RevisionResult { id: inventory.target.commit_id.clone(), display_name: inventory.target.input.clone() },
        summary: AnalysisSummary {
            changed_files: inventory.summary.changed_files,
            added_lines: inventory.summary.added_lines,
            removed_lines: inventory.summary.removed_lines,
            supported_files: supported,
            unsupported_files: unsupported,
            diagnostics: counts,
        },
        files,
        diagnostics: Vec::new(),
    };
    assert(r@.diagnostics =~= Seq::<DiagnosticView>::empty());
    r
}

proof fn lemma_gathered_len<T, E>(outcomes: Seq<Result<T, E>>)
    ensures
        gathered(outcomes) matches Ok(values) ==> values.len() == outcomes.len(),
    decreases outcomes.len(),
{
    if outcomes.len() > 0 {
        lemma_gathered_len(outcomes.drop_last());
    }
}

/// Analyze all changed files and functions of an inventory.
///
/// Fails when the analysis of a file fails, with the error of the earliest.
pub fn analyze(inventory: &ChangeInventory, tool_version: &str) -> (r: Result<AnalysisResult, DiffScopeError>)
    requires
        inventory.files@.len() <= u32::MAX,
    ensures
        match (r, gathered(mapping_outcomes(crate::change_views(inventory.files@)))) {
            (Ok(result), Ok(mapped)) => result@ == analysis_of(*inventory, mapped, tool_version@),
            (Err(error), Err(fault)) => error@ == fault,
            _ => false,
        },
{
    proof {
        lemma_gathered_len(mapping_outcomes(crate::change_views(inventory.files@)));
    }
    match map_files(&inventory.files) {
        Err(error) => Err(error),
        Ok(mapped) => {
            assert(mapped@.len() == mapped_views(mapped@).len());
            Ok(build_analysis(inventory, mapped, tool_version))
        },
    }
}

} // verus!
