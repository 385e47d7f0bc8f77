//! How requests are read, continued and remembered.

use vstd::prelude::*;

use crate::analysis::FunctionChangeStatus;
use crate::graph::Direction;
use crate::harness::cursor::{
    admitted, file_query_of, function_query_of, hex_char, next_payload, CursorQueryFacts, FaultFacts, FileQueryFacts, FunctionQueryFacts, ParamFacts,
    PayloadFacts, ReadingFacts,
};
use crate::harness::impact::{direction_of, request_of, view_of, GraphParamFacts};
use crate::harness::jsonl::{
    accepted, file_filter_of, function_filter_of, is_paginated, method_named, needs_imports, risk_of, role_of, status_named, status_of, trimmed_line, Method,
};
use crate::harness::tools::{argument_word, offered_methods, optional_arguments, required_arguments, tool_word, Argument};
use crate::harness::{cached_from, cached_records, evicted, function_records, other_key, overfull, stored, used, EntryFacts, KeyFacts};
use crate::laws::counting::sum;
use crate::laws::listing::lemma_sum_same;
use crate::order::picked;
use crate::query::classify::{classification_named, FileClassification};

use crate::query::page::{applied_limit, PageWindow};
use crate::query::risk::{level_named, RiskLevel};
use crate::result::{FileView, ResultView};

verus! {

/// A request without a method is for the whole analysis, and any other is for
/// the method it names, or for none.
pub proof fn lemma_methods_are_named(name: Seq<char>)
    ensures
        method_named(None) == Some(Method::Analyze),
        method_named(Some(name)) == Some(Method::Analyze) ==> name == "analyze"@,
        method_named(Some(name)) == Some(Method::ChangeSummary) ==> name == "get_change_summary"@,
        method_named(Some(name)) == Some(Method::ListChangedFiles) ==> name == "list_changed_files"@,
        method_named(Some(name)) == Some(Method::ListChangedFunctions) ==> name == "list_changed_functions"@,
        method_named(Some(name)) == Some(Method::GetFunctionChange) ==> name == "get_function_change"@,
        method_named(Some(name)) == Some(Method::GetAnalysisDiagnostics) ==> name == "get_analysis_diagnostics"@,
        method_named(Some(name)) != Some(Method::GetImpactGraph),
        method_named(Some(name)) is None <==> name != "analyze"@ && name != "get_change_summary"@ && name != "list_changed_files"@ && name
            != "list_changed_functions"@ && name != "get_function_change"@ && name != "get_analysis_diagnostics"@,
{
}

/// The summary, the listings and the detail tell the importers of a file, and
/// only the listings come in pages.
pub proof fn lemma_what_methods_need(method: Method)
    ensures
        needs_imports(method) <==> method == Method::ChangeSummary || method == Method::ListChangedFiles || method == Method::ListChangedFunctions
            || method == Method::GetFunctionChange,
        is_paginated(method) <==> method == Method::ListChangedFiles || method == Method::ListChangedFunctions,
{
}

/// A line is read without its end, be that a line feed or a carriage return and
/// a line feed.
pub proof fn lemma_line_is_read_without_end(content: Seq<u8>)
    requires
        content.len() > 0 ==> content.last() != 13 && content.last() != 10,
    ensures
        trimmed_line(content) == content,
        trimmed_line(content + seq![10u8]) == content,
        trimmed_line(content + seq![13u8, 10u8]) == content,
{
    let a = content + seq![10u8];
    let b = content + seq![13u8, 10u8];
    assert(a.drop_last() =~= content);
    assert(b.drop_last() =~= content + seq![13u8]);
    assert((content + seq![13u8]).drop_last() =~= content);
}

/// Only the second version of the protocol is spoken, and only known methods
/// are answered.
pub proof fn lemma_what_is_accepted(version: u32, method: Option<Seq<char>>)
    ensures
        accepted(version, method) is Ok <==> version == 2 && method_named(method) is Some,
        accepted(version, method) matches Ok(found) ==> method_named(method) == Some(found),
        version != 2 ==> (accepted(version, method) matches Err(fault) && fault.code == "unsupported_protocol_version"@),
        version == 2 && method_named(method) is None ==> (accepted(version, method) matches Err(fault) && fault.code == "unknown_method"@),
{
}

/// The words for a status, a role, a level, a direction and a view are read,
/// and any other word is refused as an invalid parameter.
pub proof fn lemma_words_are_read(word: Seq<char>)
    ensures
        status_named(word) == Some(FunctionChangeStatus::Added) ==> word == "added"@,
        status_named(word) == Some(FunctionChangeStatus::Removed) ==> word == "removed"@,
        status_named(word) == Some(FunctionChangeStatus::Modified) ==> word == "modified"@,
        status_named(word) == Some(FunctionChangeStatus::Unchanged) ==> word == "unchanged"@,
        status_named(word) is None <==> word != "added"@ && word != "removed"@ && word != "modified"@ && word != "unchanged"@,
        classification_named(word) == Some(FileClassification::Lockfile) ==> word == "lockfile"@,
        classification_named(word) == Some(FileClassification::Vendored) ==> word == "vendored"@,
        classification_named(word) == Some(FileClassification::Generated) ==> word == "generated"@,
        classification_named(word) == Some(FileClassification::Test) ==> word == "test"@,
        classification_named(word) == Some(FileClassification::Config) ==> word == "config"@,
        classification_named(word) == Some(FileClassification::Docs) ==> word == "docs"@,
        classification_named(word) == Some(FileClassification::Source) ==> word == "source"@,
        classification_named(word) is None <==> word != "lockfile"@ && word != "vendored"@ && word != "generated"@ && word != "test"@ && word
            != "config"@ && word != "docs"@ && word != "source"@,
        level_named(word) == Some(RiskLevel::Low) ==> word == "low"@,
        level_named(word) == Some(RiskLevel::Medium) ==> word == "medium"@,
        level_named(word) == Some(RiskLevel::High) ==> word == "high"@,
        level_named(word) is None <==> word != "low"@ && word != "medium"@ && word != "high"@,
        status_named(word) is None ==> (status_of(Some(word)) matches Err(fault) && fault.code == "invalid_params"@),
        classification_named(word) is None ==> (role_of(Some(word)) matches Err(fault) && fault.code == "invalid_params"@),
        level_named(word) is None ==> (risk_of(Some(word)) matches Err(fault) && fault.code == "invalid_params"@),
        status_named(word) is Some ==> status_of(Some(word)) == Ok::<Option<FunctionChangeStatus>, FaultFacts>(status_named(word)),
        classification_named(word) is Some ==> role_of(Some(word)) == Ok::<Option<FileClassification>, FaultFacts>(classification_named(word)),
        level_named(word) is Some ==> risk_of(Some(word)) == Ok::<Option<RiskLevel>, FaultFacts>(level_named(word)),
        crate::graph::direction_named(word) == Some(Direction::Upstream) ==> word == "upstream"@,
        crate::graph::direction_named(word) == Some(Direction::Downstream) ==> word == "downstream"@,
        crate::graph::direction_named(word) == Some(Direction::Both) ==> word == "both"@,
        crate::graph::direction_named(word) is None <==> word != "upstream"@ && word != "downstream"@ && word != "both"@,
        crate::graph::direction_named(word) is Some ==> direction_of(Some(word)) == Ok::<Option<Direction>, FaultFacts>(
            crate::graph::direction_named(word),
        ),
        crate::graph::direction_named(word) is None ==> direction_of(Some(word)) is Err,
        crate::graph::view_named(word) is Some ==> view_of(Some(word)) == Ok::<Option<crate::graph::View>, FaultFacts>(crate::graph::view_named(word)),
        crate::graph::view_named(word) is None ==> view_of(Some(word)) is Err,
{
}

/// A query that names no status, role or level asks for all of them.
pub proof fn lemma_nothing_named_is_all()
    ensures
        status_of(None) == Ok::<Option<FunctionChangeStatus>, FaultFacts>(None),
        role_of(None) == Ok::<Option<FileClassification>, FaultFacts>(None),
        risk_of(None) == Ok::<Option<RiskLevel>, FaultFacts>(None),
        direction_of(None) == Ok::<Option<Direction>, FaultFacts>(None),
        view_of(None) == Ok::<Option<crate::graph::View>, FaultFacts>(None),
{
}

/// A query becomes a filter with what it names, its limit and its offset.
pub proof fn lemma_query_becomes_filter(files: FileQueryFacts, functions: FunctionQueryFacts, offset: usize)
    ensures
        file_filter_of(files, offset) is Ok <==> role_of(files.classification) is Ok && risk_of(files.minimum_risk) is Ok,
        file_filter_of(files, offset) matches Ok(filter) ==> {
            &&& role_of(files.classification) == Ok::<Option<FileClassification>, FaultFacts>(filter.classification)
            &&& risk_of(files.minimum_risk) == Ok::<Option<RiskLevel>, FaultFacts>(filter.minimum_risk)
            &&& filter.page.limit == Some(files.limit)
            &&& filter.page.offset == offset
        },
        function_filter_of(functions, offset) is Ok <==> status_of(functions.status) is Ok && role_of(functions.classification) is Ok && risk_of(
            functions.minimum_risk,
        ) is Ok,
        function_filter_of(functions, offset) matches Ok(filter) ==> {
            &&& status_of(functions.status) == Ok::<Option<FunctionChangeStatus>, FaultFacts>(filter.status)
            &&& role_of(functions.classification) == Ok::<Option<FileClassification>, FaultFacts>(filter.classification)
            &&& risk_of(functions.minimum_risk) == Ok::<Option<RiskLevel>, FaultFacts>(filter.minimum_risk)
            &&& filter.file == functions.file
            &&& filter.min_complexity_delta == functions.min_complexity_delta
            &&& filter.include_unchanged == functions.include_unchanged
            &&& filter.page.limit == Some(functions.limit)
            &&& filter.page.offset == offset
        },
{
}

/// A cursor continues where it was issued under the first schema and for the
/// same analysis, and nowhere else.
pub proof fn lemma_cursor_is_admitted(payload: PayloadFacts, analysis: Seq<char>)
    ensures
        admitted(ReadingFacts::Absent, analysis) == Ok::<Option<PayloadFacts>, FaultFacts>(None),
        admitted(ReadingFacts::Undecodable, analysis) is Err,
        admitted(ReadingFacts::Payload(payload), analysis) is Ok <==> payload.schema_version == 1 && payload.analysis == analysis,
        admitted(ReadingFacts::Payload(payload), analysis) is Ok ==> admitted(ReadingFacts::Payload(payload), analysis) == Ok::<
            Option<PayloadFacts>,
            FaultFacts,
        >(Some(payload)),
        admitted(ReadingFacts::Payload(payload), analysis) matches Err(fault) ==> fault.code == "invalid_params"@,
{
}

/// Whether what is asked for again is what was asked for.
pub open spec fn agrees<T>(requested: Option<T>, applied: Option<T>) -> bool {
    requested is None || requested == applied
}

/// A page of files continues the query of its cursor, from its offset on, where
/// what is asked for again agrees with it; without a cursor it starts the query
/// asked for.
pub proof fn lemma_files_continue(params: ParamFacts, payload: PayloadFacts, applied: FileQueryFacts, analysis: Seq<char>)
    requires
        payload.schema_version == 1,
        payload.analysis == analysis,
        payload.query == CursorQueryFacts::ListChangedFiles(applied),
    ensures
        file_query_of(params, ReadingFacts::Payload(payload), analysis) is Ok <==> agrees(params.classification, applied.classification) && agrees(
            params.minimum_risk,
            applied.minimum_risk,
        ) && (params.limit is None || applied_limit(params.limit) == applied.limit),
        file_query_of(params, ReadingFacts::Payload(payload), analysis) matches Ok((query, offset)) ==> query == applied && offset == payload.offset,
        function_query_of(params, ReadingFacts::Payload(payload), analysis) is Err,
        file_query_of(params, ReadingFacts::Absent, analysis) matches Ok((query, offset)) && offset == 0 && query.classification == params.classification
            && query.minimum_risk == params.minimum_risk && query.limit == applied_limit(params.limit),
{
}

/// A page of functions continues the query of its cursor, from its offset on,
/// where what is asked for again agrees with it; without a cursor it starts the
/// query asked for.
pub proof fn lemma_functions_continue(params: ParamFacts, payload: PayloadFacts, applied: FunctionQueryFacts, analysis: Seq<char>)
    requires
        payload.schema_version == 1,
        payload.analysis == analysis,
        payload.query == CursorQueryFacts::ListChangedFunctions(applied),
    ensures
        function_query_of(params, ReadingFacts::Payload(payload), analysis) is Ok <==> {
            &&& agrees(params.file, applied.file)
            &&& agrees(params.status, applied.status)
            &&& agrees(params.classification, applied.classification)
            &&& agrees(params.minimum_risk, applied.minimum_risk)
            &&& agrees(params.min_complexity_delta, applied.min_complexity_delta)
            &&& agrees(params.include_unchanged, Some(applied.include_unchanged))
            &&& params.limit is None || applied_limit(params.limit) == applied.limit
        },
        function_query_of(params, ReadingFacts::Payload(payload), analysis) matches Ok((query, offset)) ==> query == applied && offset == payload.offset,
        file_query_of(params, ReadingFacts::Payload(payload), analysis) is Err,
        function_query_of(params, ReadingFacts::Absent, analysis) matches Ok((query, offset)) && offset == 0 && query.file == params.file && query.status
            == params.status && query.classification == params.classification && query.minimum_risk == params.minimum_risk && query.min_complexity_delta
            == params.min_complexity_delta && query.include_unchanged == (params.include_unchanged == Some(true)) && query.limit == applied_limit(
            params.limit,
        ),
{
}

/// A page that more rows follow comes with a cursor to them; the last has none.
pub proof fn lemma_next_page_has_cursor(window: PageWindow, query: CursorQueryFacts, analysis: Seq<char>)
    ensures
        window.next_offset is None <==> next_payload(window, query, analysis) is None,
        window.next_offset matches Some(offset) ==> next_payload(window, query, analysis) == Some(
            PayloadFacts { schema_version: 1, analysis, query, offset },
        ),
{
}

/// A half byte is written as a decimal digit, or as one of the first six small
/// letters.
pub proof fn lemma_half_byte_is_written(n: int)
    ensures
        0 <= n < 10 ==> hex_char(n) as int == '0' as int + n,
        10 <= n < 16 ==> hex_char(n) as int == 'a' as int + n - 10,
{
}

proof fn lemma_records(entries: Seq<EntryFacts>)
    ensures
        cached_records(entries) == sum(entries.len() as int, |i: int| entries[i].functions),
    decreases entries.len(),
{
    let n = entries.len() as int;
    if n > 0 {
        let fewer = entries.drop_last();
        lemma_records(fewer);
        lemma_sum_same(n - 1, |i: int| entries[i].functions, |i: int| fewer[i].functions);
    }
}

/// A cache holds too much where it has over four analyses, or over two hundred
/// thousand functions in more than one.
pub proof fn lemma_when_cache_is_full(entries: Seq<EntryFacts>)
    ensures
        overfull(entries) <==> entries.len() > 4 || (entries.len() > 1 && sum(entries.len() as int, |i: int| entries[i].functions) > 200000),
{
    lemma_records(entries);
}

/// The functions of an analysis are those of its files.
pub proof fn lemma_functions_of_analysis(files: Seq<FileView>)
    ensures
        function_records(files) == sum(files.len() as int, |i: int| files[i].functions.len()),
    decreases files.len(),
{
    let n = files.len() as int;
    if n > 0 {
        let fewer = files.drop_last();
        lemma_functions_of_analysis(fewer);
        lemma_sum_same(n - 1, |i: int| files[i].functions.len(), |i: int| fewer[i].functions.len());
    }
}

/// What leaves a cache is what was used longest ago, and no more than it takes
/// to hold no longer too much.
pub proof fn lemma_oldest_leave(entries: Seq<EntryFacts>) -> (gone: int)
    ensures
        0 <= gone <= entries.len(),
        evicted(entries) == entries.skip(gone),
        !overfull(entries.skip(gone)),
        forall|k: int| 0 <= k < gone ==> overfull(#[trigger] entries.skip(k)),
    decreases entries.len(),
{
    if entries.len() > 0 && overfull(entries) {
        let rest = entries.drop_first();
        let gone = lemma_oldest_leave(rest);
        assert(rest.skip(gone) =~= entries.skip(gone + 1));
        assert forall|k: int| 0 <= k < gone + 1 implies overfull(#[trigger] entries.skip(k)) by {
            if k == 0 {
                assert(entries.skip(0) =~= entries);
            } else {
                assert(entries.skip(k) =~= rest.skip(k - 1));
            }
        }
        gone + 1
    } else {
        assert(entries.skip(0) =~= entries);
        0
    }
}

/// What is stored takes the place of what was stored under the same commits,
/// and counts as used last.
pub proof fn lemma_stored_is_used_last(entries: Seq<EntryFacts>, key: KeyFacts, result: ResultView)
    requires
        function_records(result.files) <= usize::MAX,
    ensures
        ({
            let out = stored(entries, key, result);
            &&& out.len() > 0
            &&& out.last().key == key && out.last().result == result && out.last().functions == function_records(result.files)
            &&& forall|i: int| 0 <= i < out.len() - 1 ==> (#[trigger] out[i]).key != key && entries.contains(out[i])
        }),
{
    let kept = picked(entries, other_key(key));
    let entry = EntryFacts { key, result, functions: crate::query::graph::countable(function_records(result.files)) };
    let whole = kept.push(entry);
    crate::order::lemma_picked(entries, other_key(key));
    let gone = lemma_oldest_leave(whole);
    let out = stored(entries, key, result);
    let n = whole.len() as int;
    if gone == n {
        assert(overfull(whole.skip(n - 1)));
        assert(whole.skip(n - 1).len() == 1);
    }
    assert(out.last() == whole[n - 1]);
    assert forall|i: int| 0 <= i < out.len() - 1 implies (#[trigger] out[i]).key != key && entries.contains(out[i]) by {
        assert(out[i] == whole[gone + i]);
        assert(whole[gone + i] == kept[gone + i]);
        assert(kept.contains(kept[gone + i]));
        assert(other_key(key)(kept[gone + i]));
    }
}

/// What is asked for again counts as used last; the others keep their order.
pub proof fn lemma_used_is_last(entries: Seq<EntryFacts>, at: int, i: int)
    requires
        0 <= at < entries.len(),
    ensures
        used(entries, at).len() == entries.len(),
        used(entries, at).last() == entries[at],
        0 <= i < at ==> used(entries, at)[i] == entries[i],
        at <= i < entries.len() - 1 ==> used(entries, at)[i] == entries[i + 1],
{
}

/// An analysis is found under all three of its repository and its commits.
pub proof fn lemma_cached_is_found(entries: Seq<EntryFacts>, key: KeyFacts, from: int)
    requires
        0 <= from <= entries.len(),
    ensures
        cached_from(entries, key, from) matches Some(at) ==> from <= at < entries.len() && entries[at].key.repository_root == key.repository_root
            && entries[at].key.base_commit == key.base_commit && entries[at].key.target_commit == key.target_commit,
        cached_from(entries, key, from) is None ==> forall|i: int| from <= i < entries.len() ==> (#[trigger] entries[i]).key != key,
    decreases entries.len() - from,
{
    if from < entries.len() && entries[from].key != key {
        lemma_cached_is_found(entries, key, from + 1);
    }
}

/// Six methods are offered as tools, each under its name. All of them take a
/// comparison, and one a function besides.
pub proof fn lemma_tools(method: Method)
    ensures
        offered_methods().contains(method) <==> method != Method::Analyze,
        tool_word(method) == match method {
            Method::Analyze => "analyze"@,
            Method::ChangeSummary => "get_change_summary"@,
            Method::GetImpactGraph => "get_impact_graph"@,
            Method::ListChangedFiles => "list_changed_files"@,
            Method::ListChangedFunctions => "list_changed_functions"@,
            Method::GetFunctionChange => "get_function_change"@,
            Method::GetAnalysisDiagnostics => "get_analysis_diagnostics"@,
        },
        required_arguments(method).contains(Argument::Repository),
        required_arguments(method).contains(Argument::Base),
        required_arguments(method).contains(Argument::Target),
        required_arguments(method).contains(Argument::FunctionId) <==> method == Method::GetFunctionChange,
        required_arguments(method).len() == if method == Method::GetFunctionChange {
            4nat
        } else {
            3nat
        },
{
    let all = offered_methods();
    assert(all[0] == Method::ChangeSummary && all[1] == Method::GetImpactGraph && all[2] == Method::ListChangedFiles && all[3]
        == Method::ListChangedFunctions && all[4] == Method::GetFunctionChange && all[5] == Method::GetAnalysisDiagnostics);
    let required = required_arguments(method);
    assert(required[0] == Argument::Repository && required[1] == Argument::Base && required[2] == Argument::Target);
    if method == Method::GetFunctionChange {
        assert(required[3] == Argument::FunctionId);
    }
    if all.contains(Method::Analyze) {
        let i = choose|i: int| 0 <= i < all.len() && all[i] == Method::Analyze;
        assert(i == 0 || i == 1 || i == 2 || i == 3 || i == 4 || i == 5);
    }
}

/// Only a listing takes a limit and a cursor, and only that of functions the
/// filters of functions.
pub proof fn lemma_optional_arguments(method: Method)
    ensures
        optional_arguments(method).contains(Argument::Limit) <==> method == Method::ListChangedFiles || method == Method::ListChangedFunctions,
        optional_arguments(method).contains(Argument::Cursor) <==> method == Method::ListChangedFiles || method == Method::ListChangedFunctions,
        optional_arguments(method).contains(Argument::MinimumRisk) <==> method == Method::ListChangedFiles || method == Method::ListChangedFunctions,
        optional_arguments(method).contains(Argument::Classification) <==> method == Method::ListChangedFiles || method == Method::ListChangedFunctions,
        optional_arguments(method).contains(Argument::Status) <==> method == Method::ListChangedFunctions,
        optional_arguments(method).contains(Argument::IncludeUnchanged) <==> method == Method::ListChangedFunctions,
        optional_arguments(method).contains(Argument::MinComplexityDelta) <==> method == Method::ListChangedFunctions,
        optional_arguments(method).contains(Argument::File) <==> method == Method::ListChangedFunctions || method == Method::GetAnalysisDiagnostics,
        optional_arguments(method).contains(Argument::Depth) <==> method == Method::GetImpactGraph,
        optional_arguments(method).contains(Argument::View) <==> method == Method::GetImpactGraph,
        optional_arguments(method).contains(Argument::Render) <==> method == Method::GetImpactGraph,
        optional_arguments(method).contains(Argument::Relations) <==> method == Method::GetImpactGraph,
        optional_arguments(method).contains(Argument::Direction) <==> method == Method::GetImpactGraph,
        optional_arguments(method).contains(Argument::RootFile) <==> method == Method::GetImpactGraph,
        optional_arguments(method).contains(Argument::RootFunction) <==> method == Method::GetImpactGraph,
        optional_arguments(method).contains(Argument::MaxNodes) <==> method == Method::GetImpactGraph,
        optional_arguments(method).contains(Argument::MaxEdges) <==> method == Method::GetImpactGraph,
{
    let all = optional_arguments(method);
    match method {
        Method::GetImpactGraph => {
            assert(all[0] == Argument::RootFile && all[1] == Argument::RootFunction && all[2] == Argument::Direction && all[3] == Argument::Relations
                && all[4] == Argument::Depth && all[5] == Argument::View && all[6] == Argument::MaxNodes && all[7] == Argument::MaxEdges && all[8]
                == Argument::Render);
        },
        Method::ListChangedFiles => {
            assert(all[0] == Argument::Classification && all[1] == Argument::MinimumRisk && all[2] == Argument::Limit && all[3] == Argument::Cursor);
        },
        Method::ListChangedFunctions => {
            assert(all[0] == Argument::File && all[1] == Argument::Status && all[2] == Argument::Classification && all[3] == Argument::MinimumRisk
                && all[4] == Argument::MinComplexityDelta && all[5] == Argument::IncludeUnchanged && all[6] == Argument::Limit && all[7]
                == Argument::Cursor);
        },
        Method::GetAnalysisDiagnostics => {
            assert(all[0] == Argument::File);
        },
        _ => {},
    }
}

/// An argument goes by its word.
pub proof fn lemma_argument_words(argument: Argument)
    ensures
        argument_word(argument) == match argument {
            Argument::Repository => "repository"@,
            Argument::Base => "base"@,
            Argument::Target => "target"@,
            Argument::File | Argument::RootFile => "file"@,
            Argument::RootFunction | Argument::FunctionId => "function_id"@,
            Argument::Direction => "direction"@,
            Argument::Relations => "relations"@,
            Argument::Depth => "depth"@,
            Argument::View => "view"@,
            Argument::MaxNodes => "max_nodes"@,
            Argument::MaxEdges => "max_edges"@,
            Argument::Render => "render"@,
            Argument::Status => "status"@,
            Argument::Classification => "classification"@,
            Argument::MinimumRisk => "minimum_risk"@,
            Argument::MinComplexityDelta => "min_complexity_delta"@,
            Argument::IncludeUnchanged => "include_unchanged"@,
            Argument::Limit => "limit"@,
            Argument::Cursor => "cursor"@,
        },
{
}

/// A request for a graph is taken with what it names, its depth and its limits
/// kept between their bounds.
pub proof fn lemma_graph_request(result: ResultView, params: GraphParamFacts)
    ensures
        request_of(result, params) matches Ok(request) ==> {
            &&& request.root == params.file
            &&& request.function_root == params.function_id
            &&& 1 <= request.depth <= 3
            &&& params.depth matches Some(depth) ==> (1 <= depth <= 3 ==> request.depth == depth)
            &&& 3 <= request.limits.max_nodes <= 100
            &&& 3 <= request.limits.max_edges <= 200
            &&& params.max_nodes matches Some(n) ==> (3 <= n <= 100 ==> request.limits.max_nodes == n)
            &&& params.max_edges matches Some(n) ==> (3 <= n <= 200 ==> request.limits.max_edges == n)
            &&& params.max_nodes is None ==> request.limits.max_nodes == 30
            &&& params.max_edges is None ==> request.limits.max_edges == 60
            &&& params.direction matches Some(word) ==> crate::graph::direction_named(word) == Some(request.direction)
            &&& params.direction is None ==> request.direction == Direction::Both
            &&& params.view matches Some(word) ==> crate::graph::view_named(word) == Some(request.view)
            &&& params.view is None ==> request.view == crate::graph::View::Delta
        },
        params.direction matches Some(word) ==> (crate::graph::direction_named(word) is None ==> request_of(result, params) is Err),
        params.view matches Some(word) ==> (crate::graph::view_named(word) is None ==> request_of(result, params) is Err),
{
}

} // verus!
