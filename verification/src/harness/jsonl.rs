//! Decide what a line of the newline-delimited JSON protocol is answered with.
//!
//! Every successful response says which analysis answered, what was actually
//! asked after defaults, and the answer itself. A caller that paged a list gets
//! a cursor back and hands it over unchanged to continue.

use vstd::prelude::*;

use crate::analysis::FunctionChangeStatus;
use crate::collections::{arranged, copy_option};
use crate::harness::cursor::{
    continuation, file_query_of, function_query_of, invalid, invalid_params, next_payload, payload_facts, CursorPayload, CursorQuery,
    CursorQueryFacts, CursorReading, FaultFacts, FileQuery, FileQueryFacts, FunctionQuery, FunctionQueryFacts, ProjectionError, WireParams,
};
use crate::harness::{HarnessErrorCode, HarnessOutcome};
use crate::imports::config::{json_content, json_member, json_text, member, Json};
use crate::imports::ImportIndex;
use crate::order::by_rank;
use crate::query::classify::{classification_named, FileClassification};
use crate::query::detail::{detail_at, get_function_change, offered, place_of, FunctionDetail, UnknownFunction};
use crate::query::files::{file_row_order, file_rows, list_changed_files, selected_files, FileFilter, FileList};
use crate::query::functions::{index_view, list_changed_functions, row_order, selected, FilterFacts, FunctionFilter, FunctionList};
use crate::query::graph::{rest_of, rest_text};
use crate::query::page::{applied_limit, window, window_facts, Page};
use crate::query::risk::{level_named, RiskLevel};
use crate::query::rows::function_rows;
use crate::result::AnalysisResult;
use crate::text::{decimal, interposed, join_all, number_text, same_text, text_option, texts};

verus! {

/// Version of the request and response transport.
pub const PROTOCOL_VERSION: u32 = 2;

/// The question a request is asking about a comparison.
#[derive(Debug, Clone, Copy, PartialEq, Eq, Structural)]
pub enum Method {
    /// The complete analysis, exactly as the command line emits it.
    Analyze,
    ChangeSummary,
    ListChangedFiles,
    ListChangedFunctions,
    GetFunctionChange,
    GetAnalysisDiagnostics,
    /// What the comparison reaches. It is asked for as a tool or on the command
    /// line, not by a line of this protocol.
    GetImpactGraph,
}

/// The method that a line names; one that names none asks for the complete
/// analysis.
pub open spec fn method_named(name: Option<Seq<char>>) -> Option<Method> {
    match name {
        None => Some(Method::Analyze),
        Some(name) => if name == "analyze"@ {
            Some(Method::Analyze)
        } else if name == "get_change_summary"@ {
            Some(Method::ChangeSummary)
        } else if name == "list_changed_files"@ {
            Some(Method::ListChangedFiles)
        } else if name == "list_changed_functions"@ {
            Some(Method::ListChangedFunctions)
        } else if name == "get_function_change"@ {
            Some(Method::GetFunctionChange)
        } else if name == "get_analysis_diagnostics"@ {
            Some(Method::GetAnalysisDiagnostics)
        } else {
            None
        },
    }
}

/// The sentence for a name that no method has.
pub open spec fn unknown_method_text(name: Seq<char>) -> Seq<char> {
    "unknown method `"@ + name
        + "`; expected analyze, get_change_summary, list_changed_files, list_changed_functions, get_function_change, or get_analysis_diagnostics"@
}

/// Whether a question needs the revision's import graph.
pub open spec fn needs_imports(method: Method) -> bool {
    match method {
        Method::ChangeSummary | Method::ListChangedFiles | Method::ListChangedFunctions | Method::GetFunctionChange => true,
        _ => false,
    }
}

/// Whether a question is answered a page at a time.
pub open spec fn is_paginated(method: Method) -> bool {
    method == Method::ListChangedFiles || method == Method::ListChangedFunctions
}

impl Method {
    /// Whether answering this question needs the revision's import graph.
    #[must_use]
    pub fn needs_import_graph(self) -> (r: bool)
        ensures
            r == needs_imports(self),
    {
        match self {
            Method::ChangeSummary | Method::ListChangedFiles | Method::ListChangedFunctions | Method::GetFunctionChange => true,
            _ => false,
        }
    }

    /// Whether this question is answered a page at a time.
    #[must_use]
    pub fn paginated(self) -> (r: bool)
        ensures
            r == is_paginated(self),
    {
        self == Method::ListChangedFiles || self == Method::ListChangedFunctions
    }

    /// A request without a method asks for the complete analysis.
    pub fn parse(value: Option<&str>) -> (r: Result<Method, String>)
        ensures
            match method_named(crate::query::files::borrowed_text(value)) {
                Some(method) => r is Ok && r->Ok_0 == method,
                None => value is Some && r is Err && r->Err_0@ == unknown_method_text(value->0@),
            },
    {
        let Some(name) = value else {
            return Ok(Method::Analyze);
        };
        if same_text(name, "analyze") {
            Ok(Method::Analyze)
        } else if same_text(name, "get_change_summary") {
            Ok(Method::ChangeSummary)
        } else if same_text(name, "list_changed_files") {
            Ok(Method::ListChangedFiles)
        } else if same_text(name, "list_changed_functions") {
            Ok(Method::ListChangedFunctions)
        } else if same_text(name, "get_function_change") {
            Ok(Method::GetFunctionChange)
        } else if same_text(name, "get_analysis_diagnostics") {
            Ok(Method::GetAnalysisDiagnostics)
        } else {
            let mut message = "unknown method `".to_owned();
            message.append(name);
            message.append(
                "`; expected analyze, get_change_summary, list_changed_files, list_changed_functions, get_function_change, or get_analysis_diagnostics",
            );
            Err(message)
        }
    }
}

/// A line's content without the newline that ends it and a carriage return
/// before that.
pub open spec fn trimmed_line(line: Seq<u8>) -> Seq<u8> {
    let unended = if line.len() > 0 && line.last() == 10u8 {
        line.drop_last()
    } else {
        line
    };
    if unended.len() > 0 && unended.last() == 13u8 {
        unended.drop_last()
    } else {
        unended
    }
}

/// Take the line ending off a line.
pub fn trim_line_ending(line: &mut Vec<u8>)
    ensures
        final(line)@ == trimmed_line(old(line)@),
{
    if line.len() > 0 && line[line.len() - 1] == 10 {
        let _ = line.pop();
    }
    if line.len() > 0 && line[line.len() - 1] == 13 {
        let _ = line.pop();
    }
}

/// One decoded request line.
#[derive(Debug, PartialEq, Eq)]
pub struct WireRequest {
    pub protocol_version: u32,
    pub id: String,
    pub repository: String,
    pub base: String,
    pub target: String,
    /// The question being asked. Absent means the complete analysis.
    pub method: Option<String>,
    pub params: Option<WireParams>,
}

/// What bytes hold as JSON, unless they are not JSON.
pub uninterp spec fn json_of_bytes(bytes: Seq<u8>) -> Option<Json>;

/// `serde_json::from_slice` reads one JSON value out of bytes, or fails. What
/// it reads depends on the bytes alone.
#[verifier::external_body]
fn parse_json_bytes(bytes: &[u8]) -> (r: Option<serde_json::Value>)
    ensures
        match r {
            Some(value) => json_of_bytes(bytes@) == Some(json_content(value)),
            None => json_of_bytes(bytes@) is None,
        },
{
    serde_json::from_slice::<serde_json::Value>(bytes).ok()
}

/// The identifier that a JSON value carries, if it is a text.
pub open spec fn id_in(value: Json) -> Option<Seq<char>> {
    match member(value, "id"@) {
        Some(Json::Text(id)) => Some(id),
        _ => None,
    }
}

/// The identifier in a parsed value, if it is a text.
pub fn id_of(value: &serde_json::Value) -> (r: Option<String>)
    ensures
        text_option(r) == id_in(json_content(*value)),
{
    match json_member(value, "id") {
        Some(id) => match json_text(id) {
            Some(id) => Some(id.to_owned()),
            None => None,
        },
        None => None,
    }
}

/// The identifier of a line that is no request, as far as one can be read.
#[must_use]
pub fn request_id(line: &[u8]) -> (r: Option<String>)
    ensures
        text_option(r) == (match json_of_bytes(line@) {
            Some(value) => id_in(value),
            None => None,
        }),
{
    match parse_json_bytes(line) {
        Some(value) => id_of(&value),
        None => None,
    }
}

/// The failure of a line that is no request.
pub fn malformed(error: &str) -> (r: ProjectionError)
    ensures
        r@ == (FaultFacts { code: "malformed_request"@, message: "invalid request: "@ + error@ }),
{
    ProjectionError { code: "malformed_request", message: crate::text::join2("invalid request: ", error) }
}

/// The method of a request, or why it is refused: of another version, or with a
/// name that no method has.
pub open spec fn accepted(version: u32, method: Option<Seq<char>>) -> Result<Method, FaultFacts> {
    if version != PROTOCOL_VERSION {
        Err(
            FaultFacts {
                code: "unsupported_protocol_version"@,
                message: "unsupported protocol version "@ + decimal(version as nat) + "; expected "@ + decimal(PROTOCOL_VERSION as nat),
            },
        )
    } else {
        match method_named(method) {
            Some(method) => Ok(method),
            None => Err(FaultFacts { code: "unknown_method"@, message: unknown_method_text(method->0) }),
        }
    }
}

/// The question that a request asks, once it is known to be of this protocol.
pub fn accept(request: &WireRequest) -> (r: Result<Method, ProjectionError>)
    ensures
        match accepted(request.protocol_version, text_option(request.method)) {
            Ok(method) => r is Ok && r->Ok_0 == method,
            Err(fault) => r is Err && r->Err_0@ == fault,
        },
{
    if request.protocol_version != PROTOCOL_VERSION {
        let mut message = "unsupported protocol version ".to_owned();
        message.append(number_text(request.protocol_version as u64).as_str());
        message.append("; expected ");
        message.append(number_text(PROTOCOL_VERSION as u64).as_str());
        return Err(ProjectionError { code: "unsupported_protocol_version", message });
    }
    let name = match &request.method {
        Some(name) => Some(name.as_str()),
        None => None,
    };
    match Method::parse(name) {
        Ok(method) => Ok(method),
        Err(message) => Err(ProjectionError { code: "unknown_method", message }),
    }
}

/// What to do once the analysis of a request is there.
pub enum Step {
    /// Answer with a failure.
    Reject(ProjectionError),
    /// Build the import graph of the target revision, which only the questions
    /// that use it pay for.
    LoadImports,
    /// Answer from the analysis.
    Answer,
}

/// What to do once the analysis of a request is there.
pub fn after_analysis(method: Method, outcome: &HarnessOutcome) -> (r: Step)
    ensures
        match *outcome {
            HarnessOutcome::Error(error) => match r {
                Step::Reject(fault) => fault@ == (FaultFacts { code: "analysis_failed"@, message: error.message@ }),
                _ => false,
            },
            HarnessOutcome::Success(_) => if needs_imports(method) {
                r is LoadImports
            } else {
                r is Answer
            },
        },
{
    match outcome {
        HarnessOutcome::Error(error) => {
            let code = match error.code {
                HarnessErrorCode::AnalysisFailed => "analysis_failed",
            };
            Step::Reject(ProjectionError { code, message: error.message.clone() })
        },
        HarnessOutcome::Success(_) => if method.needs_import_graph() {
            Step::LoadImports
        } else {
            Step::Answer
        },
    }
}

/// The failure of a cursor that the question cannot use, if the request has
/// one.
pub fn check_cursor(method: Method, params: &WireParams) -> (r: Option<ProjectionError>)
    ensures
        match r {
            Some(fault) => params@.cursor is Some && !is_paginated(method) && fault@ == invalid(
                "`cursor` is only accepted by list_changed_files and list_changed_functions"@,
            ),
            None => params@.cursor is None || is_paginated(method),
        },
{
    if params.cursor.is_some() && !method.paginated() {
        Some(invalid_params("`cursor` is only accepted by list_changed_files and list_changed_functions".to_owned()))
    } else {
        None
    }
}

/// The value that a parameter names, or the sentence that refuses it.
pub open spec fn enumerated<T>(value: Option<Seq<char>>, named: spec_fn(Seq<char>) -> Option<T>, field: Seq<char>, words: Seq<char>) -> Result<
    Option<T>,
    FaultFacts,
> {
    match value {
        None => Ok(None),
        Some(value) => match named(value) {
            Some(found) => Ok(Some(found)),
            None => Err(invalid("`"@ + field + "` must be one of "@ + words + "; received `"@ + value + "`"@)),
        },
    }
}

pub(crate) fn parse_enum<T, F: Fn(&str) -> Option<T>>(
    value: &Option<String>,
    parse: F,
    field: &str,
    words: &str,
    Ghost(named): Ghost<spec_fn(Seq<char>) -> Option<T>>,
) -> (r: Result<Option<T>, ProjectionError>)
    requires
        forall|s: &str| #[trigger] parse.requires((s,)),
        forall|s: &str, out: Option<T>| #[trigger] parse.ensures((s,), out) ==> out == named(s@),
    ensures
        match r {
            Ok(found) => enumerated(text_option(*value), named, field@, words@) == Ok::<Option<T>, FaultFacts>(found),
            Err(error) => enumerated(text_option(*value), named, field@, words@) == Err::<Option<T>, FaultFacts>(error@),
        },
{
    let Some(value) = value else {
        return Ok(None);
    };
    match parse(value.as_str()) {
        Some(found) => Ok(Some(found)),
        None => {
            let mut message = "`".to_owned();
            message.append(field);
            message.append("` must be one of ");
            message.append(words);
            message.append("; received `");
            message.append(value.as_str());
            message.append("`");
            Err(invalid_params(message))
        },
    }
}

/// The function status of a name.
pub open spec fn status_named(name: Seq<char>) -> Option<FunctionChangeStatus> {
    if name == "added"@ {
        Some(FunctionChangeStatus::Added)
    } else if name == "removed"@ {
        Some(FunctionChangeStatus::Removed)
    } else if name == "modified"@ {
        Some(FunctionChangeStatus::Modified)
    } else if name == "unchanged"@ {
        Some(FunctionChangeStatus::Unchanged)
    } else {
        None
    }
}

/// The function status of a name.
#[must_use]
pub fn parse_status(value: &str) -> (r: Option<FunctionChangeStatus>)
    ensures
        r == status_named(value@),
{
    if same_text(value, "added") {
        Some(FunctionChangeStatus::Added)
    } else if same_text(value, "removed") {
        Some(FunctionChangeStatus::Removed)
    } else if same_text(value, "modified") {
        Some(FunctionChangeStatus::Modified)
    } else if same_text(value, "unchanged") {
        Some(FunctionChangeStatus::Unchanged)
    } else {
        None
    }
}

/// The role that a parameter names.
pub open spec fn role_of(value: Option<Seq<char>>) -> Result<Option<FileClassification>, FaultFacts> {
    enumerated(
        value,
        |s: Seq<char>| classification_named(s),
        "classification"@,
        "lockfile, vendored, generated, test, config, docs, source"@,
    )
}

/// The risk level that a parameter names.
pub open spec fn risk_of(value: Option<Seq<char>>) -> Result<Option<RiskLevel>, FaultFacts> {
    enumerated(value, |s: Seq<char>| level_named(s), "minimum_risk"@, "low, medium, high"@)
}

/// The function status that a parameter names.
pub open spec fn status_of(value: Option<Seq<char>>) -> Result<Option<FunctionChangeStatus>, FaultFacts> {
    enumerated(value, |s: Seq<char>| status_named(s), "status"@, "added, removed, modified, unchanged"@)
}

fn parse_role(value: &Option<String>) -> (r: Result<Option<FileClassification>, ProjectionError>)
    ensures
        match r {
            Ok(found) => role_of(text_option(*value)) == Ok::<Option<FileClassification>, FaultFacts>(found),
            Err(error) => role_of(text_option(*value)) == Err::<Option<FileClassification>, FaultFacts>(error@),
        },
{
    let parse = |s: &str| -> (out: Option<FileClassification>)
        ensures
            out == classification_named(s@),
    {
        FileClassification::parse(s)
    };
    parse_enum(
        value,
        parse,
        "classification",
        "lockfile, vendored, generated, test, config, docs, source",
        Ghost(|s: Seq<char>| classification_named(s)),
    )
}

fn parse_risk(value: &Option<String>) -> (r: Result<Option<RiskLevel>, ProjectionError>)
    ensures
        match r {
            Ok(found) => risk_of(text_option(*value)) == Ok::<Option<RiskLevel>, FaultFacts>(found),
            Err(error) => risk_of(text_option(*value)) == Err::<Option<RiskLevel>, FaultFacts>(error@),
        },
{
    let parse = |s: &str| -> (out: Option<RiskLevel>)
        ensures
            out == level_named(s@),
    {
        RiskLevel::parse(s)
    };
    parse_enum(value, parse, "minimum_risk", "low, medium, high", Ghost(|s: Seq<char>| level_named(s)))
}

fn parse_change(value: &Option<String>) -> (r: Result<Option<FunctionChangeStatus>, ProjectionError>)
    ensures
        match r {
            Ok(found) => status_of(text_option(*value)) == Ok::<Option<FunctionChangeStatus>, FaultFacts>(found),
            Err(error) => status_of(text_option(*value)) == Err::<Option<FunctionChangeStatus>, FaultFacts>(error@),
        },
{
    let parse = |s: &str| -> (out: Option<FunctionChangeStatus>)
        ensures
            out == status_named(s@),
    {
        parse_status(s)
    };
    parse_enum(value, parse, "status", "added, removed, modified, unchanged", Ghost(|s: Seq<char>| status_named(s)))
}

/// The filter of a list of files, or why its parameters are refused: of several
/// faults, that of the classification comes first.
pub open spec fn file_filter_of(query: FileQueryFacts, offset: usize) -> Result<FileFilter, FaultFacts> {
    match role_of(query.classification) {
        Err(fault) => Err(fault),
        Ok(classification) => match risk_of(query.minimum_risk) {
            Err(fault) => Err(fault),
            Ok(minimum_risk) => Ok(FileFilter { classification, minimum_risk, page: Page { limit: Some(query.limit), offset } }),
        },
    }
}

/// The filter of a list of functions, or why its parameters are refused.
pub open spec fn function_filter_of(query: FunctionQueryFacts, offset: usize) -> Result<FilterFacts, FaultFacts> {
    match status_of(query.status) {
        Err(fault) => Err(fault),
        Ok(status) => match role_of(query.classification) {
            Err(fault) => Err(fault),
            Ok(classification) => match risk_of(query.minimum_risk) {
                Err(fault) => Err(fault),
                Ok(minimum_risk) => Ok(
                    FilterFacts {
                        file: query.file,
                        status,
                        classification,
                        minimum_risk,
                        min_complexity_delta: query.min_complexity_delta,
                        include_unchanged: query.include_unchanged,
                        page: Page { limit: Some(query.limit), offset },
                    },
                ),
            },
        },
    }
}

/// One page of changed files, with what was applied and what continues it.
pub struct FileAnswer<'a> {
    pub applied: FileQuery,
    pub listed: FileList<'a>,
    /// What the next page's cursor carries: nothing exactly when this page is
    /// the last one.
    pub next: Option<CursorPayload>,
}

/// One page of changed functions, with what was applied and what continues it.
pub struct FunctionAnswer<'a> {
    pub applied: FunctionQuery,
    pub listed: FunctionList<'a>,
    /// What the next page's cursor carries: nothing exactly when this page is
    /// the last one.
    pub next: Option<CursorPayload>,
}

/// One page of changed files, ranked.
pub fn file_list<'a>(result: &'a AnalysisResult, params: &WireParams, reading: CursorReading, index: Option<&ImportIndex>, analysis: &str) -> (r: Result<
    FileAnswer<'a>,
    ProjectionError,
>)
    ensures
        match file_query_of(params@, reading@, analysis@) {
            Err(fault) => r is Err && r->Err_0@ == fault,
            Ok((query, offset)) => match file_filter_of(query, offset) {
                Err(fault) => r is Err && r->Err_0@ == fault,
                Ok(filter) => {
                    let all = arranged(selected_files(filter, result@.files, index_view(index)), by_rank(file_row_order()));
                    &&& r is Ok
                    &&& r->Ok_0.applied@ == query
                    &&& file_rows(r->Ok_0.listed.files@) == window(all, offset as int, applied_limit(Some(query.limit)))
                    &&& r->Ok_0.listed.page == window_facts(all.len(), filter.page)
                    &&& payload_facts(r->Ok_0.next) == next_payload(
                        window_facts(all.len(), filter.page),
                        CursorQueryFacts::ListChangedFiles(query),
                        analysis@,
                    )
                },
            },
        },
{
    let (applied, offset) = match params.file_query(reading, analysis) {
        Ok(query) => query,
        Err(error) => {
            return Err(error);
        },
    };
    let classification = match parse_role(&applied.classification) {
        Ok(found) => found,
        Err(error) => {
            return Err(error);
        },
    };
    let minimum_risk = match parse_risk(&applied.minimum_risk) {
        Ok(found) => found,
        Err(error) => {
            return Err(error);
        },
    };
    let filter = FileFilter { classification, minimum_risk, page: Page { limit: Some(applied.limit), offset } };
    let listed = list_changed_files(result, &filter, index);
    let next = continuation(&listed.page, CursorQuery::ListChangedFiles(applied.copy()), analysis);
    Ok(FileAnswer { applied, listed, next })
}

/// One page of changed functions, ranked.
pub fn function_list<'a>(
    result: &'a AnalysisResult,
    params: &WireParams,
    reading: CursorReading,
    index: Option<&ImportIndex>,
    analysis: &str,
) -> (r: Result<FunctionAnswer<'a>, ProjectionError>)
    ensures
        match function_query_of(params@, reading@, analysis@) {
            Err(fault) => r is Err && r->Err_0@ == fault,
            Ok((query, offset)) => match function_filter_of(query, offset) {
                Err(fault) => r is Err && r->Err_0@ == fault,
                Ok(filter) => {
                    let all = arranged(selected(filter, result@.files, index_view(index)), by_rank(row_order()));
                    &&& r is Ok
                    &&& r->Ok_0.applied@ == query
                    &&& function_rows(r->Ok_0.listed.functions@) == window(all, offset as int, applied_limit(Some(query.limit)))
                    &&& r->Ok_0.listed.page == window_facts(all.len(), filter.page)
                    &&& payload_facts(r->Ok_0.next) == next_payload(
                        window_facts(all.len(), filter.page),
                        CursorQueryFacts::ListChangedFunctions(query),
                        analysis@,
                    )
                },
            },
        },
{
    let (applied, offset) = match params.function_query(reading, analysis) {
        Ok(query) => query,
        Err(error) => {
            return Err(error);
        },
    };
    let status = match parse_change(&applied.status) {
        Ok(found) => found,
        Err(error) => {
            return Err(error);
        },
    };
    let classification = match parse_role(&applied.classification) {
        Ok(found) => found,
        Err(error) => {
            return Err(error);
        },
    };
    let minimum_risk = match parse_risk(&applied.minimum_risk) {
        Ok(found) => found,
        Err(error) => {
            return Err(error);
        },
    };
    let filter = FunctionFilter {
        file: copy_option(&applied.file),
        status,
        classification,
        minimum_risk,
        min_complexity_delta: applied.min_complexity_delta,
        include_unchanged: applied.include_unchanged,
        page: Page { limit: Some(applied.limit), offset },
    };
    let listed = list_changed_functions(result, &filter, index);
    let next = continuation(&listed.page, CursorQuery::ListChangedFunctions(applied.copy()), analysis);
    Ok(FunctionAnswer { applied, listed, next })
}

/// The sentence for a function that an analysis does not contain.
pub open spec fn unknown_text(id: Seq<char>, known: Seq<Seq<char>>) -> Seq<char> {
    if known.len() == 0 {
        "no function `"@ + id + "` in this analysis, which contains no functions"@
    } else {
        "no function `"@ + id + "` in this analysis; it contains "@ + interposed(crate::query::detail::first_few(known), ", "@) + rest_text(
            (known.len() - crate::query::detail::first_few(known).len()) as nat,
        )
    }
}

/// Name the identities the analysis does contain, so a caller that guessed can
/// correct itself in one step instead of guessing again.
#[must_use]
pub fn describe_unknown(unknown: &UnknownFunction) -> (r: String)
    ensures
        r@ == unknown_text(unknown.function_id@, texts(unknown.known_function_ids@)),
{
    let ghost known = texts(unknown.known_function_ids@);
    let mut out = "no function `".to_owned();
    out.append(unknown.function_id.as_str());
    if unknown.known_function_ids.len() == 0 {
        assert(known.len() == 0);
        out.append("` in this analysis, which contains no functions");
        return out;
    }
    out.append("` in this analysis; it contains ");
    let mut shown = crate::collections::copy_texts(&unknown.known_function_ids);
    shown.truncate(crate::query::detail::SUGGESTIONS);
    assert(texts(shown@) =~= crate::query::detail::first_few(known));
    out.append(join_all(&shown, ", ").as_str());
    let remainder: usize = unknown.known_function_ids.len() - shown.len();
    out.append(rest_of(remainder).as_str());
    out
}

/// One function in full, or why it cannot be given: it was not named, or the
/// analysis does not contain it.
pub fn function_detail<'a>(result: &'a AnalysisResult, params: &WireParams, index: Option<&ImportIndex>) -> (r: Result<
    FunctionDetail<'a>,
    ProjectionError,
>)
    ensures
        match params@.function_id {
            None => r is Err && r->Err_0@ == invalid("`function_id` is required"@),
            Some(id) => match place_of(result@.files, id, 0) {
                Some((file, at)) => r is Ok && r->Ok_0@ == detail_at(result@.files, file, at, index_view(index)),
                None => r is Err && r->Err_0@ == (FaultFacts {
                    code: "unknown_function"@,
                    message: unknown_text(id, offered(crate::query::detail::all_ids(result@.files), id)),
                }),
            },
        },
{
    let Some(id) = &params.function_id else {
        return Err(invalid_params("`function_id` is required".to_owned()));
    };
    match get_function_change(result, id.as_str(), index) {
        Ok(detail) => Ok(detail),
        Err(unknown) => Err(ProjectionError { code: "unknown_function", message: describe_unknown(&unknown) }),
    }
}

} // verus!
