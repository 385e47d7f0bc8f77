use std::sync::Arc;

use diffscope::analysis::{FunctionChangeStatus, FunctionChurn, MatchConfidence};
use diffscope::graph::assembly::Revisions;
use diffscope::harness::cursor::{
    continuation, hex_decode, hex_encode, CursorPayload, CursorQuery, CursorReading, FileQuery, ProjectionError, WireParams,
};
use diffscope::harness::impact::{graph_request, impact_graph, GraphParams};
use diffscope::harness::jsonl::{
    accept, after_analysis, check_cursor, describe_unknown, file_list, function_detail, function_list, id_of, malformed, parse_status, request_id,
    trim_line_ending, Method, Step, WireRequest, PROTOCOL_VERSION,
};
use diffscope::harness::tools::{find_tool, required_text, tool_specs, Argument, Given};
use diffscope::harness::{analysis_id, CacheKey, HarnessOutcome, HarnessRequest, HarnessSession, MAX_CACHED_ANALYSES};
use diffscope::imports::{ImportIndex, SymbolIndex};
use diffscope::languages::{FunctionKind, SourceRange};
use diffscope::metrics::FunctionMetrics;
use diffscope::query::graph::render_graph_text;
use diffscope::query::{function_id, get_function_change, UnknownFunction};
use diffscope::result::{AnalysisResult, AnalysisSummary, FileResult, FunctionResult, RevisionResult, SCHEMA_VERSION};
use diffscope::{DiffScopeError, FileStatus};

fn range(line: u32) -> SourceRange {
    SourceRange { start_line: line, start_column: 0, end_line: line + 4, end_column: 1 }
}

fn metrics(complexity: u32) -> FunctionMetrics {
    FunctionMetrics { physical_loc: 5, source_loc: 5, cyclomatic_complexity: complexity, cognitive_complexity: complexity }
}

fn function(id: &str, name: &str, line: u32) -> FunctionResult {
    FunctionResult {
        id: id.to_owned(),
        status: FunctionChangeStatus::Modified,
        kind: FunctionKind::Function,
        qualified_name: name.to_owned(),
        base_range: Some(range(line)),
        target_range: Some(range(line)),
        metrics_before: Some(metrics(1)),
        metrics_after: Some(metrics(2)),
        calls_before: Vec::new(),
        calls_after: Vec::new(),
        churn: FunctionChurn { lines_removed: 0, lines_added: 1, changed_hunks: 1 },
        match_confidence: MatchConfidence::Exact,
        diagnostics: Vec::new(),
    }
}

fn file(path: &str, functions: Vec<FunctionResult>) -> FileResult {
    FileResult {
        base_path: Some(path.to_owned()),
        target_path: Some(path.to_owned()),
        status: FileStatus::Modified,
        language: None,
        is_binary: false,
        added_lines: 1,
        removed_lines: 0,
        hunks: Vec::new(),
        functions,
        exports_added: Vec::new(),
        exports_removed: Vec::new(),
        diagnostics: Vec::new(),
    }
}

fn analysis() -> AnalysisResult {
    AnalysisResult {
        schema_version: SCHEMA_VERSION,
        tool_version: "test".to_owned(),
        repository: "repository".to_owned(),
        base: RevisionResult { id: "aaa".to_owned(), display_name: "main".to_owned() },
        target: RevisionResult { id: "bbb".to_owned(), display_name: "topic".to_owned() },
        summary: AnalysisSummary::default(),
        files: vec![
            file("src/a.ts", vec![function("function-1", "first", 1), function("function-2", "second", 10)]),
            file("src/b.ts", vec![function("function-3", "third", 1)]),
        ],
        diagnostics: Vec::new(),
    }
}

fn params() -> WireParams {
    WireParams {
        file: None,
        function_id: None,
        status: None,
        classification: None,
        minimum_risk: None,
        min_complexity_delta: None,
        include_unchanged: None,
        limit: None,
        cursor: None,
    }
}

fn request(version: u32, method: Option<&str>) -> WireRequest {
    WireRequest {
        protocol_version: version,
        id: "1".to_owned(),
        repository: ".".to_owned(),
        base: "main".to_owned(),
        target: "topic".to_owned(),
        method: method.map(str::to_owned),
        params: None,
    }
}

fn fault<T>(outcome: Result<T, ProjectionError>) -> (&'static str, String) {
    match outcome {
        Ok(_) => panic!("the question is refused"),
        Err(error) => (error.code, error.message),
    }
}

#[test]
fn a_cursor_text_stands_for_its_bytes_and_for_no_others() {
    assert_eq!(hex_encode(&vec![0, 15, 16, 255]), "000f10ff");
    assert_eq!(hex_decode("000f10ff"), Some(vec![0, 15, 16, 255]));
    assert_eq!(hex_decode(""), Some(Vec::new()));
    // An odd digit, a capital and a letter that is no digit are refused.
    assert_eq!(hex_decode("0"), None);
    assert_eq!(hex_decode("0F"), None);
    assert_eq!(hex_decode("0g"), None);
    let bytes: Vec<u8> = (0..=255).collect();
    assert_eq!(hex_decode(&hex_encode(&bytes)), Some(bytes));
}

#[test]
fn a_cursor_continues_the_query_that_issued_it() {
    let result = analysis();
    let id = analysis_id("aaa", "bbb");
    assert_eq!(id, "aaa..bbb");
    let mut first = params();
    first.limit = Some(2);
    let answer = function_list(&result, &first, CursorReading::Absent, None, &id).expect("the first page");
    assert_eq!(answer.listed.functions.len(), 2);
    assert_eq!(answer.listed.page.total, 3);
    let next = answer.next.expect("one function is left");
    assert_eq!(next.offset, 2);
    assert_eq!(next.schema_version, SCHEMA_VERSION);

    // The continued page repeats nothing and says nothing of the limit.
    let rest = function_list(&result, &params(), CursorReading::Payload(next), None, &id).expect("the second page");
    assert_eq!(rest.applied.limit, 2);
    assert_eq!(rest.listed.functions.len(), 1);
    assert!(rest.next.is_none());
    assert!(answer.listed.functions.iter().all(|row| row.function_id != rest.listed.functions[0].function_id));
}

#[test]
fn a_cursor_is_bound_to_its_analysis_its_schema_and_its_question() {
    let result = analysis();
    let payload = |schema_version: u32, analysis: &str| {
        CursorReading::Payload(CursorPayload {
            schema_version,
            analysis: analysis.to_owned(),
            query: CursorQuery::ListChangedFiles(FileQuery { classification: None, minimum_risk: None, limit: 1 }),
            offset: 1,
        })
    };
    let answer = file_list(&result, &params(), payload(SCHEMA_VERSION, "aaa..bbb"), None, "aaa..bbb").expect("the cursor fits");
    assert_eq!(answer.listed.files.len(), 1);
    assert_eq!(answer.applied.limit, 1);

    let (code, message) = fault(file_list(&result, &params(), payload(SCHEMA_VERSION, "aaa..ccc"), None, "aaa..bbb"));
    assert_eq!(code, "invalid_params");
    assert_eq!(message, "`cursor` was issued for analysis `aaa..ccc`, not `aaa..bbb`");
    let (_, message) = fault(file_list(&result, &params(), payload(SCHEMA_VERSION + 1, "aaa..bbb"), None, "aaa..bbb"));
    assert_eq!(
        message,
        format!("`cursor` was issued under schema version {}; this server answers in version {SCHEMA_VERSION}", SCHEMA_VERSION + 1)
    );
    let (_, message) = fault(file_list(&result, &params(), CursorReading::Undecodable, None, "aaa..bbb"));
    assert_eq!(message, "`cursor` is not a cursor this server issued");
    let (_, message) = fault(function_list(&result, &params(), payload(SCHEMA_VERSION, "aaa..bbb"), None, "aaa..bbb"));
    assert_eq!(message, "`cursor` was issued for another method; list_changed_functions cannot continue it");
    let mut other = params();
    other.limit = Some(7);
    let (_, message) = fault(file_list(&result, &other, payload(SCHEMA_VERSION, "aaa..bbb"), None, "aaa..bbb"));
    assert!(message.starts_with("`limit` does not match the query `cursor` continues"), "{message}");
}

#[test]
fn the_last_page_issues_no_cursor() {
    let result = analysis();
    let answer = file_list(&result, &params(), CursorReading::Absent, None, "aaa..bbb").expect("one page holds all");
    assert!(answer.next.is_none());
    let query = CursorQuery::ListChangedFiles(FileQuery { classification: None, minimum_risk: None, limit: 25 });
    assert!(continuation(&answer.listed.page, query, "aaa..bbb").is_none());
}

#[test]
fn a_parameter_outside_its_words_is_refused_by_name() {
    let result = analysis();
    let mut asked = params();
    asked.classification = Some("everything".to_owned());
    let (code, message) = fault(file_list(&result, &asked, CursorReading::Absent, None, "aaa..bbb"));
    assert_eq!(code, "invalid_params");
    assert_eq!(
        message,
        "`classification` must be one of lockfile, vendored, generated, test, config, docs, source; received `everything`"
    );
    let mut asked = params();
    asked.minimum_risk = Some("huge".to_owned());
    let (_, message) = fault(file_list(&result, &asked, CursorReading::Absent, None, "aaa..bbb"));
    assert_eq!(message, "`minimum_risk` must be one of low, medium, high; received `huge`");
    let mut asked = params();
    asked.status = Some("moved".to_owned());
    let (_, message) = fault(function_list(&result, &asked, CursorReading::Absent, None, "aaa..bbb"));
    assert_eq!(message, "`status` must be one of added, removed, modified, unchanged; received `moved`");
    assert_eq!(parse_status("removed"), Some(FunctionChangeStatus::Removed));
    assert_eq!(parse_status("Removed"), None);
}

#[test]
fn a_request_is_accepted_by_version_and_method() {
    assert_eq!(accept(&request(PROTOCOL_VERSION, None)), Ok(Method::Analyze));
    for (name, method) in [
        ("analyze", Method::Analyze),
        ("get_change_summary", Method::ChangeSummary),
        ("list_changed_files", Method::ListChangedFiles),
        ("list_changed_functions", Method::ListChangedFunctions),
        ("get_function_change", Method::GetFunctionChange),
        ("get_analysis_diagnostics", Method::GetAnalysisDiagnostics),
    ] {
        assert_eq!(accept(&request(PROTOCOL_VERSION, Some(name))), Ok(method));
    }
    assert_eq!(
        fault(accept(&request(1, None))),
        ("unsupported_protocol_version", "unsupported protocol version 1; expected 2".to_owned())
    );
    let (code, message) = fault(accept(&request(PROTOCOL_VERSION, Some("explain"))));
    assert_eq!(code, "unknown_method");
    assert!(message.starts_with("unknown method `explain`; expected analyze, "), "{message}");
}

#[test]
fn a_line_that_is_no_request_is_answered_under_the_id_it_carries() {
    assert_eq!(request_id(br#"{"id":"seven","protocol_version":true}"#), Some("seven".to_owned()));
    assert_eq!(request_id(br#"{"id":7}"#), None);
    assert_eq!(request_id(br#"["id"]"#), None);
    assert_eq!(request_id(b"{"), None);
    let value: serde_json::Value = serde_json::from_str("{\"id\":\"x\"}").expect("valid");
    assert_eq!(id_of(&value), Some("x".to_owned()));
    let error = malformed("EOF while parsing");
    assert_eq!((error.code, error.message.as_str()), ("malformed_request", "invalid request: EOF while parsing"));
    for (line, content) in [("{}\r\n", "{}"), ("{}\n", "{}"), ("{}\r", "{}"), ("{}", "{}"), ("\n\n", "\n")] {
        let mut bytes = line.as_bytes().to_vec();
        trim_line_ending(&mut bytes);
        assert_eq!(bytes, content.as_bytes());
    }
}

#[test]
fn only_questions_about_reach_load_an_import_graph() {
    let success = HarnessOutcome::Success(Arc::new(analysis()));
    assert!(matches!(after_analysis(Method::ChangeSummary, &success), Step::LoadImports));
    assert!(matches!(after_analysis(Method::GetAnalysisDiagnostics, &success), Step::Answer));
    assert!(matches!(after_analysis(Method::Analyze, &success), Step::Answer));

    let asked = HarnessRequest {
        id: "1".to_owned(),
        repository: ".".to_owned(),
        base_revision: "main".to_owned(),
        target_revision: "topic".to_owned(),
    };
    let failed = diffscope::harness::respond(asked, Err(DiffScopeError::InvalidGitOutput("half a line".to_owned())));
    assert_eq!(failed.id, "1");
    match after_analysis(Method::ChangeSummary, &failed.outcome) {
        Step::Reject(error) => {
            assert_eq!(error.code, "analysis_failed");
            assert_eq!(error.message, "invalid git output: half a line");
        }
        _ => panic!("a failed analysis rejects the question"),
    }
}

#[test]
fn a_cursor_is_refused_where_nothing_is_paged() {
    let mut asked = params();
    assert!(check_cursor(Method::ChangeSummary, &asked).is_none());
    asked.cursor = Some("00".to_owned());
    assert!(check_cursor(Method::ListChangedFiles, &asked).is_none());
    assert!(check_cursor(Method::ListChangedFunctions, &asked).is_none());
    let error = check_cursor(Method::GetFunctionChange, &asked).expect("one function has no pages");
    assert_eq!(error.code, "invalid_params");
    assert_eq!(error.message, "`cursor` is only accepted by list_changed_files and list_changed_functions");
}

#[test]
fn a_function_is_described_by_its_identity_and_an_unknown_one_is_named() {
    let result = analysis();
    let known = function_id(&result.files[0], &result.files[0].functions[1]);
    assert_eq!(known, "src/a.ts#fn:second@target:10:0");
    let mut asked = params();
    asked.function_id = Some(known.clone());
    let detail = function_detail(&result, &asked, None).expect("the function is there");
    assert_eq!(detail.function.function_id, known);

    let (code, message) = fault(function_detail(&result, &params(), None));
    assert_eq!(code, "invalid_params");
    assert!(message.contains("function_id"), "{message}");

    asked.function_id = Some("src/a.ts#fn:missing@target:1:0".to_owned());
    let (code, message) = fault(function_detail(&result, &asked, None));
    assert_eq!(code, "unknown_function");
    assert!(message.contains("src/a.ts#fn:missing@target:1:0"), "{message}");
    assert!(message.contains("src/a.ts#fn:first@target:1:0"), "{message}");
    let unknown = match get_function_change(&result, "nothing", None) {
        Err(unknown) => unknown,
        Ok(_) => panic!("no function has this identity"),
    };
    assert!(describe_unknown(&unknown).contains("nothing"));
    let alone = UnknownFunction { function_id: "gone".to_owned(), known_function_ids: Vec::new() };
    assert!(describe_unknown(&alone).contains("gone"));
}

fn key(commit: &str) -> CacheKey {
    CacheKey { repository_root: "/work".to_owned(), base_commit: "base".to_owned(), target_commit: commit.to_owned() }
}

#[test]
fn a_session_keeps_what_it_stored_and_forgets_the_oldest() {
    let mut session = HarnessSession::new();
    assert!(session.take_cached(&key("one")).is_none());
    let shared = Arc::new(analysis());
    session.store(key("one"), &shared);
    let found = session.take_cached(&key("one")).expect("the analysis was stored");
    assert!(Arc::ptr_eq(&found, &shared));
    assert!(session.take_cached(&key("two")).is_none());

    for commit in ["two", "three", "four"] {
        session.store(key(commit), &Arc::new(analysis()));
    }
    // A hit keeps an analysis from being the one that is forgotten next.
    assert!(session.take_cached(&key("one")).is_some());
    session.store(key("five"), &Arc::new(analysis()));
    assert_eq!(MAX_CACHED_ANALYSES, 4);
    assert!(session.take_cached(&key("one")).is_some());
    assert!(session.take_cached(&key("two")).is_none());
    assert!(session.take_cached(&key("five")).is_some());
}

#[test]
fn every_tool_has_a_name_of_its_own_and_asks_for_the_comparison() {
    let tools = tool_specs();
    assert_eq!(tools.len(), 6);
    for tool in &tools {
        for argument in [Argument::Repository, Argument::Base, Argument::Target] {
            assert!(tool.required.contains(&argument), "{}", tool.name);
        }
        assert_eq!(find_tool(tool.name), Ok(tool.method));
        assert_eq!(tools.iter().filter(|other| other.name == tool.name).count(), 1);
    }
    assert_eq!(find_tool("get_impact_graph"), Ok(Method::GetImpactGraph));
    let refused = find_tool("analyze").expect_err("the whole analysis is no tool");
    assert!(refused.starts_with("unknown tool `analyze`; this server exposes "), "{refused}");
}

#[test]
fn a_required_argument_is_a_text_that_is_not_empty() {
    assert_eq!(required_text("base", Given::Text("main".to_owned())), Ok("main".to_owned()));
    assert_eq!(required_text("base", Given::Missing), Err("`base` is required".to_owned()));
    assert_eq!(required_text("base", Given::Text(String::new())), Err("`base` must not be empty".to_owned()));
    assert_eq!(
        required_text("base", Given::Other("7".to_owned())),
        Err("`base` must be a string; received 7".to_owned())
    );
}

fn graph_params() -> GraphParams {
    GraphParams {
        file: None,
        function_id: None,
        direction: None,
        relations: Vec::new(),
        depth: None,
        view: None,
        max_nodes: None,
        max_edges: None,
        render: Vec::new(),
    }
}

#[test]
fn an_impact_question_is_validated_before_it_is_answered() {
    let result = analysis();
    let request = graph_request(&result, &graph_params()).expect("every parameter has a default");
    assert_eq!(request.depth, 1);
    assert_eq!(request.limits.max_nodes, 30);
    assert_eq!(request.limits.max_edges, 60);

    let mut asked = graph_params();
    asked.direction = Some("sideways".to_owned());
    asked.view = Some("both".to_owned());
    assert_eq!(
        fault(graph_request(&result, &asked)).1,
        "`direction` must be one of upstream, downstream, both; received `sideways`"
    );
    asked.direction = None;
    assert_eq!(fault(graph_request(&result, &asked)).1, "`view` must be one of delta, base, target; received `both`");

    let mut asked = graph_params();
    asked.file = Some("src/a.ts".to_owned());
    asked.function_id = Some("src/a.ts#fn:first@target:1:0".to_owned());
    assert!(fault(graph_request(&result, &asked)).1.starts_with("`file` and `function_id` are mutually exclusive"));
    asked.function_id = None;
    asked.file = Some("src/c.ts".to_owned());
    assert_eq!(
        fault(graph_request(&result, &asked)).1,
        "`file` must name a changed file: no `src/c.ts` in this analysis, which changed src/a.ts, src/b.ts"
    );
    let mut asked = graph_params();
    asked.function_id = Some("nothing".to_owned());
    assert!(fault(graph_request(&result, &asked)).1.starts_with("`function_id` must name a function in this analysis: no `nothing`"));
    let mut asked = graph_params();
    asked.relations = vec!["depends_on".to_owned()];
    assert_eq!(
        fault(graph_request(&result, &asked)).1,
        "`relations` must be one of imports, tested_by, calls, contains, re_exports; received `depends_on`"
    );
    let mut asked = graph_params();
    asked.render = vec!["svg".to_owned()];
    assert_eq!(fault(graph_request(&result, &asked)).1, "`render` must be one of diff, mermaid; received `svg`");
}

#[test]
fn an_impact_answer_renders_what_was_asked_for() {
    let result = analysis();
    let base = ImportIndex::new();
    let mut target = ImportIndex::new();
    target.add_edge("src/b.ts", "src/a.ts", 3);
    let none = SymbolIndex::new();
    let revisions = Revisions { base: &base, target: &target, base_symbols: &none, target_symbols: &none };
    let mut asked = graph_params();
    asked.file = Some("src/a.ts".to_owned());
    asked.render = vec!["diff".to_owned()];
    let (_, answer) = impact_graph(&result, &revisions, &asked).expect("the question is valid");
    assert!(answer.mermaid.is_none());
    let text = render_graph_text("main", "topic", &answer).expect("the diff was asked for");
    assert!(text.starts_with("DiffScope main..topic\nRoot: src/a.ts\n"), "{text}");
    assert!(text.contains("+"), "{text}");
    assert!(text.ends_with("Diagram: not recommended\n") || text.contains("Diagram: "), "{text}");

    asked.render = Vec::new();
    let (_, answer) = impact_graph(&result, &revisions, &asked).expect("the question is valid");
    assert_eq!(
        render_graph_text("main", "topic", &answer),
        Err("the answer carried no `dependency_diff`".to_owned())
    );
}

#[test]
fn a_session_analyzes_a_comparison_once() {
    let asked = |id: &str| HarnessRequest {
        id: id.to_owned(),
        repository: ".".to_owned(),
        base_revision: "main".to_owned(),
        target_revision: "topic".to_owned(),
    };
    let mut session = HarnessSession::default();
    let mut analyzed = 0;
    let first = session.execute(asked("1"), Ok(key("one")), || {
        analyzed += 1;
        Ok(analysis())
    });
    let second = session.execute(asked("2"), Ok(key("one")), || {
        analyzed += 1;
        Ok(analysis())
    });
    assert_eq!(analyzed, 1);
    assert_eq!((first.id.as_str(), second.id.as_str()), ("1", "2"));
    match (first.outcome, second.outcome) {
        (HarnessOutcome::Success(one), HarnessOutcome::Success(two)) => assert!(Arc::ptr_eq(&one, &two)),
        _ => panic!("both requests are answered"),
    }

    // A failure is not kept, and a comparison that does not resolve is not
    // analyzed at all.
    let failed = session.analysis(Ok(key("two")), || Err(DiffScopeError::Language("no tree".to_owned())));
    assert_eq!(failed.err(), Some(DiffScopeError::Language("no tree".to_owned())));
    assert!(session.take_cached(&key("two")).is_none());
    let unresolved = DiffScopeError::Git { command: "git rev-parse".to_owned(), message: "unknown revision".to_owned() };
    let response = diffscope::harness::execute(asked("3"), Err(unresolved), || panic!("nothing to analyze"));
    match response.outcome {
        HarnessOutcome::Error(error) => assert_eq!(error.message, "git command failed (`git rev-parse`): unknown revision"),
        HarnessOutcome::Success(_) => panic!("the revision does not resolve"),
    }
}
