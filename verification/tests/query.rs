use diffscope::analysis::{FunctionChangeStatus, FunctionChurn, MatchConfidence};
use diffscope::languages::{DiagnosticSeverity, FunctionKind, Language, SourceRange};
use diffscope::metrics::FunctionMetrics;
use diffscope::query::classify::FileClassification;
use diffscope::query::risk::{RiskLevel, REVIEW_PRIORITY_MODEL, RISK_MODEL};
use diffscope::query::{
    aggregate_complexity, change_area, change_summary, get_analysis_diagnostics, get_function_change, list_changed_files, list_changed_functions, FileFilter,
    FunctionFilter, Page, COMPLEXITY_EXTRACTION, OTHER_CHANGE_SHAPE,
};
use diffscope::result::{
    AnalysisResult, AnalysisSummary, Diagnostic, DiagnosticCode, FileResult, FunctionResult, RevisionResult, SCHEMA_VERSION,
};
use diffscope::{DiffHunk, FileStatus};

#[test]
fn groups_paths_into_areas_by_project_boundary() {
    assert_eq!(
        change_area("packages/runtime-core/src/renderer.ts"),
        "packages/runtime-core"
    );
    assert_eq!(change_area("crates/parser/src/lib.rs"), "crates/parser");
    assert_eq!(change_area("src/index.ts"), "src");
    assert_eq!(change_area("README.md"), "<root>");
}

#[test]
fn omits_unchanged_functions_unless_they_are_asked_for() {
    let result = fixture();

    let default = list_changed_functions(&result, &FunctionFilter::default(), None);
    assert!(
        default
            .functions
            .iter()
            .all(|function| function.status != "unchanged")
    );

    let including = list_changed_functions(
        &result,
        &FunctionFilter {
            include_unchanged: true,
            ..FunctionFilter::default()
        },
        None,
    );
    assert!(including.functions.len() > default.functions.len());
}

#[test]
fn filters_functions_by_classification_and_risk() {
    let result = fixture();

    let source_only = list_changed_functions(
        &result,
        &FunctionFilter {
            classification: Some(FileClassification::Source),
            ..FunctionFilter::default()
        },
        None,
    );
    assert!(
        source_only
            .functions
            .iter()
            .all(|function| function.classification == "source")
    );
    assert!(
        source_only
            .functions
            .iter()
            .all(|function| !function.file.contains("__tests__"))
    );

    let high_only = list_changed_functions(
        &result,
        &FunctionFilter {
            minimum_risk: Some(RiskLevel::High),
            ..FunctionFilter::default()
        },
        None,
    );
    assert!(
        high_only
            .functions
            .iter()
            .all(|function| function.risk.level == RiskLevel::High)
    );
}

#[test]
fn pages_deterministically_without_dropping_or_repeating_rows() {
    let result = fixture();
    let all = list_changed_functions(
        &result,
        &FunctionFilter {
            page: Page {
                limit: Some(100),
                offset: 0,
            },
            ..FunctionFilter::default()
        },
        None,
    );

    let first = list_changed_functions(
        &result,
        &FunctionFilter {
            page: Page {
                limit: Some(1),
                offset: 0,
            },
            ..FunctionFilter::default()
        },
        None,
    );
    assert_eq!(first.page.returned, 1);
    assert_eq!(first.page.total, all.page.total);
    assert!(first.page.has_more);
    assert_eq!(first.page.next_offset, Some(1));

    let second = list_changed_functions(
        &result,
        &FunctionFilter {
            page: Page {
                limit: Some(1),
                offset: 1,
            },
            ..FunctionFilter::default()
        },
        None,
    );
    assert_eq!(first.functions[0].symbol, all.functions[0].symbol);
    assert_eq!(second.functions[0].symbol, all.functions[1].symbol);
}

#[test]
fn addresses_a_function_by_the_identity_a_list_reported() {
    let result = fixture();
    let listed = list_changed_functions(&result, &FunctionFilter::default(), None);
    let listed = listed.functions.first().expect("a changed function");

    let detail =
        get_function_change(&result, &listed.function_id, None).expect("an identity resolves");

    assert_eq!(detail.function.function_id, listed.function_id);
    assert_eq!(detail.function.qualified_name, listed.qualified_name);
    assert_eq!(detail.function.symbol, listed.symbol);
}

#[test]
fn tells_apart_two_functions_that_share_a_name() {
    // One file can declare the same name on both sides of a change, and
    // each record still has to be addressable on its own.
    let result = duplicate_name_fixture();
    let listed = list_changed_functions(&result, &FunctionFilter::default(), None);

    let identities = listed
        .functions
        .iter()
        .map(|function| function.function_id.clone())
        .collect::<Vec<_>>();
    assert_eq!(identities.len(), 2);
    assert_ne!(identities[0], identities[1]);
    // The removal is named on the base side, the modified function on the
    // side a reader will find it on.
    assert!(identities.iter().any(|id| id.contains("@base:")));
    assert!(identities.iter().any(|id| id.contains("@target:")));

    for identity in &identities {
        let detail = get_function_change(&result, identity, None).expect("identity resolves");
        assert_eq!(&detail.function.function_id, identity);
    }
}

#[test]
fn reports_identities_an_unknown_one_would_have_to_be() {
    let result = fixture();

    let requested = "src/renderer.ts#fn:absent@target:9:9";
    let error = get_function_change(&result, requested, None)
        .expect_err("unknown identity is rejected");

    assert_eq!(error.function_id, requested);
    assert!(
        error
            .known_function_ids
            .iter()
            .any(|identity| identity.contains("fn:patch"))
    );
}

#[test]
fn sums_complexity_across_both_revisions_of_a_file() {
    let result = fixture();
    let renderer = result
        .files
        .iter()
        .find(|file| file.target_path.as_deref() == Some("src/renderer.ts"))
        .expect("renderer file");

    let total = aggregate_complexity(renderer);

    // `patch` 10 -> 15 and the untouched `mount` 4 -> 4.
    assert_eq!(total.cyclomatic_before, 14);
    assert_eq!(total.cyclomatic_after, 19);
    assert_eq!(total.cyclomatic_delta, 5);
}

#[test]
fn overview_counts_every_file_and_ranks_candidates() {
    let result = fixture();
    let summary = change_summary(&result, None);

    assert_eq!(summary.files.changed, 2);
    assert_eq!(summary.files.by_classification.get("source"), Some(&1));
    assert_eq!(summary.files.by_classification.get("test"), Some(&1));
    assert!(!summary.review_candidates.is_empty());
    // The riskiest candidate leads.
    assert_eq!(summary.review_candidates[0].symbol, "fn:patch");
}

#[test]
fn lists_files_and_scopes_diagnostics_to_one_file() {
    let result = fixture();

    let source = list_changed_files(
        &result,
        &FileFilter {
            classification: Some(FileClassification::Source),
            ..FileFilter::default()
        },
        None,
    );
    assert_eq!(source.files.len(), 1);
    assert_eq!(source.files[0].path, "src/renderer.ts");
    assert_eq!(source.files[0].area, "src");

    let all = get_analysis_diagnostics(&result, None);
    let scoped = get_analysis_diagnostics(&result, Some("src/renderer.ts"));
    assert!(scoped.diagnostics.len() <= all.diagnostics.len());
}

#[test]
fn counts_every_diagnostic_severity_and_the_total() {
    let mut result = fixture();
    result.files[0].diagnostics = vec![
        diagnostic(DiagnosticSeverity::Info, "for reference"),
        diagnostic(DiagnosticSeverity::Warning, "worth a look"),
        diagnostic(DiagnosticSeverity::Error, "cannot be parsed"),
    ];

    let listed = get_analysis_diagnostics(&result, Some("src/renderer.ts"));

    assert_eq!(listed.counts.info, 1);
    assert_eq!(listed.counts.warnings, 1);
    assert_eq!(listed.counts.errors, 1);
    assert_eq!(listed.counts.total, 3);
    assert_eq!(listed.diagnostics.len(), 3);
}

#[test]
fn reports_defect_risk_and_review_priority_as_separate_models() {
    let result = fixture();
    let listed = list_changed_functions(&result, &FunctionFilter::default(), None);
    let source = listed
        .functions
        .iter()
        .find(|function| function.file == "src/renderer.ts")
        .expect("a source function");

    assert_eq!(source.risk.model, RISK_MODEL);
    assert_eq!(source.review_priority.model, REVIEW_PRIORITY_MODEL);
    assert_ne!(source.risk.model, source.review_priority.model);
    // Production source is exposure, not intrinsic risk: the same function
    // is deeper in the review queue than its own code alone makes it.
    assert!(source.review_priority.score > source.risk.score);
    assert!(
        source
            .review_priority
            .reasons
            .iter()
            .any(|reason| reason.code == "production_source")
    );
    assert!(
        !source
            .risk
            .reasons
            .iter()
            .any(|reason| reason.code == "production_source")
    );
}

#[test]
fn names_a_change_that_extracted_a_helper_out_of_a_function() {
    let mut result = fixture();
    result.files[0].functions = vec![
        // The function that gave work up.
        function(
            "patch",
            FunctionChangeStatus::Modified,
            Some(18),
            Some(6),
            12,
        ),
        // The helper that took it.
        function("patchInner", FunctionChangeStatus::Added, None, Some(8), 8),
    ];

    let listed = list_changed_files(&result, &FileFilter::default(), None);
    let extracted = listed
        .files
        .iter()
        .find(|file| file.path == "src/renderer.ts")
        .expect("the source file");

    assert_eq!(extracted.change_shape, COMPLEXITY_EXTRACTION);
    // The file ends up less complex than it started.
    assert!(extracted.complexity.cognitive_delta < 0);
}

#[test]
fn still_names_an_extraction_that_only_moved_complexity() {
    let mut result = fixture();
    result.files[0].functions = vec![
        // Gives up its complexity entirely.
        function(
            "patch",
            FunctionChangeStatus::Modified,
            Some(15),
            Some(0),
            12,
        ),
        // The helper takes exactly what was given up.
        function(
            "patchInner",
            FunctionChangeStatus::Added,
            None,
            Some(15),
            15,
        ),
    ];

    let listed = list_changed_files(&result, &FileFilter::default(), None);
    let extracted = listed
        .files
        .iter()
        .find(|file| file.path == "src/renderer.ts")
        .expect("the source file");

    assert_eq!(extracted.complexity.cognitive_delta, 0);
    assert_eq!(extracted.change_shape, COMPLEXITY_EXTRACTION);
}

#[test]
fn calls_a_helper_that_added_more_than_it_took_other() {
    let mut result = fixture();
    result.files[0].functions = vec![
        function("patch", FunctionChangeStatus::Modified, Some(4), Some(2), 6),
        function(
            "patchInner",
            FunctionChangeStatus::Added,
            None,
            Some(20),
            20,
        ),
    ];

    let listed = list_changed_files(&result, &FileFilter::default(), None);
    let grown = listed
        .files
        .iter()
        .find(|file| file.path == "src/renderer.ts")
        .expect("the source file");

    assert!(grown.complexity.cognitive_delta > 0);
    assert_eq!(grown.change_shape, OTHER_CHANGE_SHAPE);
}

#[test]
fn calls_a_change_that_moved_no_complexity_out_of_a_function_other() {
    let result = fixture();

    let listed = list_changed_files(&result, &FileFilter::default(), None);

    assert!(!listed.files.is_empty());
    assert!(
        listed
            .files
            .iter()
            .all(|file| file.change_shape == OTHER_CHANGE_SHAPE)
    );
}

/// A file that declares one name on each side of the change: the version
/// being removed, and the one that replaced it.
fn duplicate_name_fixture() -> AnalysisResult {
    let mut result = fixture();
    let mut removed = function("render", FunctionChangeStatus::Removed, Some(12), None, 12);
    removed.base_range = Some(source_range(60, 70));
    removed.target_range = None;
    let mut current = function(
        "render",
        FunctionChangeStatus::Modified,
        Some(4),
        Some(9),
        8,
    );
    current.base_range = Some(source_range(5, 10));
    current.target_range = Some(source_range(5, 14));
    result.files = vec![file("src/renderer.ts", vec![current, removed])];
    result
}

fn source_range(start_line: u32, end_line: u32) -> SourceRange {
    SourceRange {
        start_line,
        start_column: 0,
        end_line,
        end_column: 1,
    }
}

fn diagnostic(severity: DiagnosticSeverity, message: &str) -> Diagnostic {
    Diagnostic {
        code: DiagnosticCode::MetricUnavailable,
        severity,
        message: message.to_owned(),
        path: Some("src/renderer.ts".to_owned()),
        range: None,
        related_entity_ids: Vec::new(),
    }
}

fn fixture() -> AnalysisResult {
    AnalysisResult {
        schema_version: SCHEMA_VERSION,
        tool_version: "0.2.0".to_owned(),
        repository: "/repo".to_owned(),
        base: RevisionResult {
            id: "aaa".to_owned(),
            display_name: "base".to_owned(),
        },
        target: RevisionResult {
            id: "bbb".to_owned(),
            display_name: "target".to_owned(),
        },
        summary: AnalysisSummary {
            changed_files: 2,
            added_lines: 30,
            removed_lines: 10,
            supported_files: 2,
            unsupported_files: 0,
            ..AnalysisSummary::default()
        },
        files: vec![
            file(
                "src/renderer.ts",
                vec![
                    function(
                        "patch",
                        FunctionChangeStatus::Modified,
                        Some(10),
                        Some(15),
                        20,
                    ),
                    function(
                        "mount",
                        FunctionChangeStatus::Unchanged,
                        Some(4),
                        Some(4),
                        0,
                    ),
                ],
            ),
            file(
                "src/__tests__/renderer.spec.ts",
                vec![function(
                    "describe(\"renderer\").<anonymous>#1",
                    FunctionChangeStatus::Modified,
                    Some(2),
                    Some(9),
                    12,
                )],
            ),
        ],
        diagnostics: Vec::new(),
    }
}

fn file(path: &str, functions: Vec<FunctionResult>) -> FileResult {
    FileResult {
        base_path: Some(path.to_owned()),
        target_path: Some(path.to_owned()),
        status: FileStatus::Modified,
        language: Some(Language::TypeScript),
        is_binary: false,
        added_lines: 15,
        removed_lines: 5,
        hunks: vec![DiffHunk {
            base_start: 1,
            base_count: 5,
            target_start: 1,
            target_count: 15,
            added_lines: 15,
            removed_lines: 5,
        }],
        functions,
        exports_added: Vec::new(),
        exports_removed: Vec::new(),
        diagnostics: Vec::new(),
    }
}

fn function(
    name: &str,
    status: FunctionChangeStatus,
    before: Option<u32>,
    after: Option<u32>,
    churned: u32,
) -> FunctionResult {
    FunctionResult {
        id: format!("function-{name}"),
        status,
        kind: FunctionKind::Function,
        qualified_name: name.to_owned(),
        base_range: Some(SourceRange {
            start_line: 1,
            start_column: 0,
            end_line: 20,
            end_column: 1,
        }),
        target_range: Some(SourceRange {
            start_line: 1,
            start_column: 0,
            end_line: 30,
            end_column: 1,
        }),
        metrics_before: before.map(metrics),
        metrics_after: after.map(metrics),
        calls_before: Vec::new(),
        calls_after: Vec::new(),
        churn: FunctionChurn {
            lines_removed: 0,
            lines_added: churned,
            changed_hunks: 1,
        },
        match_confidence: MatchConfidence::Exact,
        diagnostics: Vec::new(),
    }
}

fn metrics(complexity: u32) -> FunctionMetrics {
    FunctionMetrics {
        physical_loc: 30,
        source_loc: 25,
        cyclomatic_complexity: complexity,
        cognitive_complexity: complexity,
    }
}

#[test]
fn an_overview_counts_every_file_and_function_once() {
    let result = fixture();
    let summary = change_summary(&result, None);
    let roles = &summary.files.by_classification;
    let mut in_roles = 0;
    for at in 0..roles.len() {
        in_roles += *roles.value_at(at) as usize;
    }
    assert_eq!(in_roles, result.files.len());
    assert_eq!(summary.change_areas.iter().map(|area| area.files as usize).sum::<usize>(), result.files.len());
    let counts = summary.functions;
    let functions = result.files.iter().map(|file| file.functions.len()).sum::<usize>();
    assert_eq!((counts.added + counts.removed + counts.modified + counts.unchanged) as usize, functions);
    let listed = list_changed_functions(&result, &FunctionFilter::default(), None);
    for (candidate, row) in summary.review_candidates.iter().zip(&listed.functions) {
        assert_eq!(candidate.function_id, row.function_id);
    }
    assert_eq!(summary.review_candidates.len(), listed.functions.len().min(5));
}

/// The share of a function that a change touches, in hundredths.
fn overlap(touched: u32, length: u32) -> u32 {
    let mut changed = function("patch", FunctionChangeStatus::Modified, Some(1), Some(1), touched);
    changed.metrics_after = Some(FunctionMetrics { physical_loc: length, ..metrics(1) });
    let mut result = fixture();
    result.files = vec![file("src/renderer.ts", vec![changed])];
    let listed = list_changed_functions(&result, &FunctionFilter::default(), None);
    listed.functions[0].change.hunk_overlap
}

#[test]
fn a_share_is_rounded_as_floating_point_rounds_it() {
    assert_eq!(overlap(29, 200), 14);
    assert_eq!(overlap(1, 200), 1);
    assert_eq!(overlap(57, 200), 28);
    assert_eq!(overlap(1, 3), 33);
    assert_eq!(overlap(0, 7), 0);
    assert_eq!(overlap(7, 7), 100);
    assert_eq!(overlap(9, 7), 100);
    assert_eq!(overlap(3, 0), 0);

    let expected = |touched: u32, length: u32| (f64::from(touched) / f64::from(length) * 100.0).round() / 100.0;
    for length in [1, 3, 8, 40, 199, 200, 1000, 4_294_967_200, u32::MAX] {
        for step in 0..200 {
            let touched = (u64::from(length) * step / 200) as u32;
            assert_eq!(f64::from(overlap(touched, length)) / 100.0, expected(touched, length), "{touched} of {length}");
        }
    }
}

#[test]
fn an_unknown_identity_is_answered_with_one_to_ten_known_ones() {
    let mut result = fixture();
    let functions = (0..12).map(|n| function(&format!("f{n}"), FunctionChangeStatus::Modified, Some(1), Some(2), 1)).collect();
    result.files = vec![file("src/many.ts", functions)];
    let filter = FunctionFilter { page: Page { limit: Some(50), offset: 0 }, ..FunctionFilter::default() };
    let rows = list_changed_functions(&result, &filter, None).functions;
    assert_eq!(rows.len(), 12);
    for row in &rows {
        let detail = get_function_change(&result, &row.function_id, None).expect("a listed row is found");
        assert_eq!(detail.function.function_id, row.function_id);
    }
    let unknown = get_function_change(&result, "absent", None).expect_err("no such function");
    assert_eq!(unknown.function_id, "absent");
    assert_eq!(unknown.known_function_ids.len(), 10);
    for known in &unknown.known_function_ids {
        assert!(get_function_change(&result, known, None).is_ok());
    }
    let one = get_function_change(&result, "fn:f11", None).expect_err("not a whole identity");
    assert_eq!(one.known_function_ids.len(), 1);
    result.files.clear();
    let none = get_function_change(&result, "absent", None).expect_err("no functions");
    assert!(none.known_function_ids.is_empty());
}
