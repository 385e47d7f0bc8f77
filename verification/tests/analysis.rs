use diffscope::analysis::{
    map_changed_functions, range_intersects_hunk_side, FunctionChangeStatus, FunctionMappingDiagnosticCode, PARALLEL_BLOB_THRESHOLD,
};
use diffscope::{BlobContent, FileChange, FileStatus};

#[test]
fn maps_signature_and_body_edits_to_modified_functions() {
    let file = file_change(
        b"function greet(name: string) {\n  return name;\n}\n",
        b"function greet(name: string): string {\n  return `hi ${name}`;\n}\n",
        1,
        3,
        1,
        3,
    );

    let mapped = map_changed_functions(&file).expect("mapping succeeds");

    assert_eq!(mapped.functions.len(), 1);
    assert_eq!(mapped.functions[0].qualified_name, "greet");
    assert_eq!(mapped.functions[0].status, FunctionChangeStatus::Modified);
    assert!(mapped.functions[0].metrics_before.is_some());
    assert!(mapped.functions[0].metrics_after.is_some());
}

#[test]
fn a_mapped_function_carries_the_calls_each_side_wrote() {
    let file = file_change(
        b"function run() {\n  first();\n}\n",
        b"function run() {\n  first();\n  log.second();\n}\nfunction added() {}\n",
        3,
        0,
        3,
        1,
    );

    let mapped = map_changed_functions(&file).expect("mapping succeeds");

    let names = |calls: &Vec<diffscope::languages::CallSite>| calls.iter().map(|call| (call.name.clone(), call.line)).collect::<Vec<_>>();
    let run = mapped.functions.iter().find(|function| function.qualified_name == "run").expect("run is mapped");
    assert_eq!(names(&run.calls_before), vec![("first".to_owned(), 2)]);
    assert_eq!(names(&run.calls_after), vec![("first".to_owned(), 2), ("second".to_owned(), 3)]);
    assert_eq!(run.calls_after[1].receiver.as_deref(), Some("log"));
    let added = mapped.functions.iter().find(|function| function.qualified_name == "added").expect("added is mapped");
    assert!(added.calls_before.is_empty() && added.calls_after.is_empty());
}

#[test]
fn matches_moved_functions_by_identity() {
    let file = file_change(
        b"function first() { return 1; }\nfunction second() { return 2; }\n",
        b"function second() { return 2; }\nfunction first() { return 1; }\n",
        1,
        2,
        1,
        2,
    );

    let mapped = map_changed_functions(&file).expect("mapping succeeds");

    assert_eq!(mapped.functions.len(), 2);
    assert!(
        mapped
            .functions
            .iter()
            .all(|function| function.status == FunctionChangeStatus::Modified)
    );
}

#[test]
fn classifies_added_and_removed_functions() {
    let file = file_change(
        b"function removed() { return 1; }\nfunction kept() { return 2; }\n",
        b"function kept() { return 2; }\nfunction added() { return 3; }\n",
        1,
        2,
        1,
        2,
    );

    let mapped = map_changed_functions(&file).expect("mapping succeeds");

    assert!(mapped.functions.iter().any(|function| {
        function.qualified_name == "removed" && function.status == FunctionChangeStatus::Removed
    }));
    assert!(mapped.functions.iter().any(|function| {
        function.qualified_name == "added" && function.status == FunctionChangeStatus::Added
    }));
}

#[test]
fn keeps_functions_unchanged_when_an_edit_above_only_shifts_them() {
    // Two lines are inserted near the top of the file. `shifted` moves
    // down by two lines, but its content, and every metric derived from
    // it, is identical.
    let file = file_change(
        b"const top = 1;\n\nfunction shifted() {\n  return 1;\n}\n",
        b"const top = 1;\nconst added = 2;\nconst alsoAdded = 3;\n\nfunction shifted() {\n  return 1;\n}\n",
        1,
        0,
        2,
        2,
    );

    let mapped = map_changed_functions(&file).expect("mapping succeeds");
    let function = &mapped.functions[0];

    assert_eq!(mapped.functions.len(), 1);
    assert_eq!(function.qualified_name, "shifted");
    assert_eq!(
        function.base_range.as_ref().map(|range| range.start_line),
        Some(3)
    );
    assert_eq!(
        function.target_range.as_ref().map(|range| range.start_line),
        Some(5)
    );
    assert_eq!(function.status, FunctionChangeStatus::Unchanged);
}

#[test]
fn reports_functions_the_edit_actually_touches_as_modified() {
    let file = file_change(
        b"function untouched() { return 1; }\nfunction edited() { return 2; }\n",
        b"function untouched() { return 1; }\nfunction edited() { return 3; }\n",
        2,
        1,
        2,
        1,
    );

    let mapped = map_changed_functions(&file).expect("mapping succeeds");
    let status_of = |name: &str| {
        mapped
            .functions
            .iter()
            .find(|function| function.qualified_name == name)
            .map_or_else(
                || panic!("missing function {name}"),
                |function| function.status,
            )
    };

    assert_eq!(status_of("untouched"), FunctionChangeStatus::Unchanged);
    assert_eq!(status_of("edited"), FunctionChangeStatus::Modified);
}

#[test]
fn analyzes_large_blobs_on_separate_threads_with_the_same_result() {
    // Both revisions exceed PARALLEL_BLOB_THRESHOLD, so they are parsed
    // concurrently. The mapping must match what a sequential parse of the
    // same sources produces.
    let mut base = String::new();
    let mut target = String::new();
    for index in 0..2_000 {
        base.push_str(&format!("export function fn{index}(value: number): number {{ return value + {index}; }}\n"));
        let body = if index == 1_000 {
            "if (value > 0) { return value; } return 0;".to_owned()
        } else {
            format!("return value + {index};")
        };
        target.push_str(&format!("export function fn{index}(value: number): number {{ {body} }}\n"));
    }

    assert!(base.len() > PARALLEL_BLOB_THRESHOLD);
    assert!(target.len() > PARALLEL_BLOB_THRESHOLD);

    let file = file_change(base.as_bytes(), target.as_bytes(), 1_001, 1, 1_001, 1);
    let mapped = map_changed_functions(&file).expect("mapping succeeds");

    assert_eq!(mapped.functions.len(), 2_000);
    assert!(mapped.diagnostics.is_empty());

    let edited = mapped
        .functions
        .iter()
        .find(|function| function.qualified_name == "fn1000")
        .expect("edited function is mapped");
    assert_eq!(edited.status, FunctionChangeStatus::Modified);
    assert_eq!(
        edited
            .metrics_before
            .as_ref()
            .map(|metrics| metrics.cyclomatic_complexity),
        Some(1)
    );
    assert_eq!(
        edited
            .metrics_after
            .as_ref()
            .map(|metrics| metrics.cyclomatic_complexity),
        Some(2)
    );

    let untouched = mapped
        .functions
        .iter()
        .find(|function| function.qualified_name == "fn0")
        .expect("untouched function is mapped");
    assert_eq!(untouched.status, FunctionChangeStatus::Unchanged);
}

#[test]
fn inserting_a_callback_does_not_cross_match_the_callbacks_below_it() {
    // Anonymous identities were once numbered across the whole file, so an
    // inserted callback renumbered every later one and matched unrelated
    // bodies to each other: the callback of `a` was compared against the
    // body of `new`, reporting complexity churn that no edit caused. Each
    // surviving callback must still match its own previous self.
    let file = file_change(
        b"describe('s', () => {\n  test('a', () => { return 1; })\n  test('b', () => { if (x) { return 2; } return 3; })\n})\n",
        b"describe('s', () => {\n  test('new', () => { while (y) { break; } })\n  test('a', () => { return 1; })\n  test('b', () => { if (x) { return 2; } return 3; })\n})\n",
        2,
        0,
        2,
        1,
    );

    let mapped = map_changed_functions(&file).expect("mapping succeeds");

    let added = mapped
        .functions
        .iter()
        .filter(|function| function.status == FunctionChangeStatus::Added)
        .collect::<Vec<_>>();
    assert_eq!(added.len(), 1);
    assert_eq!(
        added[0].qualified_name,
        "describe(\"s\").test(\"new\").<anonymous>#1"
    );

    // The two surviving callbacks kept their own metrics. The enclosing
    // `describe` callback legitimately grew by the inserted line, so only
    // the callbacks the edit did not touch are asserted here.
    for name in [
        "describe(\"s\").test(\"a\").<anonymous>#1",
        "describe(\"s\").test(\"b\").<anonymous>#1",
    ] {
        let function = mapped
            .functions
            .iter()
            .find(|function| function.qualified_name == name)
            .unwrap_or_else(|| panic!("{name} is still matched"));
        assert_eq!(
            function.metrics_before, function.metrics_after,
            "{name} was matched against a different function"
        );
    }
}

#[test]
fn matches_functions_across_file_renames() {
    let mut file = file_change(
        b"function stable() { return 1; }\n",
        b"function stable() { return 1; }\n",
        1,
        0,
        1,
        0,
    );
    file.status = FileStatus::Renamed;
    file.base_path = Some("old.ts".to_owned());
    file.target_path = Some("new.ts".to_owned());
    file.hunks.clear();

    let mapped = map_changed_functions(&file).expect("mapping succeeds");

    assert_eq!(mapped.functions.len(), 1);
    assert_eq!(mapped.functions[0].qualified_name, "stable");
    assert_eq!(mapped.functions[0].status, FunctionChangeStatus::Unchanged);
}

#[test]
fn maps_nested_functions_independently() {
    let file = file_change(
        b"function outer() {\n  function inner() { return 1; }\n  return inner();\n}\n",
        b"function outer() {\n  function inner() { return 2; }\n  return inner();\n}\n",
        2,
        1,
        2,
        1,
    );

    let mapped = map_changed_functions(&file).expect("mapping succeeds");

    assert!(mapped.functions.iter().any(|function| {
        function.qualified_name == "inner" && function.status == FunctionChangeStatus::Modified
    }));
}

#[test]
fn reports_ambiguous_duplicate_identities() {
    let file = file_change(
        b"function duplicate() { return 1; }\nfunction duplicate() { return 2; }\n",
        b"function duplicate() { return 3; }\n",
        1,
        2,
        1,
        1,
    );

    let mapped = map_changed_functions(&file).expect("mapping succeeds");

    assert!(mapped.functions.is_empty());
    assert!(mapped.diagnostics.iter().any(|diagnostic| {
        diagnostic.code == FunctionMappingDiagnosticCode::AmbiguousFunctionMatch
            && diagnostic.qualified_name.as_deref() == Some("duplicate")
    }));
}

#[test]
fn insertion_at_function_boundary_intersects_function() {
    assert!(range_intersects_hunk_side(
        &diffscope::languages::SourceRange {
            start_line: 10,
            start_column: 0,
            end_line: 12,
            end_column: 1,
        },
        9,
        0,
    ));
}

fn file_change(
    base: &[u8],
    target: &[u8],
    base_start: u32,
    base_count: u32,
    target_start: u32,
    target_count: u32,
) -> FileChange {
    FileChange {
        base_path: Some("sample.ts".to_owned()),
        target_path: Some("sample.ts".to_owned()),
        status: FileStatus::Modified,
        old_blob_id: Some("base".to_owned()),
        new_blob_id: Some("target".to_owned()),
        base_blob: BlobContent::Available(base.to_vec()),
        target_blob: BlobContent::Available(target.to_vec()),
        added_lines: target_count,
        removed_lines: base_count,
        hunks: vec![diffscope::DiffHunk {
            base_start,
            base_count,
            target_start,
            target_count,
            added_lines: target_count,
            removed_lines: base_count,
        }],
    }
}
