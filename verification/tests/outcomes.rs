use diffscope::analysis::{analyze_blob, map_changed_functions, FunctionChangeStatus, FunctionMappingDiagnosticCode};
use diffscope::application::{analyze, restore_order, worker_count};
use diffscope::collections::{TextMap, TextSet};
use diffscope::git::{
    attach_blobs, attach_hunks, build_inventory, commit_spec, decode_output, parse_batch_blobs, parse_hunk_header, parse_numstat_binary_paths, parse_patch,
    parse_raw_changes, parse_raw_header, resolved_revision, utf8, wanted_objects,
};
use diffscope::graph::render::{sanitize, MAX_LABEL_BYTES};
use diffscope::languages::{analyze_source, LanguageDiagnosticCode};
use diffscope::output::render_human;
use diffscope::query::page::paginate;
use diffscope::query::{canonical_limit, change_summary, Page};
use diffscope::{BlobContent, ChangeInventory, DiffScopeError, FileChange, FileStatus, ResolvedRevision};

fn revision(name: &str) -> ResolvedRevision {
    ResolvedRevision { input: name.to_owned(), commit_id: format!("{name}-commit") }
}

/// The inventory of a comparison that changed `src/a.ts`, added `logo.png` and
/// renamed `src/old.ts`.
fn inventory() -> ChangeInventory {
    let raw = b":100644 100644 aaaa bbbb M\0src/a.ts\0:000000 100644 0000000000000000000000000000000000000000 cccc A\0logo.png\0:100644 100644 dddd dddd R100\0src/old.ts\0src/new.ts\0";
    let files = parse_raw_changes(raw).expect("three changes");
    assert_eq!(wanted_objects(&files).to_vec(), vec!["aaaa", "bbbb", "cccc", "dddd"]);
    let hunks = parse_patch(
        "diff --git a/src/a.ts b/src/a.ts\n--- a/src/a.ts\n+++ b/src/a.ts\n@@ -2 +2,2 @@\n-  return 1;\n+  if (x) return 2;\n+  return 1;\n",
    )
    .expect("one hunk");
    let binary = parse_numstat_binary_paths(b"2\t1\tsrc/a.ts\0-\t-\tlogo.png\0").expect("one binary file");
    let files = attach_hunks(files, hunks, &binary).expect("every file has a path");
    let before = "export function pick(x) {\n  return 1;\n}\nfunction still() {\n  return 0;\n}\n";
    let after = "export function pick(x) {\n  if (x) return 2;\n  return 1;\n}\nfunction still() {\n  return 0;\n}\n";
    let mut blobs = TextMap::new();
    blobs.insert("aaaa".to_owned(), BlobContent::Available(before.as_bytes().to_vec()));
    blobs.insert("bbbb".to_owned(), BlobContent::Available(after.as_bytes().to_vec()));
    blobs.insert("dddd".to_owned(), BlobContent::Available(b"function moved() {}\n".to_vec()));
    build_inventory("/work".to_owned(), revision("main"), revision("topic"), attach_blobs(files, &blobs))
}

fn git_fault<T>(outcome: Result<T, DiffScopeError>) -> String {
    match outcome {
        Err(DiffScopeError::InvalidGitOutput(message)) => message,
        Err(_) => panic!("the output is at fault"),
        Ok(_) => panic!("the output is refused"),
    }
}

#[test]
fn an_inventory_is_sorted_and_counts_its_files() {
    let inventory = inventory();
    let paths = inventory.files.iter().map(|file| file.target_path.clone().expect("present")).collect::<Vec<_>>();
    assert_eq!(paths, vec!["logo.png", "src/a.ts", "src/new.ts"]);
    assert_eq!(inventory.files[0].status, FileStatus::Binary);
    assert_eq!(inventory.files[2].status, FileStatus::Renamed);
    assert_eq!(inventory.files[2].base_path.as_deref(), Some("src/old.ts"));
    assert_eq!(inventory.summary.changed_files, 3);
    assert_eq!(inventory.summary.added_lines, 2);
    assert_eq!(inventory.summary.removed_lines, 1);
    assert_eq!(inventory.summary.binary_files, 1);
}

#[test]
fn an_analysis_pairs_functions_across_a_change() {
    let result = analyze(&inventory(), "1.2.3").expect("the sources parse");
    let file = result.files.iter().find(|file| file.target_path.as_deref() == Some("src/a.ts")).expect("present");
    let statuses = file.functions.iter().map(|f| (f.qualified_name.as_str(), f.status)).collect::<Vec<_>>();
    assert_eq!(statuses, vec![("pick", FunctionChangeStatus::Modified), ("still", FunctionChangeStatus::Unchanged)]);
    let summary = change_summary(&result, None);
    assert_eq!(summary.functions.modified, 1);
    assert_eq!(summary.functions.unchanged, 2);

    let report = render_human(&result);
    assert!(report.starts_with("DiffScope main..topic\nRepository: /work\n3 changed files, +2 -1 (2 supported, 1 unsupported)\n"), "{report}");
    assert!(report.contains("modified src/a.ts (+2 -1)\n"), "{report}");
    assert!(report.contains("renamed src/old.ts -> src/new.ts (+0 -0)\n"), "{report}");
    assert!(report.contains("  modified pick [loc 3/3, cyclo 1, cognitive 0 -> loc 4/4, cyclo 2, cognitive 1]\n"), "{report}");
}

#[test]
fn analyzing_files_apart_gives_what_analyzing_them_in_turn_gives() {
    let inventory = inventory();
    let in_turn = inventory.files.iter().map(map_changed_functions).collect::<Result<Vec<_>, _>>().expect("the sources parse");
    // Workers finish in any order; each claims a file by its place.
    let claimed = [2usize, 0, 1].iter().map(|at| (*at, map_changed_functions(&inventory.files[*at]))).collect();
    assert_eq!(restore_order(claimed).expect("every file was analyzed"), in_turn);
    assert_eq!(worker_count(3, 8), 3);
    assert_eq!(worker_count(0, 8), 1);
    assert_eq!(worker_count(100, 4), 4);
}

#[test]
fn functions_that_share_an_identity_are_reported_and_not_paired() {
    let source = b"const a = { run() {} };\nconst b = { run() {} };\nfunction one() {}\n".to_vec();
    let file = FileChange {
        base_path: None,
        target_path: Some("src/a.ts".to_owned()),
        status: FileStatus::Added,
        old_blob_id: None,
        new_blob_id: None,
        base_blob: BlobContent::NotApplicable,
        target_blob: BlobContent::Available(source),
        added_lines: 3,
        removed_lines: 0,
        hunks: Vec::new(),
    };
    let changes = map_changed_functions(&file).expect("the source parses");
    for change in &changes.functions {
        assert_eq!(changes.functions.iter().filter(|other| other.qualified_name == change.qualified_name && other.kind == change.kind).count(), 1);
    }
    assert!(changes.functions.iter().any(|change| change.qualified_name == "one"));
    let shared = changes
        .diagnostics
        .iter()
        .filter(|diagnostic| diagnostic.code == FunctionMappingDiagnosticCode::AmbiguousFunctionMatch)
        .count();
    let declared = analyze_source("src/a.ts", b"const a = { run() {} };\nconst b = { run() {} };\nfunction one() {}\n").expect("parses").functions;
    assert_eq!(changes.functions.len() + shared, {
        let mut names = declared.iter().map(|f| f.qualified_name.clone()).collect::<Vec<_>>();
        names.sort();
        names.dedup();
        names.len()
    });
}

#[test]
fn output_that_is_not_what_git_writes_is_refused_with_a_reason() {
    assert_eq!(git_fault(parse_raw_header("M")), "missing status in \"M\"");
    assert_eq!(
        git_fault(parse_raw_header(":100644 100644 aaaa bbbb \"X")),
        "unsupported raw diff status Some(34) in \":100644 100644 aaaa bbbb \\\"X\""
    );
    let one = TextSet::from_list(&vec!["aaaa".to_owned()]);
    assert_eq!(git_fault(parse_batch_blobs(b"aaaa tree 4\n....\n", &one)), "cat-file returned unsupported object type \"tree\"");
    assert_eq!(git_fault(parse_batch_blobs(b"bbbb blob 4\n....\n", &one)), "cat-file returned object bbbb, expected aaaa");
    assert_eq!(git_fault(parse_batch_blobs(b"aaaa blob 9\n....\n", &one)), "truncated cat-file batch object");
    assert_eq!(git_fault(parse_batch_blobs(b"aaaa blob 4\n.....", &one)), "cat-file batch object has no terminator");
    assert_eq!(git_fault(parse_batch_blobs(b"aaaa", &one)), "truncated cat-file batch header");
    assert!(git_fault(parse_batch_blobs(b"aaaa blob x\n", &one)).starts_with("invalid cat-file batch object size: "));
    assert!(!git_fault(parse_hunk_header("@@ what @@")).is_empty());
}

#[test]
fn text_that_is_not_utf8_is_refused_with_where_it_goes_wrong() {
    assert_eq!(utf8(b"src/a.ts", "path").expect("plain"), "src/a.ts");
    let message = git_fault(utf8(b"a\xff", "path"));
    assert!(message.contains("path") && message.contains("index 1"), "{message}");
    assert_eq!(decode_output("grün".as_bytes()).expect("valid"), "grün");
    assert!(decode_output(b"\xc3").is_err());
    assert_eq!(resolved_revision("main", "abc\n").commit_id, "abc");
    assert_eq!(commit_spec("main"), "main^{commit}");
}

#[test]
fn a_failure_is_reported_with_its_kind() {
    let git = DiffScopeError::Git { command: "git log".to_owned(), message: "no such ref".to_owned() };
    assert_eq!(git.to_text(), "git command failed (`git log`): no such ref");
    assert_eq!(DiffScopeError::InvalidGitOutput("x".to_owned()).to_text(), "invalid git output: x");
    assert_eq!(DiffScopeError::Language("x".to_owned()).to_text(), "language analysis failed: x");
}

#[test]
fn a_source_that_cannot_be_read_says_why() {
    let invalid = analyze_source("src/a.ts", b"\xff").expect("a diagnostic, not a failure");
    assert_eq!(invalid.diagnostics[0].code, LanguageDiagnosticCode::InvalidUtf8);
    let unknown = analyze_source("src/a.rb", b"def a; end").expect("a diagnostic, not a failure");
    assert_eq!(unknown.diagnostics[0].code, LanguageDiagnosticCode::UnsupportedLanguage);
    let broken = analyze_source("src/a.ts", b"function (").expect("a diagnostic, not a failure");
    assert_eq!(broken.diagnostics[0].code, LanguageDiagnosticCode::MalformedSource);
    let missing = analyze_blob(&Some("src/a.ts".to_owned()), &BlobContent::Missing).expect("no source, no failure");
    assert!(missing.unavailable);
    assert!(missing.functions.is_empty());
}

#[test]
fn pages_follow_one_another_to_the_end() {
    let rows: Vec<u32> = (0..7).collect();
    let mut seen = Vec::new();
    let mut offset = Some(0);
    while let Some(at) = offset {
        let (page, window) = paginate(rows.clone(), &Page { limit: Some(3), offset: at });
        assert_eq!(window.returned, page.len());
        assert_eq!(window.total, 7);
        assert_eq!(window.has_more, window.next_offset.is_some());
        seen.extend(page);
        offset = window.next_offset;
    }
    assert_eq!(seen, rows);
    assert!(paginate(rows, &Page { limit: Some(3), offset: 9 }).0.is_empty());
    assert_eq!(canonical_limit(Some(canonical_limit(Some(0)))), canonical_limit(Some(0)));
    assert_eq!(canonical_limit(Some(0)), 1);
}

#[test]
fn a_sanitized_label_is_one_short_line_without_quotes() {
    let hostile = "a\"b\n`c`  <d>".repeat(20);
    let label = sanitize(&hostile);
    assert!(label.len() <= MAX_LABEL_BYTES + 3, "{label}");
    assert!(!label.contains('"') && !label.contains('\n'), "{label}");
    assert_eq!(sanitize("plain"), "plain");
}
