use diffscope::git::summarize;
use diffscope::graph::recommend::evaluate;
use diffscope::graph::{Direction, Graph, Relation, View};
use diffscope::imports::ImportIndex;
use diffscope::languages::typescript::remove_comments;
use diffscope::languages::{symbol_id, FunctionKind, ImportScanner, MAX_IMPORT_SCAN_BYTES};
use diffscope::graph::walk;
use diffscope::query::classify::{classify, FileClassification};
use diffscope::query::impact::{for_file, TestLink};
use diffscope::{BlobContent, FileChange, FileStatus};

fn change(path: &str, added: u32, status: FileStatus) -> FileChange {
    FileChange {
        base_path: Some(path.to_owned()),
        target_path: Some(path.to_owned()),
        status,
        old_blob_id: None,
        new_blob_id: None,
        base_blob: BlobContent::NotApplicable,
        target_blob: BlobContent::NotApplicable,
        added_lines: added,
        removed_lines: 1,
        hunks: Vec::new(),
    }
}

#[test]
fn a_summary_does_not_depend_on_the_order_of_files() {
    let forward = vec![change("a", 2, FileStatus::Modified), change("b", 3, FileStatus::Binary), change("c", 5, FileStatus::Added)];
    let backward = forward.iter().rev().cloned().collect::<Vec<_>>();
    let summary = summarize(&forward);
    assert_eq!(summary, summarize(&backward));
    assert_eq!((summary.changed_files, summary.added_lines, summary.removed_lines, summary.binary_files), (3, 10, 3, 1));
}

#[test]
fn every_name_that_is_offered_is_read_back() {
    for relation in Relation::supported() {
        assert_eq!(Relation::parse(relation.name()), Some(relation));
    }
    for direction in [Direction::Upstream, Direction::Downstream, Direction::Both] {
        assert_eq!(Direction::parse(direction.name()), Some(direction));
    }
    for view in [View::Delta, View::Base, View::Target] {
        assert_eq!(View::parse(view.name()), Some(view));
    }
}

#[test]
fn a_graph_without_a_root_recommends_no_diagram() {
    assert!(!evaluate(&Graph::default()).recommended);
}

#[test]
fn removing_comments_keeps_every_line_in_its_place() {
    let source = "a(); // one\n/* two\n three */ b();\nconst s = \"// kept\";\n";
    let plain = remove_comments(source);
    assert_eq!(plain.matches('\n').count(), source.matches('\n').count());
    assert!(plain.contains("\"// kept\""), "{plain}");
    assert!(!plain.contains("two") && !plain.contains("one"), "{plain}");
}

#[test]
fn a_symbol_tells_kinds_and_names_apart() {
    assert_eq!(symbol_id(FunctionKind::Method, "A.run"), "method:A.run");
    assert_ne!(symbol_id(FunctionKind::Method, "run"), symbol_id(FunctionKind::ArrowFunction, "run"));
    assert_eq!(symbol_id(FunctionKind::Constructor, "A"), "ctor:A");
}

#[test]
fn tests_that_import_a_file_come_before_tests_named_after_it() {
    let mut index = ImportIndex::default();
    index.add_link("src/z.spec.ts", "src/core.ts");
    index.add_file("src/core.test.ts");
    let impact = for_file(&index, "src/core.ts");
    let links = impact.related_tests.iter().map(|test| (test.file.as_str(), test.link)).collect::<Vec<_>>();
    assert_eq!(links, vec![("src/z.spec.ts", TestLink::Imports), ("src/core.test.ts", TestLink::Convention)]);
}

#[test]
fn a_test_is_named_after_a_file_whatever_its_test_suffix() {
    let mut index = ImportIndex::default();
    for path in ["src/core-test.ts", "src/core.spec.ts", "src/core_test.ts", "src/core_tests_test.ts", "src/core.ts"] {
        index.add_file(path);
    }
    let impact = for_file(&index, "src/core.ts");
    let files = impact.related_tests.iter().map(|test| test.file.as_str()).collect::<Vec<_>>();
    assert_eq!(files, vec!["src/core-test.ts", "src/core.spec.ts", "src/core_test.ts"]);
}

#[test]
fn configuration_is_told_by_name_and_not_by_extension_alone() {
    assert_eq!(classify("src/data.yaml"), FileClassification::Source);
    assert_eq!(classify("fixtures.toml"), FileClassification::Source);
    assert_eq!(classify(".eslintrc.yml"), FileClassification::Config);
    assert_eq!(classify("vite.config.toml"), FileClassification::Config);
    assert_eq!(classify(".github/data.yaml"), FileClassification::Config);
}

#[test]
fn a_scan_is_truncated_only_where_the_file_is_longer_than_the_limit() {
    let scanner = ImportScanner::new().expect("the grammars load");
    let statement = "import a from './a';\n";
    let padded = |length: usize| {
        let mut source = "\n".repeat(length - statement.len());
        source.push_str(statement);
        source
    };
    // The last import ends the file at the limit: all of it is read.
    let whole = scanner.scan("src/a.ts", padded(MAX_IMPORT_SCAN_BYTES).as_bytes()).expect("a tree");
    assert!(!whole.truncated);
    assert_eq!(whole.specifiers.len(), 1);
    let cut = scanner.scan("src/a.ts", padded(MAX_IMPORT_SCAN_BYTES + 400).as_bytes()).expect("a tree");
    assert!(cut.truncated);
    // A long file whose imports end early is read as far as they go.
    let mut early = statement.to_owned();
    early.push_str(&"\n".repeat(MAX_IMPORT_SCAN_BYTES));
    assert!(!scanner.scan("src/a.ts", early.as_bytes()).expect("a tree").truncated);
}

#[test]
fn a_walk_asks_one_way_at_a_time_and_stops_asking_at_its_depth() {
    let asked = std::cell::RefCell::new(Vec::new());
    let neighbors = |id: &str, direction: Direction| {
        asked.borrow_mut().push((id.to_owned(), direction));
        match (id, direction) {
            ("a", Direction::Downstream) => vec!["b".to_owned()],
            ("b", Direction::Downstream) => vec!["c".to_owned()],
            _ => Vec::new(),
        }
    };
    let reached = walk(&vec!["a".to_owned()], Direction::Both, 1, neighbors);
    assert_eq!(reached.get("b"), Some(&1));
    assert!(!reached.contains_key("c"));
    assert_eq!(asked.into_inner(), vec![("a".to_owned(), Direction::Upstream), ("a".to_owned(), Direction::Downstream)]);
}
