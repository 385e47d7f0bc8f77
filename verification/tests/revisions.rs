use diffscope::collections::{TextMap, TextSet};
use diffscope::imports::config::{aliases_from, path_aliases, strip_jsonc};
use diffscope::imports::resolve::resolve;
use diffscope::imports::revision::{config_object, read_path_aliases, source_objects};
use diffscope::imports::symbols::{extend_symbols, missing_paths, symbol_objects};
use diffscope::imports::tree::parse_tree;
use diffscope::imports::{index_revision, index_symbols, PathAlias, TreeEntry};
use diffscope::languages::{analyze_source, ImportedName};
use diffscope::{BlobContent, DiffScopeError};

fn set(paths: &[&str]) -> TextSet {
    TextSet::from_list(&paths.iter().map(|path| (*path).to_owned()).collect())
}

fn blobs(sources: &[(&str, &str)]) -> TextMap<BlobContent> {
    let mut out = TextMap::new();
    for (object, source) in sources {
        out.insert((*object).to_owned(), BlobContent::Available(source.as_bytes().to_vec()));
    }
    out
}

fn entries(files: &[(&str, &str)]) -> Vec<TreeEntry> {
    let mut output = Vec::new();
    for (object, path) in files {
        output.extend_from_slice(format!("100644 blob {object}\t{path}\0").as_bytes());
    }
    parse_tree(&output).expect("a well-formed listing")
}

#[test]
fn a_tree_listing_is_read_entry_by_entry() {
    let files = entries(&[("aa", "src/a.ts"), ("bb", "docs/read me.md")]);
    assert_eq!(files.len(), 2);
    assert_eq!(files[0].path, "src/a.ts");
    assert_eq!(files[0].object_id, "aa");
    assert_eq!(files[1].path, "docs/read me.md");
    assert!(parse_tree(b"").expect("an empty tree").is_empty());
    assert!(matches!(parse_tree(b"100644 blob aa src/a.ts\0"), Err(DiffScopeError::InvalidGitOutput(_))));
}

#[test]
fn a_revision_indexes_what_its_sources_import() {
    let files = entries(&[("aa", "src/app.ts"), ("bb", "src/core.ts"), ("cc", "README.md"), ("dd", "tsconfig.json")]);
    assert_eq!(source_objects(&files).to_vec(), vec!["aa", "bb"]);
    assert_eq!(config_object(&files), Some("dd".to_owned()));
    let contents = blobs(&[
        ("aa", "import { start } from '@/core';\nimport lodash from 'lodash';\nstart();\n"),
        ("bb", "export function start() {}\n"),
        ("dd", "{ // aliases\n  \"compilerOptions\": { \"paths\": { \"@/*\": [\"src/*\"], } } }"),
    ]);
    assert_eq!(
        read_path_aliases(&files, &contents),
        vec![PathAlias { pattern: "@/*".to_owned(), targets: vec!["src/*".to_owned()] }]
    );
    let index = index_revision(&files, &contents).expect("both sources parse");
    assert_eq!(index.importers("src/core.ts").to_vec(), vec!["src/app.ts"]);
    assert_eq!(index.import_line("src/app.ts", "src/core.ts"), Some(1));
    assert_eq!(index.resolve_specifier("src/app.ts", "@/core"), Some("src/core.ts"));
    assert_eq!(index.resolve_specifier("src/app.ts", "lodash"), None);
    assert_eq!(index.unresolved_specifiers(), 1);
    assert_eq!(index.scanned_files(), 2);
    assert!(matches!(
        index.bindings("src/app.ts").get("start").map(|binding| &binding.imported),
        Some(ImportedName::Named(name)) if name == "start"
    ));
}

#[test]
fn a_revision_without_a_config_has_no_aliases() {
    assert_eq!(config_object(&entries(&[("aa", "src/app.ts")])), None);
    assert!(path_aliases("{\"compilerOptions\": {}}").is_empty());
    assert!(path_aliases("not json").is_empty());
    assert!(path_aliases("{\"compilerOptions\": {\"paths\": {\"@/*\": 7}}}").iter().all(|alias| alias.targets.is_empty()));
}

#[test]
fn stripping_a_config_leaves_its_strings_alone() {
    assert_eq!(strip_jsonc("{\"a\": \"// no /* comment */\"}"), "{\"a\": \"// no /* comment */\"}");
    let stripped = strip_jsonc("{/* one */\"a\": 1, // two\n}");
    assert!(!stripped.contains("one") && !stripped.contains("two"), "{stripped}");
    assert!(!stripped.contains(','), "{stripped}");
}

#[test]
fn a_specifier_resolves_only_to_a_file_of_the_revision() {
    let paths = set(&["src/core.ts", "src/ui/index.tsx"]);
    assert_eq!(resolve("./core", "src/app.ts", &paths, &Vec::new()), Some("src/core.ts".to_owned()));
    assert_eq!(resolve("./ui", "src/app.ts", &paths, &Vec::new()), Some("src/ui/index.tsx".to_owned()));
    assert_eq!(resolve("./missing", "src/app.ts", &paths, &Vec::new()), None);
    assert_eq!(resolve("core", "src/app.ts", &paths, &Vec::new()), None);
}

#[test]
fn symbols_are_read_for_the_wanted_paths_and_kept_when_more_are_wanted() {
    let files = entries(&[("aa", "src/a.ts"), ("bb", "src/b.ts"), ("cc", "src/c.ts")]);
    let contents = blobs(&[
        ("aa", "export function alpha() { beta(); }\n"),
        ("bb", "export { alpha as renamed } from './a';\n"),
        ("cc", "export const gamma = 1;\n"),
    ]);
    assert_eq!(symbol_objects(&files, &set(&["src/a.ts", "src/none.ts"])).to_vec(), vec!["aa"]);
    let symbols = index_symbols(&files, &contents, &set(&["src/a.ts"])).expect("the source parses");
    assert_eq!(symbols.paths(), vec!["src/a.ts"]);
    let functions = &symbols.file("src/a.ts").expect("the file is covered").functions;
    assert_eq!(functions[0].qualified_name, "alpha");
    assert_eq!(functions[0].calls.iter().map(|call| call.name.as_str()).collect::<Vec<_>>(), vec!["beta"]);

    let wanted = set(&["src/a.ts", "src/b.ts"]);
    assert_eq!(missing_paths(&symbols, &wanted).to_vec(), vec!["src/b.ts"]);
    // What was read before is not read again: the other blob is not even given.
    let more = extend_symbols(&files, &blobs(&[("bb", "export { alpha as renamed } from './a';\n")]), symbols, &wanted)
        .expect("the source parses");
    assert_eq!(more.paths(), vec!["src/a.ts", "src/b.ts"]);
    assert_eq!(more.file("src/a.ts").expect("kept").functions.len(), 1);

    let index = index_revision(&files, &contents).expect("the sources parse");
    let found = more.definition(&index, "src/b.ts", "renamed").expect("one hop away");
    assert_eq!((found.path.as_str(), found.local.as_str(), found.hops), ("src/a.ts", "alpha", 1));
    assert!(more.definition(&index, "src/a.ts", "beta").is_none());
}

#[test]
fn a_call_is_recorded_by_the_function_that_writes_it() {
    let source = "function outer() {\n  plain();\n  obj.method();\n  obj['key']();\n  obj[other]();\n  deep.er.call();\n  const inner = () => {\n    nested();\n  };\n}\n";
    let analysis = analyze_source("src/a.ts", source.as_bytes()).expect("the source parses");
    let outer = analysis.functions.iter().find(|function| function.qualified_name == "outer").expect("declared");
    let calls = outer
        .calls
        .iter()
        .map(|call| (call.name.as_str(), call.receiver.as_deref(), call.line))
        .collect::<Vec<_>>();
    assert_eq!(calls, vec![("plain", None, 2), ("method", Some("obj"), 3), ("key", Some("obj"), 4)]);
    let inner = analysis.functions.iter().find(|function| function.qualified_name.ends_with("inner")).expect("declared");
    assert_eq!(inner.calls.iter().map(|call| call.name.as_str()).collect::<Vec<_>>(), vec!["nested"]);
}

#[test]
fn longer_patterns_are_tried_first_and_patterns_without_targets_not_at_all() {
    let entry = |pattern: &str, targets: &[&str]| (pattern.to_owned(), targets.iter().map(|target| (*target).to_owned()).collect::<Vec<_>>());
    let aliases = aliases_from(&vec![entry("@/*", &["./src/*"]), entry("#x", &[]), entry("@/compat", &["compat/"]), entry("#/*", &["lib/*"])]);
    let shown = aliases.iter().map(|alias| (alias.pattern.as_str(), alias.targets[0].as_str())).collect::<Vec<_>>();
    assert_eq!(shown, vec![("@/compat", "compat"), ("#/*", "lib/*"), ("@/*", "src/*")]);
    let config = "{\"compilerOptions\": {\"paths\": {\"@/*\": [\"./src/*\", 7], \"#x\": [], \"@/compat\": [\"compat/\"], \"#/*\": [\"lib/*\"]}}}";
    assert_eq!(path_aliases(config), aliases);
}
