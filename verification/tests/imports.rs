use diffscope::collections::{TextMap, TextSet};
use diffscope::imports::config::strip_jsonc;
use diffscope::imports::resolve::{apply_alias, join, resolve};
use diffscope::imports::{FileSymbols, ImportIndex, PathAlias, SymbolIndex};
use diffscope::languages::modules::{ExportedSymbol, ImportBinding, ImportedName};
use diffscope::languages::SourceRange;

fn range(line: u32) -> SourceRange {
    SourceRange {
        start_line: line,
        start_column: 0,
        end_line: line + 2,
        end_column: 1,
    }
}

/// A file exporting one name, defined locally as a function.
fn defines(name: &str, line: u32) -> FileSymbols {
    FileSymbols {
        exports: exporting(
            name,
            ExportedSymbol {
                local: name.to_owned(),
                from: None,
                function: Some(range(line)),
                line,
            },
        ),
        ..nothing()
    }
}

/// A file forwarding one name from another module.
fn forwards(exported: &str, local: &str, specifier: &str) -> FileSymbols {
    FileSymbols {
        exports: exporting(
            exported,
            ExportedSymbol {
                local: local.to_owned(),
                from: Some(specifier.to_owned()),
                function: None,
                line: 1,
            },
        ),
        re_exported_modules: tree(&[specifier]),
        ..nothing()
    }
}

fn tree(paths: &[&str]) -> TextSet {
    TextSet::from_list(&paths.iter().map(|path| (*path).to_owned()).collect())
}

/// A file that publishes and declares nothing.
fn nothing() -> FileSymbols {
    FileSymbols { exports: TextMap::new(), re_exported_modules: TextSet::new(), functions: Vec::new() }
}

fn exporting(name: &str, symbol: ExportedSymbol) -> TextMap<ExportedSymbol> {
    let mut exports = TextMap::new();
    exports.insert(name.to_owned(), symbol);
    exports
}

/// Record one import binding and the path its specifier resolves to.
fn bind(index: &mut ImportIndex, from: &str, local: &str, imported: ImportedName, specifier: &str, target: &str, line: u32) {
    index.add_binding(from, local, ImportBinding { imported, specifier: specifier.to_owned(), line });
    forward(index, from, specifier, target, line);
}

/// Record a re-export's resolved specifier without binding a local name.
fn forward(index: &mut ImportIndex, from: &str, specifier: &str, target: &str, line: u32) {
    index.add_file(from);
    index.add_file(target);
    index.add_specifier(from, specifier, line, Some(target.to_owned()));
}

/// The entries of a map, in ascending order of keys.
fn entries(map: &TextMap<u32>) -> Vec<(&str, u32)> {
    (0..map.len()).map(|i| (map.key_at(i), *map.value_at(i))).collect()
}

#[test]
fn resolves_relative_specifiers_to_real_files() {
    let paths = tree(&[
        "src/renderer.ts",
        "src/shared/index.ts",
        "src/vnode.tsx",
        "src/legacy.js",
    ]);

    let from = "src/renderer.ts";
    let at = |specifier| resolve(specifier, from, &paths, &vec![]);

    assert_eq!(at("./vnode"), Some("src/vnode.tsx".to_owned()));
    assert_eq!(at("./shared"), Some("src/shared/index.ts".to_owned()));
    assert_eq!(at("./legacy"), Some("src/legacy.js".to_owned()));
    assert_eq!(
        resolve("../renderer", "src/shared/index.ts", &paths, &vec![]),
        Some("src/renderer.ts".to_owned())
    );
    // A package this revision does not contain is external, not a guess.
    assert_eq!(at("estree-walker"), None);
    assert_eq!(at("./missing"), None);
}

#[test]
fn resolves_workspace_specifiers_through_tsconfig_aliases() {
    // Without these, 18.4% of a real Vue revision's specifiers look
    // external and every cross-package edge disappears.
    let paths = tree(&[
        "packages/shared/src/index.ts",
        "packages/vue-compat/src/index.ts",
        "packages/runtime-core/src/renderer.ts",
    ]);
    let aliases = vec![
        PathAlias {
            pattern: "@vue/compat".to_owned(),
            targets: vec!["packages/vue-compat/src".to_owned()],
        },
        PathAlias {
            pattern: "@vue/*".to_owned(),
            targets: vec!["packages/*/src".to_owned()],
        },
    ];
    let from = "packages/runtime-core/src/renderer.ts";

    assert_eq!(
        resolve("@vue/shared", from, &paths, &aliases),
        Some("packages/shared/src/index.ts".to_owned())
    );
    // The exact pattern must win over the wildcard.
    assert_eq!(
        resolve("@vue/compat", from, &paths, &aliases),
        Some("packages/vue-compat/src/index.ts".to_owned())
    );
}

#[test]
fn substitutes_only_matching_alias_patterns() {
    let wildcard = PathAlias {
        pattern: "@vue/*".to_owned(),
        targets: vec!["packages/*/src".to_owned()],
    };
    assert_eq!(
        apply_alias(&wildcard, "@vue/shared"),
        Some("packages/shared/src".to_owned())
    );
    assert_eq!(apply_alias(&wildcard, "lodash"), None);

    let exact = PathAlias {
        pattern: "vue".to_owned(),
        targets: vec!["packages/vue/src".to_owned()],
    };
    assert_eq!(
        apply_alias(&exact, "vue"),
        Some("packages/vue/src".to_owned())
    );
    assert_eq!(apply_alias(&exact, "vuex"), None);
}

#[test]
fn joins_relative_paths_through_parent_segments() {
    assert_eq!(join("src/compiler", "./parse"), "src/compiler/parse");
    assert_eq!(
        join("src/compiler", "../runtime/index"),
        "src/runtime/index"
    );
    assert_eq!(join("", "./root"), "root");
}

#[test]
fn reads_tsconfig_with_comments_and_trailing_commas() {
    // TypeScript accepts both and real configurations use them, so a strict
    // JSON parse of a `tsconfig.json` fails outright.
    let text = r#"{
  // a line comment
  "compilerOptions": {
/* a block comment */
"paths": {
  "@vue/*": ["./packages/*/src"],
},
  },
}"#;
    let value: serde_json::Value =
        serde_json::from_str(&strip_jsonc(text)).expect("config parses after stripping");

    assert_eq!(
        value["compilerOptions"]["paths"]["@vue/*"][0],
        "./packages/*/src"
    );
}

#[test]
fn leaves_comment_markers_inside_strings_alone() {
    let text = r#"{"paths":{"http://example.invalid/*":["./a"]}}"#;
    let value: serde_json::Value =
        serde_json::from_str(&strip_jsonc(text)).expect("config parses");

    assert!(value["paths"].get("http://example.invalid/*").is_some());
}

#[test]
fn walks_importers_breadth_first_within_a_depth_limit() {
    let mut index = ImportIndex::new();
    for (importer, imported) in [
        ("app.ts", "middle.ts"),
        ("middle.ts", "core.ts"),
        ("direct.ts", "core.ts"),
    ] {
        index.add_link(importer, imported);
    }

    assert_eq!(
        index.importers("core.ts").to_vec(),
        vec!["direct.ts".to_owned(), "middle.ts".to_owned()]
    );
    assert_eq!(
        entries(&index.reachable_importers("core.ts", 1)),
        vec![("direct.ts", 1), ("middle.ts", 1)]
    );
    // `app.ts` only reaches `core.ts` through `middle.ts`.
    assert_eq!(
        entries(&index.reachable_importers("core.ts", 2)),
        vec![("app.ts", 2), ("direct.ts", 1), ("middle.ts", 1)]
    );
}

#[test]
fn reports_the_earliest_line_a_resolved_edge_was_seen_at() {
    let mut index = ImportIndex::new();
    index.add_edge("src/app.ts", "src/core.ts", 7);
    index.add_edge("src/app.ts", "src/core.ts", 3);

    assert_eq!(index.import_line("src/app.ts", "src/core.ts"), Some(3));
    // An edge this revision does not have has no site to report, in either
    // direction.
    assert_eq!(index.import_line("src/core.ts", "src/app.ts"), None);
    assert_eq!(index.import_line("src/app.ts", "src/other.ts"), None);
}

#[test]
fn resolves_a_name_the_importing_module_exports_itself() {
    let mut imports = ImportIndex::new();
    bind(
        &mut imports,
        "src/app.ts",
        "strip",
        ImportedName::Named("stripComments".to_owned()),
        "./parse",
        "src/parse.ts",
        3,
    );
    let mut symbols = SymbolIndex::new();
    symbols.insert("src/parse.ts", defines("stripComments", 12));

    let binding = imports.bindings("src/app.ts").get("strip").expect("the name is bound");
    let ImportedName::Named(exported) = &binding.imported else {
        panic!("named import");
    };
    let target = imports
        .resolve_specifier("src/app.ts", &binding.specifier)
        .expect("specifier resolves");
    let definition = symbols
        .definition(&imports, target, exported)
        .expect("definition resolves");

    assert_eq!(definition.path, "src/parse.ts");
    assert_eq!(definition.local, "stripComments");
    assert_eq!(definition.range.start_line, 12);
    // Reached without leaving the module the import named.
    assert_eq!(definition.hops, 0);
}

#[test]
fn follows_a_re_export_chain_and_counts_its_hops() {
    let mut imports = ImportIndex::new();
    forward(&mut imports, "src/index.ts", "./barrel", "src/barrel.ts", 1);
    forward(&mut imports, "src/barrel.ts", "./parse", "src/parse.ts", 1);
    let mut symbols = SymbolIndex::new();
    // `export { stripComments } from "./barrel"`, itself forwarding from
    // the module that declares it.
    symbols.insert(
        "src/index.ts",
        forwards("stripComments", "stripComments", "./barrel"),
    );
    symbols.insert(
        "src/barrel.ts",
        forwards("stripComments", "stripComments", "./parse"),
    );
    symbols.insert("src/parse.ts", defines("stripComments", 40));

    let definition = symbols
        .definition(&imports, "src/index.ts", "stripComments")
        .expect("definition resolves");

    assert_eq!(definition.path, "src/parse.ts");
    assert_eq!(definition.hops, 2);
}

#[test]
fn resolves_a_renamed_export_under_the_name_behind_it() {
    let mut imports = ImportIndex::new();
    forward(&mut imports, "src/index.ts", "./parse", "src/parse.ts", 1);
    let mut symbols = SymbolIndex::new();
    symbols.insert(
        "src/index.ts",
        forwards("strip", "stripComments", "./parse"),
    );
    symbols.insert("src/parse.ts", defines("stripComments", 9));

    let definition = symbols
        .definition(&imports, "src/index.ts", "strip")
        .expect("definition resolves");

    assert_eq!(definition.local, "stripComments");
    assert_eq!(definition.hops, 1);
}

#[test]
fn refuses_to_guess_through_a_whole_module_re_export() {
    let mut imports = ImportIndex::new();
    forward(&mut imports, "src/index.ts", "./parse", "src/parse.ts", 1);
    let mut symbols = SymbolIndex::new();
    // `export * from "./parse"` records the module it forwards from and no
    // name, because the names it publishes live in a file the scan of the
    // re-exporting module never read.
    symbols.insert(
        "src/index.ts",
        FileSymbols {
            re_exported_modules: tree(&["./parse"]),
            ..nothing()
        },
    );
    symbols.insert("src/parse.ts", defines("stripComments", 9));

    assert!(symbols.definition(&imports, "src/index.ts", "stripComments").is_none());
}

#[test]
fn resolves_nothing_through_a_specifier_this_revision_does_not_have() {
    let imports = ImportIndex::new();
    let mut symbols = SymbolIndex::new();
    symbols.insert("src/index.ts", forwards("strip", "strip", "@vue/shared"));

    assert!(symbols.definition(&imports, "src/index.ts", "strip").is_none());
}

#[test]
fn resolves_nothing_for_an_exported_name_that_is_not_a_function() {
    let imports = ImportIndex::new();
    let mut symbols = SymbolIndex::new();
    symbols.insert(
        "src/config.ts",
        FileSymbols {
            exports: exporting(
                "LIMIT",
                ExportedSymbol {
                    local: "LIMIT".to_owned(),
                    from: None,
                    function: None,
                    line: 2,
                },
            ),
            ..nothing()
        },
    );

    assert!(symbols.definition(&imports, "src/config.ts", "LIMIT").is_none());
}

#[test]
fn stops_following_a_cyclic_re_export_chain() {
    let mut imports = ImportIndex::new();
    forward(&mut imports, "src/a.ts", "./b", "src/b.ts", 1);
    forward(&mut imports, "src/b.ts", "./a", "src/a.ts", 1);
    let mut symbols = SymbolIndex::new();
    symbols.insert("src/a.ts", forwards("loop", "loop", "./b"));
    symbols.insert("src/b.ts", forwards("loop", "loop", "./a"));

    assert!(symbols.definition(&imports, "src/a.ts", "loop").is_none());
}

#[test]
fn covers_only_the_paths_it_was_built_over() {
    let mut symbols = SymbolIndex::new();
    symbols.insert("src/parse.ts", defines("stripComments", 4));

    assert!(symbols.covers("src/parse.ts"));
    // A path outside the bound was never parsed, which is not the same as
    // a file that exports nothing.
    assert!(!symbols.covers("src/untouched.ts"));
    assert_eq!(symbols.paths(), vec!["src/parse.ts".to_owned()]);
}
