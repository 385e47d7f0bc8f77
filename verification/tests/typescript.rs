use diffscope::languages::{analyze_source, detect_language, DiagnosticSeverity, FunctionKind, Language, LanguageDiagnosticCode};

#[test]
fn detects_typescript_extensions() {
    assert_eq!(
        detect_language("index.ts"),
        Some(Language::TypeScript)
    );
    assert_eq!(detect_language("index.tsx"), Some(Language::Tsx));
    assert_eq!(detect_language("index.js"), None);
}

#[test]
fn inventories_typescript_functions_and_methods() {
    let source = br"
function topLevel(value: number): number { return value + 1; }
const assigned = (name: string) => name.toUpperCase();
class Greeter {
  constructor(private name: string) {}
  greet(): string { return this.name; }
}
";

    let analysis = analyze_source("sample.ts", source).expect("analysis succeeds");
    let names = analysis
        .functions
        .iter()
        .map(|function| (function.qualified_name.as_str(), function.kind))
        .collect::<Vec<_>>();

    assert_eq!(analysis.language, Some(Language::TypeScript));
    assert!(analysis.diagnostics.is_empty());
    assert!(names.contains(&("topLevel", FunctionKind::Function)));
    assert!(names.contains(&("assigned", FunctionKind::ArrowFunction)));
    assert!(names.contains(&("Greeter.constructor", FunctionKind::Constructor)));
    assert!(names.contains(&("Greeter.greet", FunctionKind::Method)));
}

#[test]
fn calculates_loc_metrics() {
    let source = br"
function measured() {
  // comment only

  return 1; // mixed code and comment
}
";

    let analysis = analyze_source("sample.ts", source).expect("analysis succeeds");
    let metrics = &analysis.functions[0].metrics;

    assert_eq!(metrics.physical_loc, 5);
    assert_eq!(metrics.source_loc, 3);
}

#[test]
fn calculates_complexity_metrics() {
    let source = br"
function complex(a: boolean, b: boolean, items: number[]) {
  if (a && b) {
for (const item of items) { console.log(item); }
  } else {
while (b) { break; }
  }
  return a ? 1 : 0;
}
";

    let analysis = analyze_source("sample.ts", source).expect("analysis succeeds");
    let metrics = &analysis.functions[0].metrics;

    assert_eq!(metrics.cyclomatic_complexity, 6);
    assert_eq!(metrics.cognitive_complexity, 7);
}

#[test]
fn inventories_function_expressions_over_their_whole_range() {
    let source = br"
const named = function (flag: boolean): number {
  if (flag) {
return 1;
  }
  return 0;
};
";

    let analysis = analyze_source("sample.ts", source).expect("analysis succeeds");

    assert_eq!(analysis.functions.len(), 1);
    let function = &analysis.functions[0];
    assert_eq!(function.qualified_name, "named");
    assert_eq!(function.kind, FunctionKind::Function);
    assert_eq!(function.metrics.physical_loc, 6);
    assert_eq!(function.metrics.cyclomatic_complexity, 2);
    assert_eq!(function.metrics.cognitive_complexity, 1);
}

#[test]
fn inventories_async_declarations_once() {
    let source = br"
async function loadAll(urls: string[]): Promise<string[]> {
  return urls;
}
";

    let analysis = analyze_source("sample.ts", source).expect("analysis succeeds");

    assert_eq!(analysis.functions.len(), 1);
    assert_eq!(analysis.functions[0].qualified_name, "loadAll");
    assert_eq!(analysis.functions[0].metrics.physical_loc, 3);
}

#[test]
fn counts_switch_case_clauses_as_decisions() {
    let source = br#"
function classify(kind: string): number {
  switch (kind) {
case "a":
  return 1;
case "b":
  return 2;
case "c":
  return 3;
default:
  return 0;
  }
}
"#;

    let analysis = analyze_source("sample.ts", source).expect("analysis succeeds");
    let metrics = &analysis.functions[0].metrics;

    assert_eq!(metrics.cyclomatic_complexity, 4);
    assert_eq!(metrics.cognitive_complexity, 3);
}

#[test]
fn nests_decisions_inside_switch_case_clauses() {
    let source = br#"
function classify(kind: string, flag: boolean): number {
  switch (kind) {
case "a":
  if (flag) {
    return 1;
  }
  return 2;
default:
  return 0;
  }
}
"#;

    let analysis = analyze_source("sample.ts", source).expect("analysis succeeds");
    let metrics = &analysis.functions[0].metrics;

    assert_eq!(metrics.cyclomatic_complexity, 3);
    assert_eq!(metrics.cognitive_complexity, 3);
}

#[test]
fn excludes_nested_functions_from_complexity_metrics() {
    let source = br"
function outer() {
  function inner() {
if (true) { return 1; }
  }
  return 0;
}
";

    let analysis = analyze_source("sample.ts", source).expect("analysis succeeds");
    let outer = analysis
        .functions
        .iter()
        .find(|function| function.qualified_name == "outer")
        .expect("outer function exists");

    assert_eq!(outer.metrics.cyclomatic_complexity, 1);
    assert_eq!(outer.metrics.cognitive_complexity, 0);
}

#[test]
fn reports_malformed_source_without_panicking() {
    let analysis = analyze_source("broken.ts", b"function broken( {")
        .expect("analysis succeeds");

    assert!(analysis.diagnostics.iter().any(|diagnostic| {
        diagnostic.code == LanguageDiagnosticCode::MalformedSource
            && diagnostic.severity == DiagnosticSeverity::Warning
    }));
}

#[test]
fn reports_invalid_utf8_without_panicking() {
    let analysis =
        analyze_source("bad.ts", &[0xff, 0xfe]).expect("analysis succeeds");

    assert!(analysis.functions.is_empty());
    assert!(analysis.diagnostics.iter().any(|diagnostic| {
        diagnostic.code == LanguageDiagnosticCode::InvalidUtf8
            && diagnostic.severity == DiagnosticSeverity::Error
    }));
}

#[test]
fn reports_unsupported_language() {
    let analysis =
        analyze_source("readme.md", b"# title").expect("analysis succeeds");

    assert_eq!(analysis.language, None);
    assert!(analysis.diagnostics.iter().any(|diagnostic| {
        diagnostic.code == LanguageDiagnosticCode::UnsupportedLanguage
            && diagnostic.severity == DiagnosticSeverity::Info
    }));
}
