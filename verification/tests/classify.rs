use diffscope::query::classify::{classify, FileClassification};

const DOCUMENTED_ORDER: &[FileClassification] = &[
    FileClassification::Lockfile,
    FileClassification::Vendored,
    FileClassification::Generated,
    FileClassification::Test,
    FileClassification::Config,
    FileClassification::Docs,
    FileClassification::Source,
];

#[test]
fn classifies_each_documented_role() {
    for (path, expected) in [
        ("pnpm-lock.yaml", FileClassification::Lockfile),
        ("node_modules/vue/index.js", FileClassification::Vendored),
        ("packages/vue/dist/vue.js", FileClassification::Generated),
        (
            "packages/compiler-sfc/__tests__/compileScript.spec.ts",
            FileClassification::Test,
        ),
        (".github/workflows/ci.yml", FileClassification::Config),
        ("CHANGELOG.md", FileClassification::Docs),
        (
            "packages/runtime-core/src/renderer.ts",
            FileClassification::Source,
        ),
    ] {
        assert_eq!(classify(path), expected, "{path}");
    }
}

#[test]
fn resolves_overlapping_roles_in_documented_order() {
    // A snapshot lives under `__tests__` but is machine-written, and the
    // earlier rule must win so it is not offered up as a test to read.
    assert_eq!(
        classify("packages/compiler-sfc/__tests__/__snapshots__/compileScript.spec.ts.snap"),
        FileClassification::Generated
    );
    // A lock file inside a vendored tree is still a lock file.
    assert_eq!(
        classify("vendor/project/Cargo.lock"),
        FileClassification::Lockfile
    );
    // Declaration tests are tests, not type declarations.
    assert_eq!(
        classify("packages-private/dts-test/setupHelpers.test-d.ts"),
        FileClassification::Test
    );
}

#[test]
fn treats_tooling_directories_as_configuration() {
    assert_eq!(
        classify(".vite-hooks/_/commit-msg"),
        FileClassification::Config
    );
    assert_eq!(classify(".gitignore"), FileClassification::Config);
    assert_eq!(classify("tsconfig.build.json"), FileClassification::Config);
}

#[test]
fn keeps_source_directories_that_merely_look_generated() {
    // `build` and `out` are excluded from the generated rule precisely
    // because they are ordinary source directory names.
    assert_eq!(
        classify("packages/compiler/src/build/emitter.ts"),
        FileClassification::Source
    );
    assert!(!classify("src/testing/harness.ts").is_source());
}

#[test]
fn round_trips_every_classification_name() {
    for classification in DOCUMENTED_ORDER {
        assert_eq!(
            FileClassification::parse(classification.as_str()),
            Some(*classification)
        );
    }
    assert_eq!(FileClassification::parse("nonsense"), None);
}
