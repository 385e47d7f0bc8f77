//! Classify a repository path by the role its file plays.
//!
//! Classification is derived from the path alone, and is therefore identical for
//! the same path on every machine. Rules are ordered and the first match wins,
//! so a snapshot under `__tests__` is reported as generated rather than as a
//! test that someone is expected to read.

use vstd::prelude::*;

use crate::text::{after_last, behind_last, contains_text, occurs_in, same_text, split_on, split_text, starts_with, texts};

verus! {

/// The role a changed file plays, in the order the rules are evaluated.
#[derive(Debug, Clone, Copy, PartialEq, Eq, PartialOrd, Ord, Structural)]
pub enum FileClassification {
    /// A dependency lock file. Large, machine-written, rarely reviewed by hand.
    Lockfile,
    /// Code vendored from another project.
    Vendored,
    /// Build output, snapshots, and other machine-written files.
    Generated,
    /// Tests, fixtures, and mocks.
    Test,
    /// Build, tooling, and CI configuration.
    Config,
    /// Prose documentation.
    Docs,
    /// Everything else: the code the change is actually about.
    Source,
}

/// The name of a classification.
pub open spec fn classification_word(c: FileClassification) -> Seq<char> {
    match c {
        FileClassification::Lockfile => "lockfile"@,
        FileClassification::Vendored => "vendored"@,
        FileClassification::Generated => "generated"@,
        FileClassification::Test => "test"@,
        FileClassification::Config => "config"@,
        FileClassification::Docs => "docs"@,
        FileClassification::Source => "source"@,
    }
}

/// The classification of a name.
pub open spec fn classification_named(name: Seq<char>) -> Option<FileClassification> {
    if name == "lockfile"@ {
        Some(FileClassification::Lockfile)
    } else if name == "vendored"@ {
        Some(FileClassification::Vendored)
    } else if name == "generated"@ {
        Some(FileClassification::Generated)
    } else if name == "test"@ {
        Some(FileClassification::Test)
    } else if name == "config"@ {
        Some(FileClassification::Config)
    } else if name == "docs"@ {
        Some(FileClassification::Docs)
    } else if name == "source"@ {
        Some(FileClassification::Source)
    } else {
        None
    }
}

/// Every classification is found under its name, and under no other.
pub proof fn lemma_classification_round_trip(c: FileClassification, name: Seq<char>)
    ensures
        classification_named(classification_word(c)) == Some(c),
        classification_named(name) == Some(c) ==> name == classification_word(c),
{
    reveal_strlit("lockfile");
    reveal_strlit("vendored");
    reveal_strlit("generated");
    reveal_strlit("test");
    reveal_strlit("config");
    reveal_strlit("docs");
    reveal_strlit("source");
    assert("lockfile"@[0] == 'l' && "vendored"@[0] == 'v' && "generated"@[0] == 'g' && "test"@[0] == 't' && "config"@[0] == 'c' && "docs"@[0]
        == 'd' && "source"@[0] == 's');
}

impl FileClassification {
    /// Whether this file is the project's own production code.
    #[must_use]
    pub fn is_source(self) -> (r: bool)
        ensures
            r == (self == FileClassification::Source),
    {
        self == FileClassification::Source
    }

    #[must_use]
    pub fn as_str(self) -> (r: &'static str)
        ensures
            r@ == classification_word(self),
    {
        match self {
            FileClassification::Lockfile => "lockfile",
            FileClassification::Vendored => "vendored",
            FileClassification::Generated => "generated",
            FileClassification::Test => "test",
            FileClassification::Config => "config",
            FileClassification::Docs => "docs",
            FileClassification::Source => "source",
        }
    }

    /// Parse a classification name as a caller supplies it in a query.
    #[must_use]
    pub fn parse(value: &str) -> (r: Option<Self>)
        ensures
            r == classification_named(value@),
    {
        if same_text(value, "lockfile") {
            Some(FileClassification::Lockfile)
        } else if same_text(value, "vendored") {
            Some(FileClassification::Vendored)
        } else if same_text(value, "generated") {
            Some(FileClassification::Generated)
        } else if same_text(value, "test") {
            Some(FileClassification::Test)
        } else if same_text(value, "config") {
            Some(FileClassification::Config)
        } else if same_text(value, "docs") {
            Some(FileClassification::Docs)
        } else if same_text(value, "source") {
            Some(FileClassification::Source)
        } else {
            None
        }
    }
}

/// Whether a file name is that of a lock file.
pub open spec fn names_lockfile(name: Seq<char>) -> bool {
    ||| name == "Cargo.lock"@
    ||| name == "Gemfile.lock"@
    ||| name == "bun.lockb"@
    ||| name == "composer.lock"@
    ||| name == "go.sum"@
    ||| name == "package-lock.json"@
    ||| name == "pnpm-lock.yaml"@
    ||| name == "poetry.lock"@
    ||| name == "yarn.lock"@
}

fn lockfile(name: &str) -> (r: bool)
    ensures
        r == names_lockfile(name@),
{
    same_text(name, "Cargo.lock") || same_text(name, "Gemfile.lock") || same_text(name, "bun.lockb") || same_text(name, "composer.lock")
        || same_text(name, "go.sum") || same_text(name, "package-lock.json") || same_text(name, "pnpm-lock.yaml") || same_text(
        name,
        "poetry.lock",
    ) || same_text(name, "yarn.lock")
}

/// Whether a directory name marks code owned by another project.
pub open spec fn marks_vendored(segment: Seq<char>) -> bool {
    segment == "node_modules"@ || segment == "third_party"@ || segment == "thirdparty"@ || segment == "vendor"@
}

/// Whether the contents of a directory of a name are machine-written.
///
/// `build`, `out` and `target` are not among them: they are common enough as
/// names of ordinary source directories.
pub open spec fn marks_generated(segment: Seq<char>) -> bool {
    segment == ".next"@ || segment == "__snapshots__"@ || segment == "coverage"@ || segment == "dist"@ || segment == "generated"@
}

/// Whether a directory name marks tests, fixtures, and mocks.
pub open spec fn marks_test(segment: Seq<char>) -> bool {
    ||| segment == "__mocks__"@
    ||| segment == "__tests__"@
    ||| segment == "e2e"@
    ||| segment == "spec"@
    ||| segment == "test"@
    ||| segment == "tests"@
    ||| segment == "testing"@
}

/// Whether a directory name begins with a dot, as those of tooling do.
pub open spec fn marks_tooling(segment: Seq<char>) -> bool {
    "."@.is_prefix_of(segment)
}

/// Whether one of the directories of a path satisfies a condition.
pub open spec fn some_directory(directories: Seq<Seq<char>>, mark: spec_fn(Seq<char>) -> bool) -> bool {
    exists|i: int| 0 <= i < directories.len() && mark(#[trigger] directories[i])
}

/// Whether a file name is that of a machine-written file.
pub open spec fn names_generated(name: Seq<char>) -> bool {
    ||| behind_last(name, '.') == Some("snap"@)
    ||| occurs_in(".min."@, name)
    ||| occurs_in(".generated."@, name)
    ||| occurs_in(".g."@, name)
}

fn generated_name(name: &str) -> (r: bool)
    ensures
        r == names_generated(name@),
{
    extension_is(name, "snap") || contains_text(name, ".min.") || contains_text(name, ".generated.") || contains_text(name, ".g.")
}

/// Whether a file name is that of a test.
pub open spec fn names_test(name: Seq<char>) -> bool {
    ||| occurs_in(".spec."@, name)
    ||| occurs_in(".test."@, name)
    ||| occurs_in("_test."@, name)
    ||| occurs_in("-test."@, name)
    ||| occurs_in(".test-d."@, name)
    ||| "test_"@.is_prefix_of(name)
}

fn test_name(name: &str) -> (r: bool)
    ensures
        r == names_test(name@),
{
    contains_text(name, ".spec.") || contains_text(name, ".test.") || contains_text(name, "_test.") || contains_text(name, "-test.")
        || contains_text(name, ".test-d.") || starts_with(name, "test_")
}

/// Whether a file name is that of configuration.
pub open spec fn names_config(name: Seq<char>) -> bool {
    ||| name == "Dockerfile"@
    ||| name == "Justfile"@
    ||| name == "Makefile"@
    ||| name == "package.json"@
    ||| name == "renovate.json"@
    ||| "."@.is_prefix_of(name)
    ||| "tsconfig"@.is_prefix_of(name) && behind_last(name, '.') == Some("json"@)
    ||| occurs_in(".config."@, name)
}

fn config_name(name: &str) -> (r: bool)
    ensures
        r == names_config(name@),
{
    same_text(name, "Dockerfile") || same_text(name, "Justfile") || same_text(name, "Makefile") || same_text(name, "package.json")
        || same_text(name, "renovate.json") || starts_with(name, ".") || (starts_with(name, "tsconfig") && extension_is(name, "json"))
        || contains_text(name, ".config.")
}

/// Whether a file name is that of prose.
pub open spec fn names_docs(name: Seq<char>) -> bool {
    let ext = behind_last(name, '.');
    ext == Some("adoc"@) || ext == Some("md"@) || ext == Some("mdx"@) || ext == Some("rst"@) || ext == Some("txt"@)
}

fn docs_name(name: &str) -> (r: bool)
    ensures
        r == names_docs(name@),
{
    extension_is(name, "adoc") || extension_is(name, "md") || extension_is(name, "mdx") || extension_is(name, "rst") || extension_is(
        name,
        "txt",
    )
}

fn extension_is(name: &str, wanted: &str) -> (r: bool)
    ensures
        r == (behind_last(name@, '.') == Some(wanted@)),
{
    match after_last(name, '.') {
        Some(ext) => same_text(ext.as_str(), wanted),
        None => false,
    }
}

/// The role of a file of a name in directories: the first rule that applies.
pub open spec fn role_of(directories: Seq<Seq<char>>, name: Seq<char>) -> FileClassification {
    if names_lockfile(name) {
        FileClassification::Lockfile
    } else if some_directory(directories, |s: Seq<char>| marks_vendored(s)) {
        FileClassification::Vendored
    } else if some_directory(directories, |s: Seq<char>| marks_generated(s)) || names_generated(name) {
        FileClassification::Generated
    } else if some_directory(directories, |s: Seq<char>| marks_test(s)) || names_test(name) {
        FileClassification::Test
    } else if names_config(name) || some_directory(directories, |s: Seq<char>| marks_tooling(s)) {
        FileClassification::Config
    } else if names_docs(name) {
        FileClassification::Docs
    } else {
        FileClassification::Source
    }
}

/// The role a repository-relative path plays.
pub open spec fn classification(path: Seq<char>) -> FileClassification {
    let pieces = split_on(path, '/');
    role_of(pieces.drop_last(), pieces.last())
}

/// Decide what role a repository-relative path plays.
#[must_use]
pub fn classify(path: &str) -> (r: FileClassification)
    ensures
        r == classification(path@),
{
    let pieces = split_text(path, '/');
    let ghost names = split_on(path@, '/');
    let ghost directories = names.drop_last();
    let last: usize = pieces.len() - 1;
    assert(names[last as int] == pieces@[last as int]@);
    let name = pieces[last].as_str();
    let ghost vendored_mark = |s: Seq<char>| marks_vendored(s);
    let ghost generated_mark = |s: Seq<char>| marks_generated(s);
    let ghost test_mark = |s: Seq<char>| marks_test(s);
    let ghost tooling_mark = |s: Seq<char>| marks_tooling(s);
    let mut vendored = false;
    let mut generated = false;
    let mut test = false;
    let mut tooling = false;
    let mut i: usize = 0;
    while i < last
        invariant
            i <= last == pieces.len() - 1,
            names == texts(pieces@),
            directories == names.drop_last(),
            vendored_mark == |s: Seq<char>| marks_vendored(s),
            generated_mark == |s: Seq<char>| marks_generated(s),
            test_mark == |s: Seq<char>| marks_test(s),
            tooling_mark == |s: Seq<char>| marks_tooling(s),
            vendored == exists|k: int| 0 <= k < i && vendored_mark(#[trigger] directories[k]),
            generated == exists|k: int| 0 <= k < i && generated_mark(#[trigger] directories[k]),
            test == exists|k: int| 0 <= k < i && test_mark(#[trigger] directories[k]),
            tooling == exists|k: int| 0 <= k < i && tooling_mark(#[trigger] directories[k]),
        decreases last - i,
    {
        assert(directories[i as int] == pieces@[i as int]@);
        let segment = pieces[i].as_str();
        if same_text(segment, "node_modules") || same_text(segment, "third_party") || same_text(segment, "thirdparty") || same_text(
            segment,
            "vendor",
        ) {
            assert(vendored_mark(directories[i as int]));
            vendored = true;
        }
        if same_text(segment, ".next") || same_text(segment, "__snapshots__") || same_text(segment, "coverage") || same_text(
            segment,
            "dist",
        ) || same_text(segment, "generated") {
            assert(generated_mark(directories[i as int]));
            generated = true;
        }
        if same_text(segment, "__mocks__") || same_text(segment, "__tests__") || same_text(segment, "e2e") || same_text(segment, "spec")
            || same_text(segment, "test") || same_text(segment, "tests") || same_text(segment, "testing") {
            assert(test_mark(directories[i as int]));
            test = true;
        }
        if starts_with(segment, ".") {
            assert(tooling_mark(directories[i as int]));
            tooling = true;
        }
        i = i + 1;
    }
    if lockfile(name) {
        FileClassification::Lockfile
    } else if vendored {
        FileClassification::Vendored
    } else if generated || generated_name(name) {
        FileClassification::Generated
    } else if test || test_name(name) {
        FileClassification::Test
    } else if config_name(name) || tooling {
        FileClassification::Config
    } else if docs_name(name) {
        FileClassification::Docs
    } else {
        FileClassification::Source
    }
}

} // verus!
