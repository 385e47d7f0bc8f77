//! What role a path plays.

use vstd::prelude::*;

use crate::laws::words::{lemma_extension_is_ending, lemma_occurs_is_standing, lemma_path_splits, path_to, plain, stands_in};
use crate::query::classify::{classification, marks_generated, marks_test, marks_tooling, marks_vendored, some_directory, FileClassification};

verus! {

/// Whether a directory of some names is among directories.
pub open spec fn among(directories: Seq<Seq<char>>, names: Seq<Seq<char>>) -> bool {
    exists|i: int, k: int| 0 <= i < directories.len() && 0 <= k < names.len() && #[trigger] directories[i] == #[trigger] names[k]
}

proof fn lemma_pieces(directories: Seq<Seq<char>>, name: Seq<char>)
    requires
        plain(directories, name),
    ensures
        classification(path_to(directories, name)) == crate::query::classify::role_of(directories, name),
{
    lemma_path_splits(directories, name);
    assert(directories.push(name).drop_last() =~= directories);
}

/// A path is that of a lock file where its name is one of these, in whatever
/// directories it stands, and nowhere else.
pub proof fn lemma_lock_files_by_name(directories: Seq<Seq<char>>, name: Seq<char>)
    requires
        plain(directories, name),
    ensures
        classification(path_to(directories, name)) == FileClassification::Lockfile <==> {
            ||| name == "Cargo.lock"@
            ||| name == "Gemfile.lock"@
            ||| name == "bun.lockb"@
            ||| name == "composer.lock"@
            ||| name == "go.sum"@
            ||| name == "package-lock.json"@
            ||| name == "pnpm-lock.yaml"@
            ||| name == "poetry.lock"@
            ||| name == "yarn.lock"@
        },
{
    lemma_pieces(directories, name);
}

/// A path that is no lock file is vendored where one of its directories is that
/// of another project's code, and nowhere else.
pub proof fn lemma_vendored_by_directory(directories: Seq<Seq<char>>, name: Seq<char>)
    requires
        plain(directories, name),
        classification(path_to(directories, name)) != FileClassification::Lockfile,
    ensures
        classification(path_to(directories, name)) == FileClassification::Vendored <==> among(
            directories,
            seq!["node_modules"@, "third_party"@, "thirdparty"@, "vendor"@],
        ),
{
    lemma_pieces(directories, name);
    let names = seq!["node_modules"@, "third_party"@, "thirdparty"@, "vendor"@];
    let mark = |s: Seq<char>| marks_vendored(s);
    if some_directory(directories, mark) {
        let i = choose|i: int| 0 <= i < directories.len() && mark(#[trigger] directories[i]);
        let k: int = if directories[i] == "node_modules"@ {
            0
        } else if directories[i] == "third_party"@ {
            1
        } else if directories[i] == "thirdparty"@ {
            2
        } else {
            3
        };
        assert(directories[i] == names[k]);
    }
    if among(directories, names) {
        let (i, k) = choose|i: int, k: int| 0 <= i < directories.len() && 0 <= k < names.len() && #[trigger] directories[i] == #[trigger] names[k];
        assert(mark(directories[i]));
    }
}

/// A path that is neither of those is generated where it stands in a directory
/// of build output, coverage or snapshots, where its name is that of a snapshot,
/// or where its name says so, and nowhere else.
pub proof fn lemma_generated_by_directory_or_name(directories: Seq<Seq<char>>, name: Seq<char>)
    requires
        plain(directories, name),
        classification(path_to(directories, name)) != FileClassification::Lockfile,
        classification(path_to(directories, name)) != FileClassification::Vendored,
    ensures
        classification(path_to(directories, name)) == FileClassification::Generated <==> {
            ||| among(directories, seq![".next"@, "__snapshots__"@, "coverage"@, "dist"@, "generated"@])
            ||| ".snap"@.is_suffix_of(name)
            ||| stands_in(".min."@, name)
            ||| stands_in(".generated."@, name)
            ||| stands_in(".g."@, name)
        },
{
    lemma_pieces(directories, name);
    let names = seq![".next"@, "__snapshots__"@, "coverage"@, "dist"@, "generated"@];
    let mark = |s: Seq<char>| marks_generated(s);
    if some_directory(directories, mark) {
        let i = choose|i: int| 0 <= i < directories.len() && mark(#[trigger] directories[i]);
        let k: int = if directories[i] == ".next"@ {
            0
        } else if directories[i] == "__snapshots__"@ {
            1
        } else if directories[i] == "coverage"@ {
            2
        } else if directories[i] == "dist"@ {
            3
        } else {
            4
        };
        assert(directories[i] == names[k]);
    }
    if among(directories, names) {
        let (i, k) = choose|i: int, k: int| 0 <= i < directories.len() && 0 <= k < names.len() && #[trigger] directories[i] == #[trigger] names[k];
        assert(mark(directories[i]));
    }
    lemma_occurs_is_standing(".min."@, name);
    lemma_occurs_is_standing(".generated."@, name);
    lemma_occurs_is_standing(".g."@, name);
    reveal_strlit("snap");
    reveal_strlit(".snap");
    assert(".snap"@ =~= seq!['.'] + "snap"@);
    lemma_extension_is_ending(name, "snap"@);
}

/// A path that is none of those is a test where it stands in a directory of
/// tests or its name is that of a test, and nowhere else.
pub proof fn lemma_tests_by_directory_or_name(directories: Seq<Seq<char>>, name: Seq<char>)
    requires
        plain(directories, name),
        classification(path_to(directories, name)) != FileClassification::Lockfile,
        classification(path_to(directories, name)) != FileClassification::Vendored,
        classification(path_to(directories, name)) != FileClassification::Generated,
    ensures
        classification(path_to(directories, name)) == FileClassification::Test <==> {
            ||| among(directories, seq!["__mocks__"@, "__tests__"@, "e2e"@, "spec"@, "test"@, "tests"@, "testing"@])
            ||| stands_in(".spec."@, name)
            ||| stands_in(".test."@, name)
            ||| stands_in("_test."@, name)
            ||| stands_in("-test."@, name)
            ||| stands_in(".test-d."@, name)
            ||| "test_"@.is_prefix_of(name)
        },
{
    lemma_pieces(directories, name);
    let names = seq!["__mocks__"@, "__tests__"@, "e2e"@, "spec"@, "test"@, "tests"@, "testing"@];
    let mark = |s: Seq<char>| marks_test(s);
    if some_directory(directories, mark) {
        let i = choose|i: int| 0 <= i < directories.len() && mark(#[trigger] directories[i]);
        let k: int = if directories[i] == "__mocks__"@ {
            0
        } else if directories[i] == "__tests__"@ {
            1
        } else if directories[i] == "e2e"@ {
            2
        } else if directories[i] == "spec"@ {
            3
        } else if directories[i] == "test"@ {
            4
        } else if directories[i] == "tests"@ {
            5
        } else {
            6
        };
        assert(directories[i] == names[k]);
    }
    if among(directories, names) {
        let (i, k) = choose|i: int, k: int| 0 <= i < directories.len() && 0 <= k < names.len() && #[trigger] directories[i] == #[trigger] names[k];
        assert(mark(directories[i]));
    }
    lemma_occurs_is_standing(".spec."@, name);
    lemma_occurs_is_standing(".test."@, name);
    lemma_occurs_is_standing("_test."@, name);
    lemma_occurs_is_standing("-test."@, name);
    lemma_occurs_is_standing(".test-d."@, name);
}

/// A path that is none of those is configuration where its name is that of
/// configuration or begins with a dot, or where one of its directories begins
/// with a dot, and nowhere else. Of the rest, what is prose by its extension is
/// documentation, and anything else is source.
pub proof fn lemma_configuration_docs_and_source(directories: Seq<Seq<char>>, name: Seq<char>)
    requires
        plain(directories, name),
        classification(path_to(directories, name)) != FileClassification::Lockfile,
        classification(path_to(directories, name)) != FileClassification::Vendored,
        classification(path_to(directories, name)) != FileClassification::Generated,
        classification(path_to(directories, name)) != FileClassification::Test,
    ensures
        classification(path_to(directories, name)) == FileClassification::Config <==> {
            ||| name == "Dockerfile"@
            ||| name == "Justfile"@
            ||| name == "Makefile"@
            ||| name == "package.json"@
            ||| name == "renovate.json"@
            ||| name.len() > 0 && name[0] == '.'
            ||| "tsconfig"@.is_prefix_of(name) && ".json"@.is_suffix_of(name)
            ||| stands_in(".config."@, name)
            ||| exists|i: int| 0 <= i < directories.len() && (#[trigger] directories[i]).len() > 0 && directories[i][0] == '.'
        },
        classification(path_to(directories, name)) != FileClassification::Config ==> (classification(path_to(directories, name))
            == FileClassification::Docs <==> {
            ||| ".adoc"@.is_suffix_of(name)
            ||| ".md"@.is_suffix_of(name)
            ||| ".mdx"@.is_suffix_of(name)
            ||| ".rst"@.is_suffix_of(name)
            ||| ".txt"@.is_suffix_of(name)
        }),
        classification(path_to(directories, name)) != FileClassification::Config && classification(path_to(directories, name))
            != FileClassification::Docs ==> classification(path_to(directories, name)) == FileClassification::Source,
{
    lemma_pieces(directories, name);
    reveal_strlit(".");
    assert forall|s: Seq<char>| #[trigger] "."@.is_prefix_of(s) <==> s.len() > 0 && s[0] == '.' by {
        if s.len() > 0 {
            assert(s.subrange(0, 1)[0] == s[0]);
            if s[0] == '.' {
                assert(s.subrange(0, 1) =~= "."@);
            }
        }
    }
    let mark = |s: Seq<char>| marks_tooling(s);
    if some_directory(directories, mark) {
        let i = choose|i: int| 0 <= i < directories.len() && mark(#[trigger] directories[i]);
        assert("."@.is_prefix_of(directories[i]));
    }
    if exists|i: int| 0 <= i < directories.len() && (#[trigger] directories[i]).len() > 0 && directories[i][0] == '.' {
        let i = choose|i: int| 0 <= i < directories.len() && (#[trigger] directories[i]).len() > 0 && directories[i][0] == '.';
        assert("."@.is_prefix_of(directories[i]));
        assert(mark(directories[i]));
    }
    assert("."@.is_prefix_of(name) <==> name.len() > 0 && name[0] == '.');
    lemma_occurs_is_standing(".config."@, name);
    reveal_strlit("json");
    reveal_strlit(".json");
    assert(".json"@ =~= seq!['.'] + "json"@);
    lemma_extension_is_ending(name, "json"@);
    reveal_strlit("adoc");
    reveal_strlit(".adoc");
    assert(".adoc"@ =~= seq!['.'] + "adoc"@);
    lemma_extension_is_ending(name, "adoc"@);
    reveal_strlit("md");
    reveal_strlit(".md");
    assert(".md"@ =~= seq!['.'] + "md"@);
    lemma_extension_is_ending(name, "md"@);
    reveal_strlit("mdx");
    reveal_strlit(".mdx");
    assert(".mdx"@ =~= seq!['.'] + "mdx"@);
    lemma_extension_is_ending(name, "mdx"@);
    reveal_strlit("rst");
    reveal_strlit(".rst");
    assert(".rst"@ =~= seq!['.'] + "rst"@);
    lemma_extension_is_ending(name, "rst"@);
    reveal_strlit("txt");
    reveal_strlit(".txt");
    assert(".txt"@ =~= seq!['.'] + "txt"@);
    lemma_extension_is_ending(name, "txt"@);
}

} // verus!
