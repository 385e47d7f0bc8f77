//! What else a change reaches, and which tests are likely to cover it.
//!
//! These answers come from the import graph of the target revision, so they
//! describe files the diff does not contain. Everything here is measured from
//! resolved edges or from naming convention, and each result says which.

use vstd::prelude::*;

use crate::analysis::saturated;
use crate::collections::{lemma_listed, listed, TextSet};
use crate::graph::count;
use crate::graph::reach::within;
use crate::imports::{import_hop, ImportIndex, IndexView};
use crate::order::picked;
use crate::query::classify::{classification, classify, FileClassification};
use crate::text::{after_last, before_first, behind_last, chars_of, ends_with, same_text, text_of, up_to};

verus! {

/// Hops followed when measuring how much of a revision reaches a file.
///
/// A barrel module is imported by most of its package, so this number grows
/// quickly and is reported as a coupling measure, not as a list.
pub const MAX_REACH_DEPTH: u32 = 2;

/// How a test was connected to a changed file.
#[derive(Debug, Clone, Copy, PartialEq, Eq, Structural)]
pub enum TestLink {
    /// The test imports the changed file itself.
    Imports,
    /// The test's name follows the repository's convention for this file.
    Convention,
}

/// The reason that a link gives.
pub open spec fn link_reason(link: TestLink) -> Seq<char> {
    match link {
        TestLink::Imports => "imports the changed module"@,
        TestLink::Convention => "name matches the changed file"@,
    }
}

/// The confidence of a link, in hundredths.
pub open spec fn link_confidence(link: TestLink) -> u32 {
    match link {
        TestLink::Imports => 90,
        TestLink::Convention => 80,
    }
}

impl TestLink {
    #[must_use]
    pub fn reason(self) -> (r: &'static str)
        ensures
            r@ == link_reason(self),
    {
        match self {
            TestLink::Imports => "imports the changed module",
            TestLink::Convention => "name matches the changed file",
        }
    }

    /// Confidence that this test actually exercises the change, in hundredths.
    ///
    /// A direct import is the strongest evidence short of running the test. A
    /// name match is weaker, because nothing verifies it. Indirect imports are
    /// not offered as related tests at all: through a package's barrel module
    /// almost every test reaches almost every file.
    #[must_use]
    pub fn confidence(self) -> (r: u32)
        ensures
            r == link_confidence(self),
    {
        match self {
            TestLink::Imports => 90,
            TestLink::Convention => 80,
        }
    }
}

/// A test that is likely to exercise a changed file.
#[derive(Debug, Clone, PartialEq, Eq)]
pub struct RelatedTest {
    pub file: String,
    pub link: TestLink,
}

/// What a changed file reaches in the revision it was changed into.
#[derive(Debug, Clone, PartialEq, Eq)]
pub struct FileImpact {
    /// Modules importing this file directly.
    pub direct_importers: u32,
    /// Modules reaching this file within [`MAX_REACH_DEPTH`] hops. A large
    /// number usually means the file is re-exported by a barrel module.
    pub nearby_importers: u32,
    pub related_tests: Vec<RelatedTest>,
}

/// An impact by what it holds.
#[verifier::ext_equal]
pub struct FileImpactView {
    pub direct_importers: u32,
    pub nearby_importers: u32,
    pub related_tests: Seq<(Seq<char>, TestLink)>,
}

/// Related tests by their paths and links.
pub open spec fn test_views(tests: Seq<RelatedTest>) -> Seq<(Seq<char>, TestLink)> {
    Seq::new(tests.len(), |i: int| (tests[i].file@, tests[i].link))
}

impl View for FileImpact {
    type V = FileImpactView;

    open spec fn view(&self) -> FileImpactView {
        FileImpactView {
            direct_importers: self.direct_importers,
            nearby_importers: self.nearby_importers,
            related_tests: test_views(self.related_tests@),
        }
    }
}

/// A file's name up to its first dot.
pub open spec fn base_of(path: Seq<char>) -> Seq<char> {
    match behind_last(path, '/') {
        Some(name) => up_to(name, '.'),
        None => up_to(path, '.'),
    }
}

pub(crate) fn base(path: &str) -> (r: String)
    ensures
        r@ == base_of(path@),
{
    match after_last(path, '/') {
        Some(name) => before_first(name.as_str(), '.'),
        None => before_first(path, '.'),
    }
}

/// A name without the suffix that marks a test.
///
/// A suffix behind a dot, as in `core.spec.ts`, is gone once the extension is.
pub open spec fn without_test_suffix(name: Seq<char>) -> Seq<char> {
    if "_test"@.is_suffix_of(name) || "-test"@.is_suffix_of(name) {
        name.take(name.len() - 5)
    } else {
        name
    }
}

/// A file's name with its extension and any test suffix removed.
pub open spec fn stem_of(path: Seq<char>) -> Seq<char> {
    without_test_suffix(base_of(path))
}

fn stem(path: &str) -> (r: String)
    ensures
        r@ == stem_of(path@),
{
    let name = base(path);
    if ends_with(name.as_str(), "_test") || ends_with(name.as_str(), "-test") {
        proof {
            reveal_strlit("_test");
            reveal_strlit("-test");
            assert(name@.take(name@.len() - 5) =~= name@.subrange(0, name@.len() - 5));
        }
        let chars = chars_of(name.as_str());
        text_of(&chars, 0, chars.len() - 5)
    } else {
        name
    }
}

/// Whether a test file is named after a source file: they share a stem.
pub open spec fn is_named_after(test: Seq<char>, source: Seq<char>) -> bool {
    stem_of(source).len() > 0 && stem_of(source) == stem_of(test)
}

/// The condition of being a test.
pub open spec fn tests() -> spec_fn(Seq<char>) -> bool {
    |path: Seq<char>| classification(path) == FileClassification::Test
}

/// The condition of being a test that is named after a file and does not import
/// it.
pub open spec fn namesakes(index: IndexView, path: Seq<char>) -> spec_fn(Seq<char>) -> bool {
    |test: Seq<char>| classification(test) == FileClassification::Test && is_named_after(test, path) && !index.importers_of(path).contains(test)
}

/// Paths with one link for all.
pub open spec fn tied(paths: Seq<Seq<char>>, link: TestLink) -> Seq<(Seq<char>, TestLink)> {
    Seq::new(paths.len(), |i: int| (paths[i], link))
}

/// The tests likely to exercise a file, the most certain first and each kind in
/// the order of paths: those that import it, then those named after it.
pub open spec fn tests_for(index: IndexView, path: Seq<char>) -> Seq<(Seq<char>, TestLink)> {
    tied(picked(listed(index.importers_of(path)), tests()), TestLink::Imports) + tied(
        picked(listed(index.files), namesakes(index, path)),
        TestLink::Convention,
    )
}

/// The modules that reach a file within the hops that are followed.
pub open spec fn nearby(index: IndexView, path: Seq<char>) -> Set<Seq<char>> {
    within(set![path], import_hop(index.edges), MAX_REACH_DEPTH as nat).remove(path)
}

/// What a file reaches in a revision.
pub open spec fn impact_of(index: IndexView, path: Seq<char>) -> FileImpactView {
    FileImpactView {
        direct_importers: saturated(listed(index.importers_of(path)).len()),
        nearby_importers: saturated(listed(nearby(index, path)).len()),
        related_tests: tests_for(index, path),
    }
}

/// The members of a set that satisfy a condition, each with a link, behind what
/// a list holds already.
fn tie<F: Fn(&str) -> bool>(out: &mut Vec<RelatedTest>, paths: &TextSet, link: TestLink, test: F, Ghost(keep): Ghost<spec_fn(Seq<char>) -> bool>)
    requires
        forall|path: &str| #[trigger] test.requires((path,)),
        forall|path: &str, b: bool| #[trigger] test.ensures((path,), b) ==> b == keep(path@),
    ensures
        test_views(final(out)@) == test_views(old(out)@) + tied(picked(listed(paths@), keep), link),
{
    let ghost given = test_views(out@);
    let n: usize = paths.len();
    let ghost names = paths.keys();
    let mut i: usize = 0;
    assert(tied(picked(names.take(0), keep), link) =~= Seq::<(Seq<char>, TestLink)>::empty());
    while i < n
        invariant
            n == names.len(),
            names == paths.keys(),
            i <= n,
            forall|path: &str| #[trigger] test.requires((path,)),
            forall|path: &str, b: bool| #[trigger] test.ensures((path,), b) ==> b == keep(path@),
            test_views(out@) =~= given + tied(picked(names.take(i as int), keep), link),
        decreases n - i,
    {
        let path = paths.key_at(i);
        assert(names.take(i + 1).drop_last() =~= names.take(i as int));
        let ghost so_far = test_views(out@);
        if test(path) {
            out.push(RelatedTest { file: path.to_owned(), link });
            assert(test_views(out@) =~= so_far.push((path@, link)));
        }
        i = i + 1;
    }
    proof {
        assert(names.take(n as int) =~= names);
        lemma_listed(names);
    }
}

/// Describe what one changed file reaches.
#[must_use]
pub fn for_file(index: &ImportIndex, path: &str) -> (r: FileImpact)
    ensures
        r@ == impact_of(index@, path@),
        listed(index@.importers_of(path@)).to_set() == index@.importers_of(path@),
{
    let reachable = index.reachable_importers(path, MAX_REACH_DEPTH);
    let importers = index.importers(path);
    let own = stem(path);
    let mut related: Vec<RelatedTest> = Vec::new();
    assert(test_views(related@) =~= Seq::<(Seq<char>, TestLink)>::empty());
    let is_test = |candidate: &str| -> (b: bool)
        ensures
            b == tests()(candidate@),
    {
        classify(candidate) == FileClassification::Test
    };
    tie(&mut related, importers, TestLink::Imports, is_test, Ghost(tests()));
    let is_namesake = |candidate: &str| -> (b: bool)
        ensures
            b == namesakes(index@, path@)(candidate@),
    {
        classify(candidate) == FileClassification::Test && !own.as_str().is_empty() && same_text(own.as_str(), stem(candidate).as_str())
            && !importers.contains(candidate)
    };
    tie(&mut related, index.files(), TestLink::Convention, is_namesake, Ghost(namesakes(index@, path@)));
    let direct: usize = importers.len();
    let near: usize = reachable.len();
    proof {
        lemma_listed(importers.keys());
        lemma_listed(reachable.keys());
        assert forall|b: Seq<char>| reachable.keys().to_set().contains(b) <==> nearby(index@, path@).contains(b) by {
            assert(reachable@.contains_key(b) <==> reachable.keys().contains(b));
            assert(reachable@.insert(path@, 0).contains_key(b) <==> within(set![path@], import_hop(index@.edges), MAX_REACH_DEPTH as nat).contains(b));
        }
        assert(reachable.keys().to_set() =~= nearby(index@, path@));
    }
    let r = FileImpact { direct_importers: count(direct), nearby_importers: count(near), related_tests: related };
    assert(r@ =~= impact_of(index@, path@));
    r
}

/// A test that imports a file is listed before any that only shares its name,
/// and never twice.
pub proof fn lemma_importing_tests_come_first(index: IndexView, path: Seq<char>, i: int, j: int)
    requires
        listed(index.importers_of(path)).to_set() == index.importers_of(path),
        0 <= i < j < tests_for(index, path).len(),
    ensures
        link_confidence(tests_for(index, path)[i].1) >= link_confidence(tests_for(index, path)[j].1),
        tests_for(index, path)[i].1 == TestLink::Imports && tests_for(index, path)[j].1 == TestLink::Convention ==> tests_for(index, path)[i].0
            != tests_for(index, path)[j].0,
{
    let first = picked(listed(index.importers_of(path)), tests());
    let second = picked(listed(index.files), namesakes(index, path));
    if i < first.len() && j >= first.len() {
        let k = j - first.len();
        crate::order::lemma_picked(listed(index.files), namesakes(index, path));
        assert(second.contains(second[k]));
        crate::order::lemma_picked(listed(index.importers_of(path)), tests());
        assert(first.contains(first[i]));
        assert(listed(index.importers_of(path)).to_set().contains(first[i]));
    }
}

} // verus!
