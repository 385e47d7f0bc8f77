//! What a changed file reaches.

use vstd::prelude::*;

use crate::collections::listed;
use crate::graph::reach::{one_hop, within};
use crate::imports::{import_hop, IndexView};
use crate::laws::changes::at_most_32_bits;
use crate::laws::words::{lacks, lemma_finite_is_listed, lemma_name_is_last, lemma_up_to_dot, path_to, plain};
use crate::order::{lemma_picked, picked};
use crate::query::classify::{classification, FileClassification};
use crate::query::impact::{base_of, impact_of, link_confidence, namesakes, nearby, stem_of, tests, tests_for, tied, TestLink};

verus! {

/// The files with an import of a file.
pub open spec fn direct(edges: Set<(Seq<char>, Seq<char>)>, path: Seq<char>) -> Set<Seq<char>> {
    Set::new(|file: Seq<char>| edges.contains((file, path)))
}

/// The other files with an import of a file, or with an import of a file with
/// one.
pub open spec fn close(edges: Set<(Seq<char>, Seq<char>)>, path: Seq<char>) -> Set<Seq<char>> {
    Set::new(
        |file: Seq<char>|
            file != path && (edges.contains((file, path)) || exists|between: Seq<char>|
                edges.contains((between, path)) && #[trigger] edges.contains((file, between))),
    )
}

proof fn lemma_ends_are_finite(edges: Set<(Seq<char>, Seq<char>)>, some: Set<Seq<char>>)
    requires
        edges.finite(),
        forall|file: Seq<char>| #[trigger] some.contains(file) ==> exists|to: Seq<char>| edges.contains((file, to)),
    ensures
        some.finite(),
{
    let first = |e: (Seq<char>, Seq<char>)| e.0;
    edges.lemma_map_finite(first);
    let ends = edges.map(first);
    assert forall|file: Seq<char>| #[trigger] some.contains(file) implies ends.contains(file) by {
        let to = choose|to: Seq<char>| edges.contains((file, to));
        assert(first((file, to)) == file);
        assert(ends.contains(first((file, to))));
    }
    vstd::set_lib::lemma_len_subset(some, ends);
}

proof fn lemma_nearby_is_close(index: IndexView, path: Seq<char>)
    ensures
        nearby(index, path) == close(index.edges, path),
{
    let hop = import_hop(index.edges);
    let start = set![path];
    let one = within(start, hop, 1);
    let two = within(start, hop, 2);
    reveal_with_fuel(within, 3);
    assert(within(start, hop, 0) == start);
    assert forall|file: Seq<char>| #[trigger] one.contains(file) <==> file == path || index.edges.contains((file, path)) by {
        if one_hop(start, hop, file) {
            let a = choose|a: Seq<char>| start.contains(a) && #[trigger] hop(a, file);
        }
        if index.edges.contains((file, path)) {
            assert(start.contains(path) && hop(path, file));
        }
    }
    assert forall|file: Seq<char>| #[trigger] nearby(index, path).contains(file) <==> close(index.edges, path).contains(file) by {
        if file != path && one_hop(one, hop, file) {
            let a = choose|a: Seq<char>| one.contains(a) && #[trigger] hop(a, file);
            if a != path {
                assert(index.edges.contains((a, path)) && index.edges.contains((file, a)));
            }
        }
        if close(index.edges, path).contains(file) && !index.edges.contains((file, path)) {
            let between = choose|between: Seq<char>| index.edges.contains((between, path)) && #[trigger] index.edges.contains((file, between));
            assert(one.contains(between) && hop(between, file));
        }
    }
    assert(nearby(index, path) =~= close(index.edges, path));
}

/// The direct importers of a file are the files with an import of it, and the
/// nearby ones the others that reach it by one import or two.
pub proof fn lemma_importers_are_counted(index: IndexView, path: Seq<char>)
    requires
        index.edges.finite(),
    ensures
        at_most_32_bits(direct(index.edges, path).len(), impact_of(index, path).direct_importers),
        at_most_32_bits(close(index.edges, path).len(), impact_of(index, path).nearby_importers),
{
    lemma_nearby_is_close(index, path);
    assert(index.importers_of(path) =~= direct(index.edges, path));
    lemma_ends_are_finite(index.edges, direct(index.edges, path));
    assert forall|file: Seq<char>| #[trigger] close(index.edges, path).contains(file) implies exists|to: Seq<char>| index.edges.contains((file, to)) by {
        if index.edges.contains((file, path)) {
        } else {
            let between = choose|between: Seq<char>| index.edges.contains((between, path)) && #[trigger] index.edges.contains((file, between));
            assert(index.edges.contains((file, between)));
        }
    }
    lemma_ends_are_finite(index.edges, close(index.edges, path));
    lemma_finite_is_listed(direct(index.edges, path));
    lemma_finite_is_listed(close(index.edges, path));
}

/// An import of another file, were it of an importer, leaves the direct
/// importers of a file as they are; an import of the file by a file that had
/// none adds one.
pub proof fn lemma_only_own_imports_are_direct(index: IndexView, path: Seq<char>, from: Seq<char>, to: Seq<char>)
    requires
        index.edges.finite(),
        direct(index.edges, path).len() < u32::MAX,
    ensures
        ({
            let more = IndexView { edges: index.edges.insert((from, to)), ..index };
            impact_of(more, path).direct_importers == impact_of(index, path).direct_importers + if to == path && !index.edges.contains((from, path)) {
                1int
            } else {
                0
            }
        }),
{
    let more = IndexView { edges: index.edges.insert((from, to)), ..index };
    lemma_importers_are_counted(index, path);
    lemma_importers_are_counted(more, path);
    lemma_ends_are_finite(index.edges, direct(index.edges, path));
    if to == path {
        assert(direct(more.edges, path) =~= direct(index.edges, path).insert(from));
    } else {
        assert(direct(more.edges, path) =~= direct(index.edges, path));
    }
}

/// A test that imports a file is offered for it, and so is one of the revision
/// that has its name and does not import it; nothing else is. An import is the
/// surer evidence.
pub proof fn lemma_related_tests(index: IndexView, path: Seq<char>, test: Seq<char>)
    requires
        index.edges.finite(),
        index.files.finite(),
    ensures
        impact_of(index, path).related_tests.contains((test, TestLink::Imports)) <==> index.edges.contains((test, path)) && classification(test)
            == FileClassification::Test,
        impact_of(index, path).related_tests.contains((test, TestLink::Convention)) <==> index.files.contains(test) && classification(test)
            == FileClassification::Test && stem_of(path).len() > 0 && stem_of(test) == stem_of(path) && !index.edges.contains((test, path)),
        link_confidence(TestLink::Imports) == 90,
        link_confidence(TestLink::Convention) == 80,
{
    assert(index.importers_of(path) =~= direct(index.edges, path));
    lemma_ends_are_finite(index.edges, direct(index.edges, path));
    lemma_finite_is_listed(index.importers_of(path));
    lemma_finite_is_listed(index.files);
    let importing = picked(listed(index.importers_of(path)), tests());
    let named = picked(listed(index.files), namesakes(index, path));
    lemma_picked(listed(index.importers_of(path)), tests());
    lemma_picked(listed(index.files), namesakes(index, path));
    let all = tests_for(index, path);
    assert(listed(index.importers_of(path)).to_set().contains(test) <==> index.importers_of(path).contains(test));
    assert(listed(index.files).to_set().contains(test) <==> index.files.contains(test));
    assert(all.contains((test, TestLink::Imports)) <==> importing.contains(test)) by {
        if importing.contains(test) {
            let k = choose|k: int| 0 <= k < importing.len() && importing[k] == test;
            assert(all[k] == (test, TestLink::Imports));
        }
        if all.contains((test, TestLink::Imports)) {
            let k = choose|k: int| 0 <= k < all.len() && all[k] == (test, TestLink::Imports);
            if k < importing.len() {
                assert(importing[k] == test);
            } else {
                assert(all[k] == tied(named, TestLink::Convention)[k - importing.len()]);
            }
        }
    }
    assert(all.contains((test, TestLink::Convention)) <==> named.contains(test)) by {
        if named.contains(test) {
            let k = choose|k: int| 0 <= k < named.len() && named[k] == test;
            assert(all[importing.len() + k] == (test, TestLink::Convention));
        }
        if all.contains((test, TestLink::Convention)) {
            let k = choose|k: int| 0 <= k < all.len() && all[k] == (test, TestLink::Convention);
            if k < importing.len() {
                assert(all[k] == tied(importing, TestLink::Imports)[k]);
            } else {
                assert(named[k - importing.len()] == test);
            }
        }
    }
}

/// A file and the tests that are named after it have one stem, whatever
/// directories they stand in: the name up to the first dot, without `_test` or
/// `-test` at its end.
pub proof fn lemma_stem_is_name(directories: Seq<Seq<char>>, base: Seq<char>, rest: Seq<char>)
    requires
        plain(directories, base + rest),
        lacks(base, '.'),
        rest.len() > 0 ==> rest[0] == '.',
    ensures
        !"_test"@.is_suffix_of(base) && !"-test"@.is_suffix_of(base) ==> stem_of(path_to(directories, base + rest)) == base,
        forall|stem: Seq<char>| base == #[trigger] (stem + "_test"@) ==> stem_of(path_to(directories, base + rest)) == stem,
        forall|stem: Seq<char>| base == #[trigger] (stem + "-test"@) ==> stem_of(path_to(directories, base + rest)) == stem,
{
    lemma_name_is_last(directories, base + rest);
    lemma_up_to_dot(base, rest);
    assert(base_of(path_to(directories, base + rest)) == base);
    reveal_strlit("_test");
    reveal_strlit("-test");
    assert forall|stem: Seq<char>, mark: Seq<char>| mark.len() == 5 && base == #[trigger] (stem + mark) implies mark.is_suffix_of(base) && base.take(
        base.len() - 5,
    ) == stem by {
        assert(base.subrange(base.len() - 5, base.len() as int) =~= mark);
        assert(base.take(base.len() - 5) =~= stem);
    }
}

} // verus!
