//! Texts taken apart and put together.

use vstd::prelude::*;

use crate::collections::{ascending, lemma_listed, listed};
use crate::graph::insertion::lemma_once;
use crate::order::{lemma_arranged_ranked, lemma_texts_lawful};
use crate::text::{behind_last, last_of, lemma_last_of, lemma_span, occurs_in, other_than, span, split_on, text_rank, up_to, Rank};

verus! {

/// Whether a character stands nowhere in a text.
pub open spec fn lacks(s: Seq<char>, c: char) -> bool {
    forall|i: int| 0 <= i < s.len() ==> #[trigger] s[i] != c
}

/// Directories and a name, with slashes between them.
pub open spec fn path_to(directories: Seq<Seq<char>>, name: Seq<char>) -> Seq<char>
    decreases directories.len(),
{
    if directories.len() == 0 {
        name
    } else {
        directories[0] + seq!['/'] + path_to(directories.drop_first(), name)
    }
}

/// Whether a name and directories are each free of slashes.
pub open spec fn plain(directories: Seq<Seq<char>>, name: Seq<char>) -> bool {
    lacks(name, '/') && forall|i: int| 0 <= i < directories.len() ==> lacks(#[trigger] directories[i], '/')
}

/// A run without a character, and then the character.
pub proof fn lemma_span_up_to(a: Seq<char>, b: Seq<char>, c: char)
    requires
        lacks(a, c),
        b.len() > 0 ==> b[0] == c,
    ensures
        span(a + b, other_than(c)) == a.len(),
{
    let s = a + b;
    assert forall|i: int| 0 <= i < a.len() implies other_than(c)(#[trigger] s[i]) by {
        assert(s[i] == a[i]);
    }
    if b.len() > 0 {
        assert(s[a.len() as int] == b[0]);
    }
    lemma_span(s, other_than(c), a.len());
}

/// A path is split at its slashes into the directories and the name it was made
/// of.
pub proof fn lemma_path_splits(directories: Seq<Seq<char>>, name: Seq<char>)
    requires
        plain(directories, name),
    ensures
        split_on(path_to(directories, name), '/') == directories.push(name),
    decreases directories.len(),
{
    let path = path_to(directories, name);
    if directories.len() == 0 {
        assert(name + Seq::<char>::empty() =~= name);
        lemma_span_up_to(name, Seq::empty(), '/');
        assert(split_on(path, '/') =~= directories.push(name));
    } else {
        let first = directories[0];
        let rest = directories.drop_first();
        assert(plain(rest, name)) by {
            assert forall|i: int| 0 <= i < rest.len() implies lacks(#[trigger] rest[i], '/') by {
                assert(rest[i] == directories[i + 1]);
            }
        }
        lemma_path_splits(rest, name);
        let tail = seq!['/'] + path_to(rest, name);
        assert(path =~= first + tail);
        lemma_span_up_to(first, tail, '/');
        assert(path.take(first.len() as int) =~= first);
        assert(path.skip(first.len() as int + 1) =~= path_to(rest, name));
        assert(split_on(path, '/') =~= directories.push(name));
    }
}

/// Every path is made of directories and a name.
pub proof fn lemma_path_is_made(path: Seq<char>) -> (made: (Seq<Seq<char>>, Seq<char>))
    ensures
        plain(made.0, made.1),
        path_to(made.0, made.1) == path,
    decreases path.len(),
{
    let n = span(path, other_than('/'));
    crate::text::lemma_span_holds(path, other_than('/'));
    if n < path.len() {
        let first = path.take(n as int);
        let (rest, name) = lemma_path_is_made(path.skip(n as int + 1));
        let directories = seq![first] + rest;
        assert(directories.drop_first() =~= rest);
        assert(lacks(first, '/')) by {
            assert forall|i: int| 0 <= i < first.len() implies #[trigger] first[i] != '/' by {
                assert(other_than('/')(path[i]));
            }
        }
        assert forall|i: int| 0 <= i < directories.len() implies lacks(#[trigger] directories[i], '/') by {
            if i > 0 {
                assert(directories[i] == rest[i - 1]);
            }
        }
        assert(path_to(directories, name) =~= path) by {
            assert(path_to(directories, name) == first + seq!['/'] + path_to(rest, name));
            assert(path[n as int] == '/') by {
                assert(!other_than('/')(path[n as int]));
            }
        }
        (directories, name)
    } else {
        assert(lacks(path, '/')) by {
            assert forall|i: int| 0 <= i < path.len() implies #[trigger] path[i] != '/' by {
                assert(other_than('/')(path[i]));
            }
        }
        (Seq::empty(), path)
    }
}

/// Whether a text stands inside another, with anything before and behind it.
pub open spec fn stands_in(infix: Seq<char>, s: Seq<char>) -> bool {
    exists|a: Seq<char>, b: Seq<char>| s == #[trigger] (a + infix + b)
}

/// Searching finds what stands inside.
pub proof fn lemma_occurs_is_standing(infix: Seq<char>, s: Seq<char>)
    ensures
        occurs_in(infix, s) <==> stands_in(infix, s),
{
    if occurs_in(infix, s) {
        let i = choose|i: int| 0 <= i <= s.len() && infix.is_prefix_of(#[trigger] s.skip(i));
        let b = s.skip(i + infix.len());
        assert forall|k: int| 0 <= k < infix.len() implies infix[k] == s[i + k] by {
            assert(s.skip(i).subrange(0, infix.len() as int)[k] == s[i + k]);
        }
        assert(s =~= s.take(i) + infix + b);
    }
    if stands_in(infix, s) {
        let (a, b) = choose|a: Seq<char>, b: Seq<char>| s == #[trigger] (a + infix + b);
        assert(s.skip(a.len() as int) =~= infix + b);
        assert(infix.is_prefix_of(s.skip(a.len() as int)));
    }
}

/// What follows the last dot is what a text ends with behind a dot.
pub proof fn lemma_extension_is_ending(s: Seq<char>, extension: Seq<char>)
    requires
        lacks(extension, '.'),
    ensures
        behind_last(s, '.') == Some(extension) <==> (seq!['.'] + extension).is_suffix_of(s),
{
    let ending = seq!['.'] + extension;
    if ending.is_suffix_of(s) {
        let at = (s.len() - ending.len()) as nat;
        assert forall|k: int| 0 <= k < ending.len() implies ending[k] == s[at + k] by {
            assert(s.subrange(s.len() - ending.len(), s.len() as int)[k] == s[at + k]);
        }
        assert(s[at as int] == ending[0]);
        assert forall|k: int| at < k < s.len() implies #[trigger] s[k] != '.' by {
            assert(ending[k - at] == s[k]);
            assert(ending[k - at] == extension[k - at - 1]);
        }
        lemma_last_of(s, '.', at);
        let rest = s.skip(at as int + 1);
        assert forall|k: int| 0 <= k < extension.len() implies rest[k] == extension[k] by {
            assert(ending[k + 1] == extension[k]);
            assert(ending[k + 1] == s[at + (k + 1)]);
        }
        assert(rest =~= extension);
    }
    if behind_last(s, '.') == Some(extension) {
        let at = last_of(s, '.');
        lemma_last_is(s, '.');
        assert(s.subrange(s.len() - ending.len(), s.len() as int) =~= ending);
    }
}

/// The last place of a character holds it.
proof fn lemma_last_is(s: Seq<char>, c: char)
    ensures
        last_of(s, c) <= s.len(),
        last_of(s, c) < s.len() ==> s[last_of(s, c) as int] == c,
    decreases s.len(),
{
    if s.len() > 0 && s.last() != c {
        lemma_last_is(s.drop_last(), c);
    }
}

/// What follows the last slash of a path is its name, where it has directories.
pub proof fn lemma_name_is_last(directories: Seq<Seq<char>>, name: Seq<char>)
    requires
        plain(directories, name),
    ensures
        behind_last(path_to(directories, name), '/') == if directories.len() == 0 {
            None
        } else {
            Some(name)
        },
    decreases directories.len(),
{
    let path = path_to(directories, name);
    if directories.len() == 0 {
        lemma_last_of(name, '/', name.len());
    } else {
        let first = directories[0];
        let rest = directories.drop_first();
        assert(plain(rest, name)) by {
            assert forall|i: int| 0 <= i < rest.len() implies lacks(#[trigger] rest[i], '/') by {
                assert(rest[i] == directories[i + 1]);
            }
        }
        lemma_name_is_last(rest, name);
        let tail = path_to(rest, name);
        let head = first + seq!['/'];
        if rest.len() == 0 {
            let at = first.len();
            assert(path[at as int] == '/');
            assert forall|k: int| at < k < path.len() implies #[trigger] path[k] != '/' by {
                assert(path[k] == name[k - at - 1]);
            }
            lemma_last_of(path, '/', at);
            assert(path.skip(at as int + 1) =~= name);
        } else {
            let at = last_of(tail, '/');
            lemma_last_is(tail, '/');
            let place = (head.len() + at) as nat;
            assert(path[place as int] == tail[at as int]);
            assert forall|k: int| place < k < path.len() implies #[trigger] path[k] != '/' by {
                assert(path[k] == tail[k - head.len()]);
                assert(tail.skip(at as int + 1)[k - head.len() - at - 1] == tail[k - head.len()]);
                assert(tail.skip(at as int + 1) == name);
            }
            lemma_last_of(path, '/', place);
            assert(path.skip(place as int + 1) =~= tail.skip(at as int + 1));
        }
    }
}

/// What precedes the first dot.
pub proof fn lemma_up_to_dot(a: Seq<char>, b: Seq<char>)
    requires
        lacks(a, '.'),
        b.len() > 0 ==> b[0] == '.',
    ensures
        up_to(a + b, '.') == a,
{
    lemma_span_up_to(a, b, '.');
    assert((a + b).take(a.len() as int) =~= a);
}

/// A finite set of texts is listed in full, in ascending order, each once.
pub proof fn lemma_finite_is_listed(members: Set<Seq<char>>)
    requires
        members.finite(),
    ensures
        ascending(listed(members)),
        listed(members).to_set() == members,
        listed(members).len() == members.len(),
        listed(members).no_duplicates(),
{
    let some = lemma_once(members);
    let rank = |a: Seq<char>, b: Seq<char>| text_rank(a, b);
    lemma_texts_lawful();
    lemma_arranged_ranked(some, rank);
    let keys = crate::collections::arranged(some, crate::order::by_rank(rank));
    assert forall|i: int, j: int| 0 <= i < j < keys.len() implies crate::text::before(#[trigger] keys[i], #[trigger] keys[j]) by {
        assert(rank(keys[i], keys[j]) == Rank::Before);
    }
    lemma_listed(keys);
    crate::order::lemma_strictly_distinct(keys, rank);
    keys.unique_seq_to_set();
}

} // verus!
