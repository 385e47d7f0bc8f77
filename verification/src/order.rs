//! Orders made of ranks: how comparisons combine, and what sorting by them gives.

use vstd::prelude::*;

use crate::collections::{arrange, arranged, in_sequence, lemma_arranged_sorted, placed};
use crate::text::{before, compare, lemma_before_asymmetric, lemma_before_total, lemma_before_transitive, text_option, text_rank, Rank};

verus! {

/// The rank seen from the other side.
pub open spec fn flipped(r: Rank) -> Rank {
    match r {
        Rank::Before => Rank::After,
        Rank::Same => Rank::Same,
        Rank::After => Rank::Before,
    }
}

/// The first rank, or the second where the first leaves the two the same.
pub open spec fn otherwise(first: Rank, second: Rank) -> Rank {
    if first == Rank::Same {
        second
    } else {
        first
    }
}

/// The first rank, or the second where the first leaves the two the same.
pub fn or_else(first: Rank, second: Rank) -> (r: Rank)
    ensures
        r == otherwise(first, second),
{
    match first {
        Rank::Same => second,
        _ => first,
    }
}

/// Where one number stands relative to another.
pub open spec fn number_rank(a: int, b: int) -> Rank {
    if a < b {
        Rank::Before
    } else if a == b {
        Rank::Same
    } else {
        Rank::After
    }
}

/// Where one number stands relative to another.
pub fn compare_numbers(a: u64, b: u64) -> (r: Rank)
    ensures
        r == number_rank(a as int, b as int),
{
    if a < b {
        Rank::Before
    } else if a == b {
        Rank::Same
    } else {
        Rank::After
    }
}

/// Where one optional text stands relative to another: none stands before any.
pub open spec fn option_rank(a: Option<Seq<char>>, b: Option<Seq<char>>) -> Rank {
    match (a, b) {
        (None, None) => Rank::Same,
        (None, Some(_)) => Rank::Before,
        (Some(_), None) => Rank::After,
        (Some(x), Some(y)) => text_rank(x, y),
    }
}

/// Where one optional text stands relative to another.
pub fn compare_options(a: &Option<String>, b: &Option<String>) -> (r: Rank)
    ensures
        r == option_rank(text_option(*a), text_option(*b)),
{
    match (a, b) {
        (None, None) => Rank::Same,
        (None, Some(_)) => Rank::Before,
        (Some(_), None) => Rank::After,
        (Some(x), Some(y)) => compare(x.as_str(), y.as_str()),
    }
}

/// Whether ranks come from a total preorder.
pub open spec fn lawful<T>(rank: spec_fn(T, T) -> Rank) -> bool {
    &&& forall|a: T, b: T| #[trigger] rank(b, a) == flipped(rank(a, b))
    &&& forall|a: T, b: T, c: T|
        #[trigger] rank(a, b) != Rank::After && #[trigger] rank(b, c) != Rank::After ==> rank(a, c) != Rank::After
}

/// The order in which one element may precede another: not ranked after it.
pub open spec fn by_rank<T>(rank: spec_fn(T, T) -> Rank) -> spec_fn(T, T) -> bool {
    |a: T, b: T| rank(a, b) != Rank::After
}

/// A step that is strict on one side is strict as a whole.
pub proof fn lemma_strict<T>(rank: spec_fn(T, T) -> Rank, a: T, b: T, c: T)
    requires
        lawful(rank),
        rank(a, b) != Rank::After,
        rank(b, c) != Rank::After,
        rank(a, b) == Rank::Before || rank(b, c) == Rank::Before,
    ensures
        rank(a, c) == Rank::Before,
{
    if rank(a, c) == Rank::Same {
        assert(rank(c, a) == Rank::Same);
        assert(rank(b, a) != Rank::After);
        assert(rank(c, b) != Rank::After);
        assert(rank(b, a) == flipped(rank(a, b)));
        assert(rank(c, b) == flipped(rank(b, c)));
    }
}

/// Lawful ranks of what the elements are compared by are lawful.
pub proof fn lemma_lawful_by<T, K>(rank: spec_fn(K, K) -> Rank, key: spec_fn(T) -> K)
    requires
        lawful(rank),
    ensures
        lawful(|a: T, b: T| rank(key(a), key(b))),
{
    let out = |a: T, b: T| rank(key(a), key(b));
    assert forall|a: T, b: T| #[trigger] out(b, a) == flipped(out(a, b)) by {
        assert(rank(key(b), key(a)) == flipped(rank(key(a), key(b))));
    }
    assert forall|a: T, b: T, c: T|
        #[trigger] out(a, b) != Rank::After && #[trigger] out(b, c) != Rank::After implies out(a, c) != Rank::After by {
        assert(rank(key(a), key(b)) != Rank::After);
        assert(rank(key(b), key(c)) != Rank::After);
    }
}

/// A lawful rank refined by another is lawful.
pub proof fn lemma_lawful_otherwise<T>(first: spec_fn(T, T) -> Rank, second: spec_fn(T, T) -> Rank)
    requires
        lawful(first),
        lawful(second),
    ensures
        lawful(|a: T, b: T| otherwise(first(a, b), second(a, b))),
{
    let out = |a: T, b: T| otherwise(first(a, b), second(a, b));
    assert forall|a: T, b: T| #[trigger] out(b, a) == flipped(out(a, b)) by {
        assert(first(b, a) == flipped(first(a, b)));
        assert(second(b, a) == flipped(second(a, b)));
    }
    assert forall|a: T, b: T, c: T|
        #[trigger] out(a, b) != Rank::After && #[trigger] out(b, c) != Rank::After implies out(a, c) != Rank::After by {
        assert(first(a, b) != Rank::After && first(b, c) != Rank::After);
        if first(a, b) == Rank::Before || first(b, c) == Rank::Before {
            lemma_strict(first, a, b, c);
        } else {
            assert(first(a, c) != Rank::After);
            assert(second(a, b) != Rank::After && second(b, c) != Rank::After);
            assert(second(a, c) != Rank::After);
            assert(first(b, a) != Rank::After && first(c, b) != Rank::After) by {
                assert(first(b, a) == flipped(first(a, b)));
                assert(first(c, b) == flipped(first(b, c)));
            }
            assert(first(c, a) != Rank::After);
            assert(first(c, a) == flipped(first(a, c)));
        }
    }
}

/// Ranking turned around is lawful.
pub proof fn lemma_lawful_flipped<T>(rank: spec_fn(T, T) -> Rank)
    requires
        lawful(rank),
    ensures
        lawful(|a: T, b: T| rank(b, a)),
{
    let out = |a: T, b: T| rank(b, a);
    assert forall|a: T, b: T| #[trigger] out(b, a) == flipped(out(a, b)) by {
        assert(rank(a, b) == flipped(rank(b, a)));
    }
    assert forall|a: T, b: T, c: T|
        #[trigger] out(a, b) != Rank::After && #[trigger] out(b, c) != Rank::After implies out(a, c) != Rank::After by {
        assert(rank(c, b) != Rank::After && rank(b, a) != Rank::After);
    }
}

/// The order of numbers is lawful.
pub proof fn lemma_numbers_lawful()
    ensures
        lawful(|a: int, b: int| number_rank(a, b)),
{
}

/// The order of texts is lawful.
pub proof fn lemma_texts_lawful()
    ensures
        lawful(|a: Seq<char>, b: Seq<char>| text_rank(a, b)),
{
    let rank = |a: Seq<char>, b: Seq<char>| text_rank(a, b);
    assert forall|a: Seq<char>, b: Seq<char>| #[trigger] rank(b, a) == flipped(rank(a, b)) by {
        lemma_text_flips(a, b);
    }
    assert forall|a: Seq<char>, b: Seq<char>, c: Seq<char>|
        #[trigger] rank(a, b) != Rank::After && #[trigger] rank(b, c) != Rank::After implies rank(a, c) != Rank::After by {
        lemma_text_ranks(a, b, c);
    }
}

proof fn lemma_text_flips(a: Seq<char>, b: Seq<char>)
    ensures
        text_rank(b, a) == flipped(text_rank(a, b)),
{
    if a != b {
        lemma_before_total(a, b);
        if before(a, b) {
            lemma_before_asymmetric(a, b);
        }
    }
}

proof fn lemma_text_ranks(a: Seq<char>, b: Seq<char>, c: Seq<char>)
    requires
        text_rank(a, b) != Rank::After,
        text_rank(b, c) != Rank::After,
    ensures
        text_rank(a, c) != Rank::After,
{
    if a != b && b != c {
        lemma_before_transitive(a, b, c);
    }
}

/// The order of optional texts is lawful.
pub proof fn lemma_options_lawful()
    ensures
        lawful(|a: Option<Seq<char>>, b: Option<Seq<char>>| option_rank(a, b)),
{
    let rank = |a: Option<Seq<char>>, b: Option<Seq<char>>| option_rank(a, b);
    assert forall|a: Option<Seq<char>>, b: Option<Seq<char>>| #[trigger] rank(b, a) == flipped(rank(a, b)) by {
        if a is Some && b is Some {
            lemma_text_flips(a->0, b->0);
        }
    }
    assert forall|a: Option<Seq<char>>, b: Option<Seq<char>>, c: Option<Seq<char>>|
        #[trigger] rank(a, b) != Rank::After && #[trigger] rank(b, c) != Rank::After implies rank(a, c) != Rank::After by {
        if a is Some && b is Some && c is Some {
            lemma_text_ranks(a->0, b->0, c->0);
        }
    }
}

/// Sorting by lawful ranks puts every pair in order.
pub proof fn lemma_sorted_by_rank<T>(items: Seq<T>, rank: spec_fn(T, T) -> Rank)
    requires
        lawful(rank),
    ensures
        in_sequence(arranged(items, by_rank(rank)), by_rank(rank)),
{
    let in_order = by_rank(rank);
    assert forall|a: T, b: T| #[trigger] in_order(a, b) || in_order(b, a) by {
        assert(rank(b, a) == flipped(rank(a, b)));
    }
    assert forall|a: T, b: T, c: T| #[trigger] in_order(a, b) && #[trigger] in_order(b, c) implies in_order(a, c) by {
        assert(rank(a, b) != Rank::After && rank(b, c) != Rank::After);
    }
    lemma_arranged_sorted(items, in_order);
}

proof fn lemma_placed_map<T, V>(sorted: Seq<T>, item: T, f: spec_fn(T) -> V, in_order: spec_fn(V, V) -> bool)
    ensures
        placed(sorted, item, |a: T, b: T| in_order(f(a), f(b))).map_values(f) == placed(sorted.map_values(f), f(item), in_order),
    decreases sorted.len(),
{
    let lifted = |a: T, b: T| in_order(f(a), f(b));
    if sorted.len() == 0 || lifted(sorted.last(), item) {
        assert(sorted.push(item).map_values(f) =~= sorted.map_values(f).push(f(item)));
    } else {
        lemma_placed_map(sorted.drop_last(), item, f, in_order);
        assert(sorted.map_values(f).drop_last() =~= sorted.drop_last().map_values(f));
        let head = placed(sorted.drop_last(), item, lifted);
        assert(head.push(sorted.last()).map_values(f) =~= head.map_values(f).push(f(sorted.last())));
    }
}

/// Sorting by what elements stand for sorts what they stand for.
pub proof fn lemma_arranged_map<T, V>(items: Seq<T>, f: spec_fn(T) -> V, in_order: spec_fn(V, V) -> bool)
    ensures
        arranged(items, |a: T, b: T| in_order(f(a), f(b))).map_values(f) == arranged(items.map_values(f), in_order),
    decreases items.len(),
{
    let lifted = |a: T, b: T| in_order(f(a), f(b));
    if items.len() > 0 {
        lemma_arranged_map(items.drop_last(), f, in_order);
        assert(items.map_values(f).drop_last() =~= items.drop_last().map_values(f));
        lemma_placed_map(arranged(items.drop_last(), lifted), items.last(), f, in_order);
    } else {
        assert(items.map_values(f) =~= Seq::<V>::empty());
        assert(arranged(items, lifted).map_values(f) =~= Seq::<V>::empty());
    }
}

/// Sort a list by the ranks of what its elements stand for.
pub fn arrange_by<T, V, F: Fn(&T, &T) -> Rank>(
    items: &mut Vec<T>,
    rank_of: F,
    Ghost(f): Ghost<spec_fn(T) -> V>,
    Ghost(rank): Ghost<spec_fn(V, V) -> Rank>,
)
    requires
        forall|a: &T, b: &T| #[trigger] rank_of.requires((a, b)),
        forall|a: &T, b: &T, r: Rank| #[trigger] rank_of.ensures((a, b), r) ==> r == rank(f(*a), f(*b)),
    ensures
        final(items)@.map_values(f) == arranged(old(items)@.map_values(f), by_rank(rank)),
        final(items)@ == arranged(old(items)@, |a: T, b: T| by_rank(rank)(f(a), f(b))),
{
    let ghost lifted = |a: T, b: T| by_rank(rank)(f(a), f(b));
    proof {
        lemma_arranged_map(items@, f, by_rank(rank));
    }
    arrange(items, rank_of, Ghost(lifted));
}

/// Whether each element stands before all that follow it.
pub open spec fn strictly<T>(s: Seq<T>, rank: spec_fn(T, T) -> Rank) -> bool {
    forall|i: int, j: int| 0 <= i < j < s.len() ==> rank(#[trigger] s[i], #[trigger] s[j]) == Rank::Before
}

/// The members of a set, each before all that follow it.
pub open spec fn ranked<T>(members: Set<T>, rank: spec_fn(T, T) -> Rank) -> Seq<T> {
    choose|s: Seq<T>| s.to_set() == members && strictly(s, rank)
}

/// Elements that each stand before all that follow are distinct.
pub proof fn lemma_strictly_distinct<T>(s: Seq<T>, rank: spec_fn(T, T) -> Rank)
    requires
        lawful(rank),
        strictly(s, rank),
    ensures
        s.no_duplicates(),
{
    assert forall|i: int, j: int| 0 <= i < j < s.len() implies s[i] != s[j] by {
        assert(rank(s[i], s[j]) == Rank::Before);
        assert(rank(s[j], s[i]) == flipped(rank(s[i], s[j])));
    }
}

/// Two such sequences of the same members are the same.
pub proof fn lemma_strictly_determined<T>(a: Seq<T>, b: Seq<T>, rank: spec_fn(T, T) -> Rank)
    requires
        lawful(rank),
        strictly(a, rank),
        strictly(b, rank),
        forall|x: T| #[trigger] a.contains(x) <==> b.contains(x),
    ensures
        a == b,
    decreases a.len(),
{
    if a.len() == 0 {
        if b.len() > 0 {
            assert(b.contains(b[0]));
            assert(a.contains(b[0]));
        }
        assert(a =~= b);
    } else if b.len() == 0 {
        assert(a.contains(a[0]));
    } else {
        let x = a.last();
        let y = b.last();
        assert(a.contains(x));
        assert(b.contains(y));
        assert(b.contains(x));
        assert(a.contains(y));
        let i = choose|i: int| 0 <= i < b.len() && b[i] == x;
        let j = choose|j: int| 0 <= j < a.len() && a[j] == y;
        if x != y {
            assert(rank(b[i], b[b.len() - 1]) == Rank::Before);
            assert(rank(a[j], a[a.len() - 1]) == Rank::Before);
            assert(rank(y, x) == flipped(rank(x, y)));
        }
        let p = a.drop_last();
        let q = b.drop_last();
        assert forall|k: T| #[trigger] p.contains(k) <==> q.contains(k) by {
            if p.contains(k) {
                let m = choose|m: int| 0 <= m < p.len() && p[m] == k;
                assert(a[m] == k);
                assert(a.contains(k));
                assert(b.contains(k));
                let n = choose|n: int| 0 <= n < b.len() && b[n] == k;
                lemma_strictly_distinct(a, rank);
                assert(k != x);
                assert(q[n] == k);
            }
            if q.contains(k) {
                let m = choose|m: int| 0 <= m < q.len() && q[m] == k;
                assert(b[m] == k);
                assert(b.contains(k));
                assert(a.contains(k));
                let n = choose|n: int| 0 <= n < a.len() && a[n] == k;
                lemma_strictly_distinct(b, rank);
                assert(k != y);
                assert(p[n] == k);
            }
        }
        lemma_strictly_determined(p, q, rank);
        assert(a =~= p.push(x));
        assert(b =~= q.push(y));
    }
}

/// A sequence in which each element stands before all that follow it is the
/// ranking of its members.
pub proof fn lemma_ranked<T>(s: Seq<T>, rank: spec_fn(T, T) -> Rank)
    requires
        lawful(rank),
        strictly(s, rank),
    ensures
        ranked(s.to_set(), rank) == s,
{
    let members = s.to_set();
    assert(s.to_set() == members && strictly(s, rank));
    let other = ranked(members, rank);
    assert forall|x: T| #[trigger] other.contains(x) <==> s.contains(x) by {
        assert(other.to_set().contains(x) <==> members.contains(x));
        assert(s.to_set().contains(x) <==> members.contains(x));
    }
    lemma_strictly_determined(other, s, rank);
}

/// Sequences that hold the same elements the same number of times have the same
/// members.
pub proof fn lemma_same_multiset<T>(a: Seq<T>, b: Seq<T>)
    requires
        a.to_multiset() == b.to_multiset(),
    ensures
        a.to_set() == b.to_set(),
        a.len() == b.len(),
        a.no_duplicates() == b.no_duplicates(),
{
    vstd::seq_lib::to_multiset_len(a);
    vstd::seq_lib::to_multiset_len(b);
    assert forall|x: T| a.contains(x) <==> b.contains(x) by {
        vstd::seq_lib::to_multiset_contains(a, x);
        vstd::seq_lib::to_multiset_contains(b, x);
    }
    assert(a.to_set() =~= b.to_set());
    if a.no_duplicates() {
        a.lemma_multiset_has_no_duplicates();
        b.lemma_multiset_has_no_duplicates_conv();
    }
    if b.no_duplicates() {
        b.lemma_multiset_has_no_duplicates();
        a.lemma_multiset_has_no_duplicates_conv();
    }
}

/// Sorting distinct elements that no two ranks confuse gives their ranking.
pub proof fn lemma_arranged_ranked<T>(items: Seq<T>, rank: spec_fn(T, T) -> Rank)
    requires
        lawful(rank),
        items.no_duplicates(),
        forall|a: T, b: T| items.contains(a) && items.contains(b) && #[trigger] rank(a, b) == Rank::Same ==> a == b,
    ensures
        arranged(items, by_rank(rank)) == ranked(items.to_set(), rank),
        arranged(items, by_rank(rank)).to_set() == items.to_set(),
        strictly(arranged(items, by_rank(rank)), rank),
{
    let out = arranged(items, by_rank(rank));
    lemma_sorted_by_rank(items, rank);
    crate::collections::lemma_arranged_keeps(items, by_rank(rank));
    lemma_same_multiset(out, items);
    assert forall|i: int, j: int| 0 <= i < j < out.len() implies rank(#[trigger] out[i], #[trigger] out[j]) == Rank::Before by {
        assert(by_rank(rank)(out[i], out[j]));
        assert(out.to_set().contains(out[i]) && out.to_set().contains(out[j])) by {
            assert(out.contains(out[i]) && out.contains(out[j]));
        }
        assert(items.contains(out[i]) && items.contains(out[j]));
        if rank(out[i], out[j]) == Rank::Same {
            assert(out[i] == out[j]);
        }
    }
    lemma_ranked(out, rank);
}

/// The elements that satisfy a condition, in their order.
pub open spec fn picked<T>(s: Seq<T>, keep: spec_fn(T) -> bool) -> Seq<T>
    decreases s.len(),
{
    if s.len() == 0 {
        s
    } else if keep(s.last()) {
        picked(s.drop_last(), keep).push(s.last())
    } else {
        picked(s.drop_last(), keep)
    }
}

/// Picking keeps the order, and picks exactly what satisfies the condition.
pub proof fn lemma_picked<T>(s: Seq<T>, keep: spec_fn(T) -> bool)
    ensures
        forall|x: T| #[trigger] picked(s, keep).contains(x) <==> s.contains(x) && keep(x),
        picked(s, keep).len() <= s.len(),
    decreases s.len(),
{
    if s.len() > 0 {
        let shorter = s.drop_last();
        lemma_picked(shorter, keep);
        assert forall|x: T| #[trigger] picked(s, keep).contains(x) <==> s.contains(x) && keep(x) by {
            assert(s =~= shorter.push(s.last()));
            crate::collections::lemma_push_contains(shorter, s.last());
            crate::collections::lemma_push_contains(picked(shorter, keep), s.last());
            assert(picked(shorter, keep).contains(x) <==> shorter.contains(x) && keep(x));
            assert(s.contains(x) <==> shorter.push(s.last()).contains(x));
            if keep(s.last()) {
                assert(picked(s, keep).contains(x) <==> picked(shorter, keep).push(s.last()).contains(x));
            }
        }
    }
}

/// Picking from a sequence in which each element stands before all that follow
/// it gives another such sequence.
pub proof fn lemma_picked_strictly<T>(s: Seq<T>, keep: spec_fn(T) -> bool, rank: spec_fn(T, T) -> Rank)
    requires
        strictly(s, rank),
    ensures
        strictly(picked(s, keep), rank),
    decreases s.len(),
{
    if s.len() > 0 {
        let shorter = s.drop_last();
        assert(strictly(shorter, rank));
        lemma_picked_strictly(shorter, keep, rank);
        lemma_picked(shorter, keep);
        if keep(s.last()) {
            let head = picked(shorter, keep);
            let out = head.push(s.last());
            assert forall|i: int, j: int| 0 <= i < j < out.len() implies rank(#[trigger] out[i], #[trigger] out[j]) == Rank::Before by {
                if j == head.len() {
                    assert(head.contains(head[i]));
                    let m = choose|m: int| 0 <= m < shorter.len() && shorter[m] == head[i];
                    assert(rank(s[m], s[s.len() - 1]) == Rank::Before);
                } else {
                    assert(out[i] == head[i] && out[j] == head[j]);
                }
            }
        }
    }
}

/// An element put at its place keeps each element before all that follow it.
pub proof fn lemma_insert_strictly<T>(s: Seq<T>, at: int, item: T, rank: spec_fn(T, T) -> Rank)
    requires
        lawful(rank),
        strictly(s, rank),
        0 <= at <= s.len(),
        forall|k: int| 0 <= k < at ==> rank(#[trigger] s[k], item) == Rank::Before,
        at < s.len() ==> rank(s[at], item) == Rank::After,
    ensures
        strictly(s.insert(at, item), rank),
        s.insert(at, item).to_set() == s.to_set().insert(item),
        forall|x: T| s.contains(x) ==> #[trigger] rank(x, item) != Rank::Same,
{
    let t = s.insert(at, item);
    assert forall|k: int| at <= k < s.len() implies rank(item, #[trigger] s[k]) == Rank::Before && rank(s[k], item) == Rank::After by {
        assert(rank(item, s[at]) == flipped(rank(s[at], item)));
        if k > at {
            assert(rank(s[at], s[k]) == Rank::Before);
            lemma_strict(rank, item, s[at], s[k]);
        }
        assert(rank(s[k], item) == flipped(rank(item, s[k])));
    }
    assert forall|x: int, y: int| 0 <= x < y < t.len() implies rank(#[trigger] t[x], #[trigger] t[y]) == Rank::Before by {
        let a = if x < at {
            x
        } else {
            x - 1
        };
        let b = if y < at {
            y
        } else {
            y - 1
        };
        if x != at {
            assert(t[x] == s[a]);
        }
        if y != at {
            assert(t[y] == s[b]);
        }
    }
    assert forall|x: T| t.contains(x) <==> s.contains(x) || x == item by {
        if s.contains(x) {
            let k = choose|k: int| 0 <= k < s.len() && s[k] == x;
            assert(t[if k < at {
                k
            } else {
                k + 1
            }] == x);
        }
        assert(t[at] == item);
        if t.contains(x) {
            let k = choose|k: int| 0 <= k < t.len() && t[k] == x;
            if k != at {
                assert(s[if k < at {
                    k
                } else {
                    k - 1
                }] == x);
            }
        }
    }
    assert(t.to_set() =~= s.to_set().insert(item));
    assert forall|x: T| s.contains(x) implies #[trigger] rank(x, item) != Rank::Same by {
        let k = choose|k: int| 0 <= k < s.len() && s[k] == x;
        if k < at {
            assert(rank(s[k], item) == Rank::Before);
        }
    }
}

} // verus!
