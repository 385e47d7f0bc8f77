//! How many numbers satisfy a condition, and what they weigh together.

use vstd::prelude::*;

verus! {

/// How many of the numbers before `n` satisfy a condition.
pub open spec fn how_many(n: int, holds: spec_fn(int) -> bool) -> nat
    decreases n,
{
    if n <= 0 {
        0
    } else {
        how_many(n - 1, holds) + if holds(n - 1) {
            1nat
        } else {
            0
        }
    }
}

/// What the numbers before `n` weigh together.
pub open spec fn sum(n: int, weight: spec_fn(int) -> nat) -> nat
    decreases n,
{
    if n <= 0 {
        0
    } else {
        sum(n - 1, weight) + weight(n - 1)
    }
}

/// Conditions that agree are satisfied by equally many numbers.
pub proof fn lemma_how_many_same(n: int, a: spec_fn(int) -> bool, b: spec_fn(int) -> bool)
    requires
        forall|i: int| 0 <= i < n ==> #[trigger] a(i) == b(i),
    ensures
        how_many(n, a) == how_many(n, b),
    decreases n,
{
    if n > 0 {
        lemma_how_many_same(n - 1, a, b);
        assert(a(n - 1) == b(n - 1));
    }
}

/// A condition that none of some numbers satisfies.
pub proof fn lemma_how_many_none(n: int, a: spec_fn(int) -> bool)
    requires
        forall|i: int| 0 <= i < n ==> !#[trigger] a(i),
    ensures
        how_many(n, a) == 0,
    decreases n,
{
    if n > 0 {
        lemma_how_many_none(n - 1, a);
        assert(!a(n - 1));
    }
}

/// A condition that one number more satisfies.
pub proof fn lemma_how_many_more(n: int, a: spec_fn(int) -> bool, b: spec_fn(int) -> bool, x: int)
    requires
        0 <= x < n,
        !a(x),
        b(x),
        forall|i: int| 0 <= i < n && i != x ==> #[trigger] a(i) == b(i),
    ensures
        how_many(n, b) == how_many(n, a) + 1,
    decreases n,
{
    if x == n - 1 {
        lemma_how_many_same(n - 1, a, b);
    } else {
        lemma_how_many_more(n - 1, a, b, x);
        assert(a(n - 1) == b(n - 1));
    }
}

/// Numbers that satisfy nothing and weigh nothing do not count.
pub proof fn lemma_counts_settle(from: int, to: int, holds: spec_fn(int) -> bool, weight: spec_fn(int) -> nat)
    requires
        from <= to,
        forall|i: int| from <= i < to ==> !#[trigger] holds(i) && weight(i) == 0,
    ensures
        how_many(to, holds) == how_many(from, holds),
        sum(to, weight) == sum(from, weight),
    decreases to - from,
{
    if from < to {
        lemma_counts_settle(from, to - 1, holds, weight);
        assert(!holds(to - 1) && weight(to - 1) == 0);
    }
}

} // verus!
