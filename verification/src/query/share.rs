//! Shares rounded to whole hundredths.
//!
//! A share is reported as the number with two decimals that binary
//! floating-point arithmetic gives: the double nearest to the fraction is taken
//! a hundred times, which gives a double again, and that is rounded to a whole
//! number. A fraction that lies halfway between two hundredths goes up or down
//! by what the two doubles are, so the steps are carried out here as they are
//! there, on whole numbers. A double is a power of two times a significand, a
//! whole number from two to the power of fifty-two up to twice that.

use vstd::prelude::*;

verus! {

/// The whole number nearest to a fraction, and the even one of two that are
/// equally near.
pub open spec fn nearest_even(n: nat, d: nat) -> nat {
    if 2 * (n % d) < d || (2 * (n % d) == d && (n / d) % 2 == 0) {
        n / d
    } else {
        n / d + 1
    }
}

/// The first power of two, from one on, that takes a fraction up to the
/// significands.
pub open spec fn widening(n: nat, d: nat, from: nat) -> nat
    decreases 0x20_0000_0000_0000 * d - n * from,
{
    if n == 0 || from == 0 || n * from >= 0x10_0000_0000_0000 * d {
        from
    } else {
        proof {
            assert(n * (2 * from) == 2 * (n * from) && n * from > 0) by (nonlinear_arith)
                requires
                    n > 0,
                    from > 0,
            ;
        }
        widening(n, d, 2 * from)
    }
}

/// The first power of two, from one on, by which a number is divided down to
/// the significands.
pub open spec fn narrowing(n: nat, from: nat) -> nat
    decreases n - from,
{
    if from == 0 || n < 0x20_0000_0000_0000 * from {
        from
    } else {
        narrowing(n, 2 * from)
    }
}

/// The double nearest to a fraction, as a whole number over a power of two.
pub open spec fn nearest_double(n: nat, d: nat) -> (nat, nat) {
    let scale = widening(n, d, 1);
    (nearest_even(n * scale, d), scale)
}

/// The double nearest to a double times a hundred, over the same power of two.
pub open spec fn hundredfold(double: (nat, nat)) -> (nat, nat) {
    let scale = narrowing(double.0 * 100, 1);
    (nearest_even(double.0 * 100, scale) * scale, double.1)
}

/// The whole number nearest to a double, halves going up.
pub open spec fn rounded(double: (nat, nat)) -> nat {
    (2 * double.0 + double.1) / (2 * double.1)
}

/// A fraction in whole hundredths.
pub open spec fn hundredths(part: nat, whole: nat) -> nat {
    rounded(hundredfold(nearest_double(part, whole)))
}

/// A number that is at most a multiple of another is at most that multiple of
/// it when rounded, and rounding adds at most half.
pub(crate) proof fn lemma_nearest_even(n: nat, d: nat, k: nat)
    requires
        d > 0,
        n <= k * d,
    ensures
        nearest_even(n, d) <= k,
        2 * (nearest_even(n, d) * d) <= 2 * n + d,
{
    let q = n / d;
    let r = n % d;
    assert(n == q * d + r && r < d) by (nonlinear_arith)
        requires
            d > 0,
            q == n / d,
            r == n % d,
    ;
    assert(q <= k && (q == k ==> r == 0)) by (nonlinear_arith)
        requires
            n == q * d + r,
            r < d,
            n <= k * d,
            d > 0,
    ;
    assert((q + 1) * d == q * d + d) by (nonlinear_arith);
}

/// What is known of the power that a fraction up to one is widened by.
pub(crate) proof fn lemma_widening(n: nat, d: nat, from: nat)
    requires
        0 < n <= d,
        from > 0,
        from == 1 || n * from < 0x20_0000_0000_0000 * d,
    ensures
        widening(n, d, from) >= 0x10_0000_0000_0000,
        n * widening(n, d, from) < 0x20_0000_0000_0000 * d,
    decreases 0x20_0000_0000_0000 * d - n * from,
{
    if n * from >= 0x10_0000_0000_0000 * d {
        assert(from >= 0x10_0000_0000_0000) by (nonlinear_arith)
            requires
                n * from >= 0x10_0000_0000_0000 * d,
                0 < n <= d,
        ;
    } else {
        assert(n * (2 * from) == 2 * (n * from) && n * from > 0) by (nonlinear_arith)
            requires
                n > 0,
                from > 0,
        ;
        lemma_widening(n, d, 2 * from);
    }
}

/// A hundred times a significand is narrowed by a hundred and twenty-eight at
/// most.
pub(crate) proof fn lemma_narrowing(n: nat)
    requires
        n <= 100 * 0x20_0000_0000_0000,
    ensures
        0 < narrowing(n, 1) <= 128,
{
    reveal_with_fuel(narrowing, 9);
}

/// A share of a whole is at most a hundred hundredths.
pub proof fn lemma_hundredths_bounded(part: nat, whole: nat)
    requires
        part <= whole,
        whole > 0,
    ensures
        hundredths(part, whole) <= 100,
{
    let scale = widening(part, whole, 1);
    let m = nearest_even(part * scale, whole);
    if part == 0 {
        assert(scale == 1);
        assert(part * scale == 0) by (nonlinear_arith)
            requires
                part == 0,
        ;
        lemma_nearest_even(0, whole, 0);
        assert(narrowing(0, 1) == 1);
        lemma_nearest_even(0, 1, 0);
        assert(hundredfold((0nat, 1nat)) == (0nat, 1nat)) by {
            assert(nearest_even(0, 1) == 0);
        }
    } else {
        lemma_widening(part, whole, 1);
        assert(part * scale <= scale * whole) by (nonlinear_arith)
            requires
                part <= whole,
        ;
        lemma_nearest_even(part * scale, whole, scale);
        lemma_nearest_even(part * scale, whole, 0x20_0000_0000_0000nat);
        let n = m * 100;
        let t = narrowing(n, 1);
        lemma_narrowing(n);
        assert(n <= n * t) by (nonlinear_arith)
            requires
                t >= 1,
        ;
        lemma_nearest_even(n, t, n);
        let p = nearest_even(n, t) * t;
        assert(2 * p <= 200 * scale + 128);
        assert((2 * p + scale) / (2 * scale) <= 100) by (nonlinear_arith)
            requires
                2 * p <= 200 * scale + 128,
                scale >= 0x10_0000_0000_0000,
        ;
    }
}

fn divide(n: u128, d: u128) -> (r: u128)
    requires
        0 < d < 0x1_0000_0000_0000_0000_0000_0000,
        n < 0x1_0000_0000_0000_0000_0000_0000,
    ensures
        r == nearest_even(n as nat, d as nat),
{
    let rest: u128 = n % d;
    if 2 * rest < d || (2 * rest == d && (n / d) % 2 == 0) {
        n / d
    } else {
        proof {
            assert(n / d <= n) by (nonlinear_arith)
                requires
                    d > 0,
            ;
        }
        n / d + 1
    }
}

/// A fraction up to one in whole hundredths.
pub(crate) fn share(part: u32, whole: u32) -> (r: u32)
    requires
        part <= whole,
        whole > 0,
    ensures
        r == hundredths(part as nat, whole as nat),
        r <= 100,
{
    proof {
        lemma_hundredths_bounded(part as nat, whole as nat);
    }
    if part == 0 {
        proof {
            assert(nearest_even(0, whole as nat) == 0) by {
                lemma_nearest_even(0, whole as nat, 0);
            }
            assert(nearest_even(0, 1) == 0);
            assert(nearest_double(0, whole as nat) == (0nat, 1nat));
            assert(narrowing(0, 1) == 1);
            assert(hundredfold((0nat, 1nat)) == (0nat, 1nat));
            assert((2 * 0nat + 1nat) / (2 * 1nat) == 0) by (nonlinear_arith);
        }
        return 0;
    }
    let n: u128 = part as u128;
    let d: u128 = whole as u128;
    let least: u128 = 0x10_0000_0000_0000 * d;
    let mut scale: u128 = 1;
    let mut lifted: u128 = n;
    while lifted < least
        invariant
            0 < n <= d <= u32::MAX,
            least == 0x10_0000_0000_0000 * d,
            lifted == n * scale,
            1 <= scale <= lifted,
            scale == 1 || lifted < 2 * least,
            widening(n as nat, d as nat, scale as nat) == widening(n as nat, d as nat, 1),
        decreases 2 * least - lifted,
    {
        assert(n * (2 * scale) == 2 * (n * scale)) by (nonlinear_arith);
        lifted = 2 * lifted;
        scale = 2 * scale;
    }
    assert(lifted < 2 * least);
    proof {
        lemma_widening(n as nat, d as nat, 1);
        lemma_nearest_even(lifted as nat, d as nat, 0x20_0000_0000_0000nat);
    }
    let double = divide(lifted, d);
    let hundred: u128 = double * 100;
    proof {
        lemma_narrowing(hundred as nat);
    }
    let mut unit: u128 = 1;
    while hundred >= 0x20_0000_0000_0000 * unit
        invariant
            1 <= unit <= hundred || unit == 1,
            unit <= 200,
            hundred <= 100 * 0x20_0000_0000_0000,
            0 < narrowing(hundred as nat, 1) <= 128,
            narrowing(hundred as nat, unit as nat) == narrowing(hundred as nat, 1),
        decreases hundred - unit,
    {
        unit = 2 * unit;
    }
    let units = divide(hundred, unit);
    proof {
        assert(hundred <= hundred * unit) by (nonlinear_arith)
            requires
                unit >= 1,
        ;
        lemma_nearest_even(hundred as nat, unit as nat, hundred as nat);
    }
    assert(units * unit <= hundred + 64) by (nonlinear_arith)
        requires
            2 * (units * unit) <= 2 * hundred + unit,
            unit <= 128,
    ;
    ((2 * (units * unit) + scale) / (2 * scale)) as u32
}

} // verus!
