//! What holds of the exponential and the logarithm.
use vstd::prelude::*;

use crate::fixed::decay::exp_down_is_a_share;
use crate::fixed::{
    euler_power, exp_up, ln_between, series, Fixed, EULER, HALVINGS, ONE, SERIES_TERMS,
};
use crate::number::Real;

verus! {

/// Terms of the series are not negative.
proof fn series_grows(x: Fixed, acc: Fixed, term: Fixed, i: u64, left: nat)
    requires
        x.units >= 0,
        term.units >= 0,
        1 <= i,
        i + left <= 1000,
    ensures
        series(x, acc, term, i, left).units >= acc.units,
    decreases left,
{
    if left > 0 {
        let p = term.prod(x);
        assert(term.units * x.units >= 0) by (nonlinear_arith)
            requires
                term.units >= 0,
                x.units >= 0,
        ;
        assert((term.units * x.units) / (ONE as int) >= 0);
        assert(p.units >= 0);
        let n = Fixed::int_of(i);
        assert(n.units > 0);
        vstd::arithmetic::div_mod::lemma_div_pos_is_pos(p.units * ONE, n.units as int);
        let next = p.quot(n);
        assert(next.units >= 0);
        series_grows(x, acc.sum(next), next, (i + 1) as u64, (left - 1) as nat);
    }
}

proof fn euler_power_grows(acc: Fixed, k: nat)
    requires
        acc.units > 0,
    ensures
        euler_power(acc, k).units >= acc.units,
        k > 0 && acc.units < i64::MAX ==> euler_power(acc, k).units > acc.units,
    decreases k,
{
    if k > 0 {
        let a = acc.units as int;
        let raw = a * EULER;
        assert(raw >= 2 * (a * ONE)) by (nonlinear_arith)
            requires
                raw == a * EULER,
                a > 0,
                EULER == 2_718_281_828,
                ONE == 1_000_000_000,
        ;
        assert(raw / (ONE as int) >= 2 * a);
        let next = acc.prod(Fixed { units: EULER });
        assert(next.units >= acc.units);
        euler_power_grows(next, (k - 1) as nat);
    }
}

/// The exponential of zero is one, and that of a positive number is more.
pub proof fn exp_up_is_above_one(x: Fixed)
    requires
        x.units >= 0,
    ensures
        exp_up(x).units >= ONE,
        x.units > 0 ==> exp_up(x).units > ONE,
        x.units == 0 ==> exp_up(x).units == ONE,
{
    let whole = x.units as int / ONE as int;
    if whole <= 22 {
        let part = Fixed { units: (x.units as int % ONE as int) as i64 };
        let one = Fixed { units: ONE };
        let first = one.prod(part).quot(Fixed::int_of(1));
        assert(one.prod(part).units == part.units);
        assert((part.units * ONE) / (ONE as int) == part.units);
        assert(first == part);
        let sum = series(part, one, one, 1, SERIES_TERMS as nat);
        assert(sum == series(part, one.sum(first), first, 2, (SERIES_TERMS - 1) as nat));
        series_grows(part, one.sum(first), first, 2, (SERIES_TERMS - 1) as nat);
        euler_power_grows(sum, whole as nat);
        if x.units == 0 {
            series_of_zero(one, 1, SERIES_TERMS as nat, one);
        }
    }
}

proof fn series_of_zero(acc: Fixed, i: u64, left: nat, term: Fixed)
    requires
        1 <= i,
        i + left <= 1000,
    ensures
        series(Fixed { units: 0 }, acc, term, i, left) == acc,
    decreases left,
{
    if left > 0 {
        let zero = Fixed { units: 0 };
        assert(term.prod(zero) == zero) by {
            assert(term.units * 0 == 0);
        }
        let n = Fixed::int_of(i);
        assert(n.units > 0);
        assert(zero.quot(n) == zero) by {
            vstd::arithmetic::div_mod::lemma_div_of0(n.units as int);
        }
        series_of_zero(acc.sum(zero), (i + 1) as u64, (left - 1) as nat, zero);
    }
}

/// The exponential of a number that is not positive lies between zero and one.
pub proof fn exp_of_negative_is_a_share(x: Fixed)
    requires
        x.units <= 0,
    ensures
        0 <= x.exp_of().units <= ONE,
        x.units == 0 ==> x.exp_of().units == ONE,
{
    exp_down_is_a_share((-(x.units as int)) as nat);
    if x.units == 0 {
        exp_up_is_above_one(x);
    }
}

/// The logarithm of a number up to one is not positive.
pub proof fn ln_up_to_one_is_not_positive(x: Fixed)
    requires
        x.units <= ONE,
    ensures
        x.ln_of().units <= 0,
{
    if x.units > 0 {
        halving_stays_low(x, -21_000_000_000, 23_000_000_000, HALVINGS as nat);
    }
}

proof fn halving_stays_low(x: Fixed, lo: int, hi: int, left: nat)
    requires
        x.units <= ONE,
        -21_000_000_000 <= lo <= 0,
        lo <= hi <= 23_000_000_000,
    ensures
        ln_between(x, lo, hi, left) <= 0,
    decreases left,
{
    if left > 0 {
        let mid = (lo + hi) / 2;
        if mid > 0 {
            exp_up_is_above_one(Fixed::held(mid));
            halving_stays_low(x, lo, mid, (left - 1) as nat);
        } else {
            halving_stays_low(x, mid, hi, (left - 1) as nat);
            halving_stays_low(x, lo, mid, (left - 1) as nat);
        }
    }
}

} // verus!
