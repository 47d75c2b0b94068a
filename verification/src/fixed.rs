//! Decimal numbers with nine places.
use vstd::prelude::*;

use crate::fixed::literal::{
    number_of, push_units, read_number, text_of_units, units_are_a_word, units_read_back,
};
use crate::number::Real;

pub mod decay;
pub mod laws;
pub mod literal;

verus! {

/// A decimal number with nine places, held as a count of billionths.
///
/// Products and quotients are rounded down to a billionth. What goes beyond the
/// range is held to its ends, which stand for the two infinities.
#[derive(Clone, Copy, Debug, PartialEq, Eq, Structural)]
pub struct Fixed {
    /// The number, in billionths.
    pub units: i64,
}

/// One, in billionths.
pub const ONE: i64 = 1_000_000_000;

/// The base of the natural logarithm, in billionths.
pub const EULER: i64 = 2_718_281_828;

/// How many terms of the exponential series are taken after the first.
pub const SERIES_TERMS: u64 = 14;

/// How many times the interval that holds a logarithm is halved.
pub const HALVINGS: u64 = 40;

impl Fixed {
    /// The number of `v` billionths, held to the range.
    pub open spec fn held(v: int) -> Fixed {
        if v > i64::MAX {
            Fixed { units: i64::MAX }
        } else if v < i64::MIN {
            Fixed { units: i64::MIN }
        } else {
            Fixed { units: v as i64 }
        }
    }

    pub(crate) fn hold(v: i128) -> (r: Fixed)
        ensures
            r == Fixed::held(v as int),
    {
        if v > i64::MAX as i128 {
            Fixed { units: i64::MAX }
        } else if v < i64::MIN as i128 {
            Fixed { units: i64::MIN }
        } else {
            Fixed { units: v as i64 }
        }
    }
}

/// `p / d`, rounded down.
fn floor_div(p: i128, d: i128) -> (r: i128)
    requires
        d > 0,
        p > i128::MIN,
    ensures
        r == p as int / d as int,
{
    if p >= 0 {
        p / d
    } else {
        let m: i128 = -p;
        let q: i128 = m / d;
        let rem: i128 = m % d;
        proof {
            vstd::arithmetic::div_mod::lemma_fundamental_div_mod(m as int, d as int);
            vstd::arithmetic::div_mod::lemma_mod_bound(m as int, d as int);
            vstd::arithmetic::div_mod::lemma_div_is_ordered_by_denominator(m as int, 1, d as int);
        }
        if rem == 0 {
            proof {
                assert(p == d * -q) by (nonlinear_arith)
                    requires
                        m == d * q,
                        p == -m,
                ;
                vstd::arithmetic::div_mod::lemma_fundamental_div_mod_converse(
                    p as int,
                    d as int,
                    -q as int,
                    0,
                );
            }
            -q
        } else {
            proof {
                assert(p == d * (-q - 1) + (d - rem)) by (nonlinear_arith)
                    requires
                        m == d * q + rem,
                        p == -m,
                ;
                vstd::arithmetic::div_mod::lemma_fundamental_div_mod_converse(
                    p as int,
                    d as int,
                    -q - 1,
                    d - rem,
                );
                assert(q <= m);
            }
            -q - 1
        }
    }
}

/// The sum of the next `left` terms of the exponential series at `x`, after the
/// term `term` of index `i - 1`, added to `acc` one after the other.
pub open spec fn series(x: Fixed, acc: Fixed, term: Fixed, i: u64, left: nat) -> Fixed
    decreases left,
{
    if left == 0 {
        acc
    } else {
        let next = term.prod(x).quot(Fixed::int_of(i));
        series(x, acc.sum(next), next, (i + 1) as u64, (left - 1) as nat)
    }
}

/// `acc` times the `k`th power of the base of the natural logarithm.
pub open spec fn euler_power(acc: Fixed, k: nat) -> Fixed
    decreases k,
{
    if k == 0 {
        acc
    } else {
        euler_power(acc.prod(Fixed { units: EULER }), (k - 1) as nat)
    }
}

/// The exponential of a number that is not negative: the series for what is
/// behind the point, times a power for what is before it.
pub open spec fn exp_up(x: Fixed) -> Fixed {
    let whole = x.units as int / ONE as int;
    if whole > 22 {
        Fixed { units: i64::MAX }
    } else {
        let part = Fixed { units: (x.units as int % ONE as int) as i64 };
        let one = Fixed { units: ONE };
        euler_power(series(part, one, one, 1, SERIES_TERMS as nat), whole as nat)
    }
}

/// What is left of one, in billionths of a billionth, once it has lost a
/// billionth `x` times over: by squaring, rounded down at every step.
pub open spec fn fade(x: nat) -> nat
    decreases x,
{
    if x == 0 {
        1_000_000_000_000_000_000
    } else if x % 2 == 0 {
        (fade(x / 2) * fade(x / 2)) / 1_000_000_000_000_000_000
    } else {
        (fade((x - 1) as nat) * 999_999_999) / 1_000_000_000
    }
}

/// The exponential of minus `x` billionths, rounded to the nearest billionth.
pub open spec fn exp_down(x: nat) -> int {
    (fade(x) + 500_000_000) as int / 1_000_000_000
}

/// Halves the interval `lo..hi`, keeping in it the point where the exponential
/// passes `x`.
pub open spec fn ln_between(x: Fixed, lo: int, hi: int, left: nat) -> int
    decreases left,
{
    if left == 0 {
        lo
    } else {
        let mid = (lo + hi) / 2;
        if Fixed::held(mid).exp_of().units <= x.units {
            ln_between(x, mid, hi, (left - 1) as nat)
        } else {
            ln_between(x, lo, mid, (left - 1) as nat)
        }
    }
}

impl Real for Fixed {
    open spec fn int_of(n: u64) -> Fixed {
        Fixed::held(n * ONE)
    }

    open spec fn inf_of() -> Fixed {
        Fixed { units: i64::MAX }
    }

    open spec fn neg_inf_of() -> Fixed {
        Fixed { units: i64::MIN }
    }

    open spec fn sum(self, o: Fixed) -> Fixed {
        Fixed::held(self.units + o.units)
    }

    open spec fn diff(self, o: Fixed) -> Fixed {
        Fixed::held(self.units - o.units)
    }

    open spec fn prod(self, o: Fixed) -> Fixed {
        Fixed::held((self.units * o.units) / (ONE as int))
    }

    open spec fn quot(self, o: Fixed) -> Fixed {
        if o.units > 0 {
            Fixed::held((self.units * ONE) / (o.units as int))
        } else if o.units < 0 {
            Fixed::held((-(self.units * ONE)) / (-(o.units as int)))
        } else if self.units > 0 {
            Fixed { units: i64::MAX }
        } else if self.units < 0 {
            Fixed { units: i64::MIN }
        } else {
            Fixed { units: 0 }
        }
    }

    open spec fn rest(self, o: Fixed) -> Fixed {
        let d: int = if o.units < 0 {
            -(o.units as int)
        } else {
            o.units as int
        };
        if d == 0 {
            Fixed { units: 0 }
        } else if self.units >= 0 {
            Fixed::held(self.units as int % d)
        } else {
            Fixed::held(-((-(self.units as int)) % d))
        }
    }

    open spec fn negated(self) -> Fixed {
        Fixed::held(-(self.units as int))
    }

    open spec fn larger(self, o: Fixed) -> Fixed {
        if self.units >= o.units {
            self
        } else {
            o
        }
    }

    open spec fn smaller(self, o: Fixed) -> Fixed {
        if self.units <= o.units {
            self
        } else {
            o
        }
    }

    open spec fn exp_of(self) -> Fixed {
        if self.units >= 0 {
            exp_up(self)
        } else {
            Fixed::held(exp_down((-(self.units as int)) as nat))
        }
    }

    open spec fn ln_of(self) -> Fixed {
        if self.units <= 0 {
            Fixed { units: i64::MIN }
        } else {
            Fixed::held(ln_between(self, -21_000_000_000, 23_000_000_000, HALVINGS as nat))
        }
    }

    open spec fn below(self, o: Fixed) -> bool {
        self.units < o.units
    }

    open spec fn at_most(self, o: Fixed) -> bool {
        self.units <= o.units
    }

    open spec fn same(self, o: Fixed) -> bool {
        self.units == o.units
    }

    open spec fn rank(self) -> int {
        self.units as int
    }

    open spec fn ceil_of(self) -> u64 {
        if self.units <= 0 {
            0
        } else {
            ((self.units + ONE - 1) / (ONE as int)) as u64
        }
    }

    open spec fn text_of(self) -> Seq<char> {
        text_of_units(self.units as int)
    }

    open spec fn read_of(text: Seq<char>) -> Result<Fixed, Seq<char>> {
        number_of(text)
    }

    fn from_int(n: u64) -> (r: Fixed) {
        Fixed::hold(n as i128 * ONE as i128)
    }

    fn infinity() -> (r: Fixed) {
        Fixed { units: i64::MAX }
    }

    fn neg_infinity() -> (r: Fixed) {
        Fixed { units: i64::MIN }
    }

    fn plus(self, o: Fixed) -> (r: Fixed) {
        Fixed::hold(self.units as i128 + o.units as i128)
    }

    fn minus(self, o: Fixed) -> (r: Fixed) {
        Fixed::hold(self.units as i128 - o.units as i128)
    }

    fn times(self, o: Fixed) -> (r: Fixed) {
        let a: i128 = self.units as i128;
        let b: i128 = o.units as i128;
        proof {
            product_in_range(a as int, b as int);
        }
        Fixed::hold(floor_div(a * b, ONE as i128))
    }

    fn over(self, o: Fixed) -> (r: Fixed) {
        proof {
            product_in_range(self.units as int, ONE as int);
        }
        let a: i128 = self.units as i128 * ONE as i128;
        let b: i128 = o.units as i128;
        if b > 0 {
            Fixed::hold(floor_div(a, b))
        } else if b < 0 {
            Fixed::hold(floor_div(-a, -b))
        } else if a > 0 {
            Fixed { units: i64::MAX }
        } else if a < 0 {
            Fixed { units: i64::MIN }
        } else {
            Fixed { units: 0 }
        }
    }

    fn modulo(self, o: Fixed) -> (r: Fixed) {
        let d: i128 = if o.units < 0 {
            -(o.units as i128)
        } else {
            o.units as i128
        };
        let a: i128 = self.units as i128;
        if d == 0 {
            Fixed { units: 0 }
        } else if a >= 0 {
            Fixed::hold(a % d)
        } else {
            Fixed::hold(-((-a) % d))
        }
    }

    fn neg(self) -> (r: Fixed) {
        Fixed::hold(-(self.units as i128))
    }

    fn max_with(self, o: Fixed) -> (r: Fixed) {
        if self.units >= o.units {
            self
        } else {
            o
        }
    }

    fn min_with(self, o: Fixed) -> (r: Fixed) {
        if self.units <= o.units {
            self
        } else {
            o
        }
    }

    fn exp(self) -> (r: Fixed) {
        if self.units >= 0 {
            exp_of_positive(self)
        } else {
            let x: u64 = (-(self.units as i128)) as u64;
            let left: u64 = faded(x);
            Fixed { units: ((left + 500_000_000) / 1_000_000_000) as i64 }
        }
    }

    fn ln(self) -> (r: Fixed) {
        if self.units <= 0 {
            return Fixed { units: i64::MIN };
        }
        let mut lo: i64 = -21_000_000_000;
        let mut hi: i64 = 23_000_000_000;
        let mut left: u64 = HALVINGS;
        while left > 0
            invariant
                self.units > 0,
                -21_000_000_000 <= lo <= hi <= 23_000_000_000,
                ln_between(self, lo as int, hi as int, left as nat) == ln_between(
                    self,
                    -21_000_000_000,
                    23_000_000_000,
                    HALVINGS as nat,
                ),
            decreases left,
        {
            let mid: i64 = floor_div(lo as i128 + hi as i128, 2) as i64;
            if (Fixed { units: mid }).exp().units <= self.units {
                lo = mid;
            } else {
                hi = mid;
            }
            left = left - 1;
        }
        Fixed { units: lo }
    }

    fn is_lt(self, o: Fixed) -> (r: bool) {
        self.units < o.units
    }

    fn is_le(self, o: Fixed) -> (r: bool) {
        self.units <= o.units
    }

    fn is_same(self, o: Fixed) -> (r: bool) {
        self.units == o.units
    }

    fn ranks_before(self, o: Fixed) -> (r: bool) {
        self.units < o.units
    }

    fn ceil_u64(self) -> (r: u64) {
        if self.units <= 0 {
            0
        } else {
            ((self.units as i128 + ONE as i128 - 1) / (ONE as i128)) as u64
        }
    }

    fn write(self, out: &mut String) {
        push_units(out, self.units);
    }

    fn read(text: &str) -> (r: Result<Fixed, String>) {
        read_number(text)
    }

    proof fn below_ranks_before(a: Fixed, b: Fixed) {
    }

    proof fn text_reads_back(a: Fixed) {
        units_read_back(a.units);
    }

    proof fn text_is_word(a: Fixed) {
        units_are_a_word(a.units);
    }
}

/// The product of two counts fits in twice the width.
proof fn product_in_range(a: int, b: int)
    requires
        i64::MIN <= a <= i64::MAX,
        i64::MIN <= b <= i64::MAX,
    ensures
        i128::MIN < a * b <= i128::MAX,
{
    assert(-0x4000_0000_0000_0000_0000_0000_0000_0000 <= a * b
        <= 0x4000_0000_0000_0000_0000_0000_0000_0000) by (nonlinear_arith)
        requires
            -0x8000_0000_0000_0000 <= a <= 0x7fff_ffff_ffff_ffff,
            -0x8000_0000_0000_0000 <= b <= 0x7fff_ffff_ffff_ffff,
    ;
}

/// The exponential of a number that is not negative.
fn exp_of_positive(x: Fixed) -> (r: Fixed)
    requires
        x.units >= 0,
    ensures
        r == exp_up(x),
{
    let whole: i64 = x.units / ONE;
    if whole > 22 {
        return Fixed { units: i64::MAX };
    }
    let part = Fixed { units: x.units % ONE };
    let one = Fixed { units: ONE };
    let mut acc = one;
    let mut term = one;
    let mut i: u64 = 1;
    while i <= SERIES_TERMS
        invariant
            1 <= i <= SERIES_TERMS + 1,
            series(part, acc, term, i, (SERIES_TERMS + 1 - i) as nat) == series(
                part,
                one,
                one,
                1,
                SERIES_TERMS as nat,
            ),
        decreases SERIES_TERMS + 1 - i,
    {
        term = term.times(part).over(Fixed::from_int(i));
        acc = acc.plus(term);
        i = i + 1;
    }
    let mut k: i64 = whole;
    while k > 0
        invariant
            0 <= k <= whole,
            euler_power(acc, k as nat) == euler_power(
                series(part, one, one, 1, SERIES_TERMS as nat),
                whole as nat,
            ),
        decreases k,
    {
        acc = acc.times(Fixed { units: EULER });
        k = k - 1;
    }
    acc
}

/// What is left of one once it has lost a billionth `x` times over.
fn faded(x: u64) -> (r: u64)
    ensures
        r == fade(x as nat),
        r <= 1_000_000_000_000_000_000,
    decreases x,
{
    if x == 0 {
        1_000_000_000_000_000_000
    } else if x % 2 == 0 {
        let h: u64 = faded(x / 2);
        assert(h * h <= 1_000_000_000_000_000_000 * 1_000_000_000_000_000_000) by (nonlinear_arith)
            requires
                0 <= h <= 1_000_000_000_000_000_000,
        ;
        assert((h * h) / 1_000_000_000_000_000_000 <= 1_000_000_000_000_000_000);
        ((h as u128 * h as u128) / 1_000_000_000_000_000_000) as u64
    } else {
        let h: u64 = faded(x - 1);
        ((h as u128 * 999_999_999) / 1_000_000_000) as u64
    }
}

} // verus!
