//! What decays in two steps is near what decays in one.
//!
//! The exponential of minus `x` billionths is taken by squaring, which rounds at
//! every step. Measured against the fraction `(1 - 1/10^9)^x`, whose powers
//! multiply exactly, it is never above and at most a few billionths below.
use vstd::arithmetic::power::{lemma_pow_adds, lemma_pow_positive, pow};
use vstd::prelude::*;

use crate::fixed::{exp_down, fade};

verus! {

/// A billion.
spec fn big() -> int {
    1_000_000_000
}

/// A billion billions.
spec fn huge() -> int {
    1_000_000_000_000_000_000
}

/// The numerator of what is left after `x` losses of a billionth.
spec fn num(x: nat) -> int {
    pow(big() - 1, x)
}

/// Its denominator.
spec fn den(x: nat) -> int {
    pow(big(), x)
}

proof fn powers(x: nat, y: nat)
    ensures
        0 < num(x),
        0 < den(x),
        num(x + y) == num(x) * num(y),
        den(x + y) == den(x) * den(y),
        num(x + 1) == num(x) * (big() - 1),
        den(x + 1) == den(x) * big(),
        num(0) == 1,
        den(0) == 1,
{
    lemma_pow_positive(big() - 1, x);
    lemma_pow_positive(big(), x);
    lemma_pow_adds(big() - 1, x, y);
    lemma_pow_adds(big(), x, y);
    lemma_pow_adds(big() - 1, x, 1);
    lemma_pow_adds(big(), x, 1);
    vstd::arithmetic::power::lemma_pow1(big() - 1);
    vstd::arithmetic::power::lemma_pow1(big());
    vstd::arithmetic::power::lemma_pow0(big() - 1);
    vstd::arithmetic::power::lemma_pow0(big());
}

/// Losing a billionth `x` times leaves less the more often it is lost.
proof fn losses_add_up(x: nat)
    ensures
        (big() - 1 + x) * num(x) <= (big() - 1) * den(x),
    decreases x,
{
    powers(0, 0);
    if x > 0 {
        let y = (x - 1) as nat;
        losses_add_up(y);
        powers(y, 1);
        let m = big() - 1;
        let (p, q) = (num(y), den(y));
        assert((m + y + 1) * (p * m) <= m * (q * (m + 1))) by (nonlinear_arith)
            requires
                (m + y) * p <= m * q,
                0 < p,
                m > 0,
                y >= 0,
        ;
    } else {
        assert((big() - 1 + 0) * 1 == (big() - 1) * 1);
    }
}

/// The fraction is no more than one, and no more than half after a billion
/// losses.
proof fn fraction_shrinks(x: nat)
    ensures
        num(x) <= den(x),
        x >= big() ==> 2 * num(x) <= den(x),
{
    losses_add_up(x);
    powers(x, 0);
    let m = big() - 1;
    let (p, q) = (num(x), den(x));
    assert(p <= q) by (nonlinear_arith)
        requires
            (m + x) * p <= m * q,
            0 < p,
            m > 0,
            x >= 0,
    ;
    if x >= big() {
        assert(2 * p <= q) by (nonlinear_arith)
            requires
                (m + x) * p <= m * q,
                0 < p,
                m > 0,
                x >= m,
        ;
    }
}

/// What fades is never above the fraction.
proof fn fade_is_below(x: nat)
    ensures
        fade(x) * den(x) <= huge() * num(x),
        fade(x) <= huge(),
    decreases x,
{
    powers(0, 0);
    fraction_shrinks(x);
    powers(x, 0);
    if x > 0 {
        if x % 2 == 0 {
            let y = (x / 2) as nat;
            fade_is_below(y);
            powers(y, y);
            assert(y + y == x);
            let h = fade(y) as int;
            let f = fade(x) as int;
            let (p, q) = (num(y), den(y));
            let s = huge();
            assert(s * f <= h * h);
            assert((h * q) * (h * q) <= (s * p) * (s * p)) by (nonlinear_arith)
                requires
                    0 <= h * q <= s * p,
            ;
            assert(0 <= h * q) by (nonlinear_arith)
                requires
                    0 <= h,
                    0 < q,
            ;
            assert((s * f) * (q * q) <= (h * h) * (q * q)) by (nonlinear_arith)
                requires
                    s * f <= h * h,
                    0 < q,
            ;
            assert((h * h) * (q * q) == (h * q) * (h * q)) by (nonlinear_arith);
            assert((s * p) * (s * p) == s * (s * (p * p))) by (nonlinear_arith);
            assert((s * f) * (q * q) == s * (f * (q * q))) by (nonlinear_arith);
            assert(f * (q * q) <= s * (p * p)) by (nonlinear_arith)
                requires
                    s * (f * (q * q)) <= s * (s * (p * p)),
                    s > 0,
            ;
        } else {
            let y = (x - 1) as nat;
            fade_is_below(y);
            powers(y, 1);
            let h = fade(y) as int;
            let f = fade(x) as int;
            let (p, q) = (num(y), den(y));
            let s = huge();
            let n = big();
            assert(n * f <= h * (n - 1));
            assert(f * (q * n) <= s * (p * (n - 1))) by (nonlinear_arith)
                requires
                    n * f <= h * (n - 1),
                    h * q <= s * p,
                    0 < q,
                    n > 1,
            ;
        }
        let f = fade(x) as int;
        let (p, q) = (num(x), den(x));
        assert(f <= huge()) by (nonlinear_arith)
            requires
                f * q <= huge() * p,
                p <= q,
                0 < q,
                huge() > 0,
        ;
    }
}

/// Whether what fades is at most `b` below the fraction.
spec fn near(x: nat, b: int) -> bool {
    huge() * num(x) <= (fade(x) + b) * den(x)
}

/// A square is about twice as far off, and not much further where the fraction is
/// a half at most.
proof fn square_is_near(y: nat, b: int)
    requires
        near(y, b),
        0 <= b,
        y > 0,
    ensures
        near(2 * y, 2 * b + 1),
        y >= big() ==> near(2 * y, b + 1),
{
    let x = 2 * y;
    fade_is_below(y);
    fraction_shrinks(y);
    powers(y, y);
    assert(y + y == x);
    let h = fade(y) as int;
    let f = fade(x) as int;
    let (p, q) = (num(y), den(y));
    let s = huge();
    assert(x % 2 == 0 && x / 2 == y);
    assert(h * h < s * f + s);
    let (u, v) = (s * p, h * q);
    // u - v <= b * q, and u + v <= 2 * u.
    assert(u - v <= b * q) by (nonlinear_arith)
        requires
            u <= (h + b) * q,
            v == h * q,
    ;
    assert(u * u - v * v <= (b * q) * (2 * u)) by (nonlinear_arith)
        requires
            u - v <= b * q,
            0 <= v <= u,
            0 <= b * q,
    ;
    assert(v >= 0 && b * q >= 0) by (nonlinear_arith)
        requires
            v == h * q,
            h >= 0,
            b >= 0,
            q > 0,
    ;
    assert(v * v == (h * h) * (q * q)) by (nonlinear_arith)
        requires
            v == h * q,
    ;
    assert((h * h) * (q * q) <= (s * f + s) * (q * q)) by (nonlinear_arith)
        requires
            h * h <= s * f + s,
            q > 0,
    ;
    assert(u * u == s * (s * (p * p))) by (nonlinear_arith)
        requires
            u == s * p,
    ;
    assert((s * f + s) * (q * q) == s * ((f + 1) * (q * q))) by (nonlinear_arith);
    assert((b * q) * (2 * u) == s * ((2 * b) * (p * q))) by (nonlinear_arith)
        requires
            u == s * p,
    ;
    assert(s * (p * p) <= (f + 1) * (q * q) + (2 * b) * (p * q)) by (nonlinear_arith)
        requires
            s * (s * (p * p)) <= s * ((f + 1) * (q * q)) + s * ((2 * b) * (p * q)),
            s > 0,
    ;
    assert((2 * b) * (p * q) <= (2 * b) * (q * q)) by (nonlinear_arith)
        requires
            0 <= b,
            0 < p <= q,
    ;
    assert((f + 1) * (q * q) + (2 * b) * (q * q) == (f + (2 * b + 1)) * (q * q))
        by (nonlinear_arith);
    if y >= big() {
        assert((2 * b) * (p * q) <= b * (q * q)) by (nonlinear_arith)
            requires
                0 <= b,
                0 < p,
                2 * p <= q,
        ;
        assert((f + 1) * (q * q) + b * (q * q) == (f + (b + 1)) * (q * q)) by (nonlinear_arith);
    }
}

/// One more loss is no more than one further off.
proof fn loss_is_near(y: nat, b: int)
    requires
        near(y, b),
        0 <= b,
        y % 2 == 0,
    ensures
        near(y + 1, b + 1),
{
    powers(y, 1);
    let h = fade(y) as int;
    let f = fade(y + 1) as int;
    let (p, q) = (num(y), den(y));
    let s = huge();
    let n = big();
    assert((y + 1) % 2 == 1);
    assert(h * (n - 1) < n * f + n);
    assert(s * (p * (n - 1)) <= (f + (b + 1)) * (q * n)) by (nonlinear_arith)
        requires
            s * p <= (h + b) * q,
            h * (n - 1) <= n * f + n,
            0 <= b,
            0 < q,
            n > 1,
    ;
}

proof fn more_is_near(x: nat, b: int, c: int)
    requires
        near(x, b),
        b <= c,
    ensures
        near(x, c),
{
    powers(x, 0);
    let f = fade(x) as int;
    let q = den(x);
    assert((f + b) * q <= (f + c) * q) by (nonlinear_arith)
        requires
            b <= c,
            0 < q,
    ;
}

/// Few losses round little.
proof fn fade_is_near(x: nat)
    requires
        x >= 1,
    ensures
        near(x, 2 * x - 1),
    decreases x,
{
    powers(0, 0);
    if x == 1 {
        powers(0, 1);
        assert(fade(1) == 999_999_999_000_000_000) by {
            assert(fade(0) == 1_000_000_000_000_000_000);
        }
    } else if x % 2 == 0 {
        let y = (x / 2) as nat;
        fade_is_near(y);
        square_is_near(y, 2 * y - 1);
        assert(2 * y == x);
    } else {
        let y = (x - 1) as nat;
        fade_is_near(y);
        loss_is_near(y, 2 * y - 1);
        more_is_near(x, 2 * y as int, 2 * x - 1);
    }
}

/// Two billion, doubled `n` times.
spec fn reach(n: nat) -> int
    decreases n,
{
    if n == 0 {
        2 * big()
    } else {
        2 * reach((n - 1) as nat)
    }
}

/// However many losses there are, not much more is rounded off.
proof fn fade_stays_near(x: nat, n: nat)
    requires
        x < reach(n),
    ensures
        near(x, 4 * big() + 2 * n),
    decreases n,
{
    if x == 0 {
        powers(0, 0);
    } else if x < 2 * big() {
        fade_is_near(x);
        more_is_near(x, 2 * x - 1, 4 * big() + 2 * n);
    } else {
        let y = (x / 2) as nat;
        let m = (n - 1) as nat;
        fade_stays_near(y, m);
        let b = 4 * big() + 2 * m;
        square_is_near(y, b);
        if x % 2 == 0 {
            assert(2 * y == x);
            more_is_near(x, b + 1, 4 * big() + 2 * n);
        } else {
            assert(2 * y + 1 == x);
            loss_is_near(2 * y, b + 1);
        }
    }
}

/// How far below the fraction anything fades.
spec fn depth() -> int {
    4_000_000_066
}

proof fn fade_is_close(x: nat)
    requires
        x <= 0x8000_0000_0000_0000,
    ensures
        huge() * num(x) <= (fade(x) + depth()) * den(x),
{
    reveal_with_fuel(reach, 34);
    assert(reach(33) == 2_000_000_000 * 0x2_0000_0000);
    fade_stays_near(x, 33);
}

/// The exponential of what is not positive lies between zero and one, and that of
/// zero is one.
pub proof fn exp_down_is_a_share(x: nat)
    ensures
        0 <= exp_down(x) <= 1_000_000_000,
        exp_down(0) == 1_000_000_000,
{
    fade_is_below(x);
}

/// Hardly anything is left after very many losses.
pub proof fn fade_vanishes(x: nat)
    requires
        x >= 0x4000_0000_0000_0000,
    ensures
        exp_down(x) == 0,
{
    fade_is_below(x);
    losses_add_up(x);
    powers(x, 0);
    let f = fade(x) as int;
    let (p, q) = (num(x), den(x));
    let m = big() - 1;
    let s = huge();
    assert(f * (m + x) <= s * m) by (nonlinear_arith)
        requires
            f * q <= s * p,
            (m + x) * p <= m * q,
            0 < q,
            0 < p,
            0 <= f,
            s > 0,
            m > 0,
            x >= 0,
    ;
    assert(f < 400_000_000) by (nonlinear_arith)
        requires
            f * (m + x) <= s * m,
            m + x >= 0x4000_0000_0000_0000,
            s * m < 400_000_000 * 0x4000_0000_0000_0000,
            f >= 0,
    ;
}

/// What fades at once, by `a + b` losses or one less, is not much more than what
/// fades by `a` and then by `b`.
proof fn fade_in_two_steps(a: nat, b: nat, c: nat)
    requires
        a <= 0x8000_0000_0000_0000,
        b <= 0x8000_0000_0000_0000,
        c == a + b || c + 1 == a + b,
    ensures
        huge() * fade(c) <= fade(a) * fade(b) + huge() * 9_000_000_200,
{
    let m = a + b;
    powers(a, b);
    powers(b, a);
    powers(c, 1);
    fade_is_below(a);
    fade_is_below(b);
    fade_is_below(c);
    fraction_shrinks(c);
    fade_is_close(a);
    fade_is_close(b);
    let (s, n) = (huge(), big());
    let f = fade(c) as int;
    let q = den(m);
    powers(m, 0);
    assert(f * q <= s * num(m) + n * q) by {
        if c + 1 == m {
            assert(f * (den(c) * n) <= s * (num(c) * (n - 1)) + n * (den(c) * n))
                by (nonlinear_arith)
                requires
                    f * den(c) <= s * num(c),
                    num(c) <= den(c),
                    s == n * n,
                    n > 0,
            ;
        } else {
            assert(n * q >= 0) by (nonlinear_arith)
                requires
                    n > 0,
                    q > 0,
            ;
        }
    }
    let d = depth();
    let (x, y) = (fade(a) + d, fade(b) + d);
    assert((s * num(a)) * (s * num(b)) <= (x * den(a)) * (y * den(b))) by (nonlinear_arith)
        requires
            0 <= s * num(a) <= x * den(a),
            0 <= s * num(b) <= y * den(b),
    ;
    assert(0 <= s * num(a) && 0 <= s * num(b)) by (nonlinear_arith)
        requires
            s > 0,
            num(a) > 0,
            num(b) > 0,
    ;
    assert((s * num(a)) * (s * num(b)) == s * (s * num(m))) by (nonlinear_arith)
        requires
            num(m) == num(a) * num(b),
    ;
    assert((x * den(a)) * (y * den(b)) == (x * y) * q) by (nonlinear_arith)
        requires
            q == den(a) * den(b),
    ;
    assert((s * f) * q <= (x * y + s * n) * q) by (nonlinear_arith)
        requires
            f * q <= s * num(m) + n * q,
            s * (s * num(m)) <= (x * y) * q,
            s > 0,
    ;
    assert(s * f <= x * y + s * n) by (nonlinear_arith)
        requires
            (s * f) * q <= (x * y + s * n) * q,
            q > 0,
    ;
    let (u, v) = (fade(a) as int, fade(b) as int);
    assert(x * y <= u * v + 2 * (s * d) + d * d) by (nonlinear_arith)
        requires
            x == u + d,
            y == v + d,
            0 <= u <= s,
            0 <= v <= s,
            d > 0,
    ;
    assert(d * d <= 17 * s);
}

/// The exponential of two spans, one after the other, is within a few billionths
/// of that of both.
pub proof fn exp_in_two_steps(a: nat, b: nat, c: nat)
    requires
        a <= 0x8000_0000_0000_0000,
        b <= 0x8000_0000_0000_0000,
        c == a + b || c + 1 == a + b,
    ensures
        exp_down(c) <= (exp_down(a) * exp_down(b)) / 1_000_000_000 + 11,
{
    fade_in_two_steps(a, b, c);
    fade_is_below(a);
    fade_is_below(b);
    let (u, v) = (fade(a) as int, fade(b) as int);
    let (x, y) = (exp_down(a), exp_down(b));
    let (s, n) = (huge(), big());
    assert(u <= n * x + 500_000_000 && v <= n * y + 500_000_000);
    assert(0 <= x <= n && 0 <= y <= n);
    assert(u * v <= s * (x * y) + s * 1_000_000_001) by (nonlinear_arith)
        requires
            0 <= u <= n * x + 500_000_000,
            0 <= v <= n * y + 500_000_000,
            0 <= x <= n,
            0 <= y <= n,
            n == 1_000_000_000,
            s == n * n,
    ;
    let f = fade(c) as int;
    assert(f <= x * y + 10_000_000_201);
    let z = x * y;
    assert(z < n * (z / n) + n);
    assert(n * exp_down(c) <= f + 500_000_000);
}

} // verus!
