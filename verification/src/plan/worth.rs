//! What a cache point saves and costs, in billionths.
//!
//! A million tokens are a thousand billionths for each token. Every product of
//! two numbers is rounded down to a billionth, so that a chain of them falls
//! short of the exact value by what each step may round off, carried through
//! the steps that follow.
use vstd::prelude::*;

use crate::fixed::Fixed;
use crate::number::Real;
use crate::plan::mtok_of;
use crate::price::{Prices, TtlTier};
use crate::stats::laws::gap_share_is_by_bucket;
use crate::stats::Traffic;

verus! {

/// A number of tokens in millions is a thousand billionths a token.
pub proof fn millions_of_tokens(tokens: u64)
    requires
        tokens <= 9_000_000_000,
    ensures
        mtok_of::<Fixed>(tokens).units == 1000 * tokens,
{
    assert(Fixed::int_of(1_000_000).units == 1_000_000_000_000_000);
    assert(Fixed::int_of(tokens).units == tokens * 1_000_000_000);
    assert((tokens * 1_000_000_000) * 1_000_000_000 / 1_000_000_000_000_000 == 1000 * tokens);
}

/// A product of two numbers that are not negative, in billionths.
proof fn product(a: Fixed, b: Fixed, most: int)
    requires
        0 <= a.units,
        0 <= b.units,
        a.units * b.units <= 1_000_000_000 * most,
        most <= i64::MAX,
    ensures
        0 <= a.prod(b).units <= most,
        1_000_000_000 * a.prod(b).units <= a.units * b.units,
        a.units * b.units < 1_000_000_000 * a.prod(b).units + 1_000_000_000,
{
    let p = a.units * b.units;
    assert(0 <= p) by (nonlinear_arith)
        requires
            p == a.units * b.units,
            0 <= a.units,
            0 <= b.units,
    ;
}

/// What `lambda` requests an hour save: the arrival rate, times the tokens in
/// millions, times what a million tokens cost less from a cache.
pub proof fn savings_are_by_rate_and_length(p: Prices<Fixed>, tokens: u64, lambda: Fixed)
    requires
        tokens <= 9_000_000_000,
        0 <= lambda.units,
        0 <= p.cached_read_per_mtok.units <= p.input_per_mtok.units,
        1000 * tokens * lambda.units <= 1_000_000_000 * i64::MAX,
        1000 * tokens * lambda.units * (p.input_per_mtok.units - p.cached_read_per_mtok.units)
            <= 1_000_000_000_000_000_000 * i64::MAX,
    ensures
        ({
            let d = p.input_per_mtok.units - p.cached_read_per_mtok.units;
            let exact = 1000 * tokens * lambda.units * d;
            let r = 1_000_000_000_000_000_000 * p.savings_rate(tokens, lambda).units;
            &&& p.savings_rate(tokens, lambda).units >= 0
            &&& r <= exact
            &&& exact < r + 1_000_000_000_000_000_000 + 1_000_000_000 * d
        }),
{
    millions_of_tokens(tokens);
    let m = mtok_of::<Fixed>(tokens);
    let gain = p.input_per_mtok.diff(p.cached_read_per_mtok);
    let d = p.input_per_mtok.units - p.cached_read_per_mtok.units;
    assert(gain.units == d);
    assert(lambda.units * m.units == 1000 * tokens * lambda.units) by (nonlinear_arith)
        requires
            m.units == 1000 * tokens,
    ;
    product(lambda, m, i64::MAX as int);
    let a = lambda.prod(m);
    let e = 1000 * tokens * lambda.units;
    assert(1_000_000_000 * (a.units * d) <= e * d) by (nonlinear_arith)
        requires
            1_000_000_000 * a.units <= e,
            0 <= d,
    ;
    assert(e * d <= 1_000_000_000 * (a.units * d) + 1_000_000_000 * d) by (nonlinear_arith)
        requires
            e <= 1_000_000_000 * a.units + 1_000_000_000,
            0 <= d,
    ;
    product(a, gain, i64::MAX as int);
}

/// What holding `tokens` costs an hour where storage is metered: the tokens in
/// millions times the price of storage, whatever the traffic. No tier is bought.
pub proof fn storage_costs_by_length(
    p: Prices<Fixed>,
    tokens: u64,
    stats: Traffic<Fixed>,
    now: Fixed,
    tau: Fixed,
)
    requires
        tokens <= 9_000_000_000,
        p.storage_per_mtok_hour is Some,
        0 <= p.storage_per_mtok_hour->0.units,
        1000 * tokens * p.storage_per_mtok_hour->0.units <= 1_000_000_000 * i64::MAX,
    ensures
        ({
            let (c, ttl) = p.cost_rate(tokens, stats, now, tau);
            &&& ttl is None
            &&& c.units == (1000 * tokens * p.storage_per_mtok_hour->0.units) / 1_000_000_000
        }),
{
    millions_of_tokens(tokens);
}

/// The exact cost an hour of rewrites on a tier, in units of a billionth to the
/// fifth: the arrival rate, the share of gaps that outlast the tier, the tokens
/// in millions, what a write costs beyond plain input, and the input price.
pub open spec fn rewrites(
    lambda: int,
    share: int,
    tokens: int,
    multiplier: int,
    input: int,
) -> int {
    lambda * share * (1000 * tokens) * (multiplier - 1_000_000_000) * input
}

/// What a tier costs an hour: the arrival rate, times the share of gaps longer
/// than its lifetime, times the tokens in millions, times what its multiplier
/// adds to the plain price, times the input price, but for rounding. A tier
/// whose writes cost no more than plain input costs nothing, and so does one
/// that outlasts every gap.
pub proof fn rewrites_cost_by_gaps(
    p: Prices<Fixed>,
    tier: TtlTier<Fixed>,
    tokens: u64,
    stats: Traffic<Fixed>,
    lambda: Fixed,
)
    requires
        tokens <= 9_000_000_000,
        0 <= lambda.units,
        0 <= p.input_per_mtok.units,
        1_000_000_000 <= tier.write_multiplier.units,
        stats.gaps_are_sound(),
        stats.gap_total() <= i64::MAX,
        ({
            let m = 1000 * tokens * lambda.units;
            let w = tier.write_multiplier.units - 1_000_000_000;
            &&& m <= 1_000_000_000 * i64::MAX
            &&& m * w <= 1_000_000_000_000_000_000 * i64::MAX
            &&& m * w * p.input_per_mtok.units <= 1_000_000_000_000_000_000_000_000_000 * i64::MAX
        }),
    ensures
        ({
            let share = stats.gap_fraction_gt(tier.ttl_hours).units as int;
            let m = 1000 * tokens;
            let w = tier.write_multiplier.units - 1_000_000_000;
            let i = p.input_per_mtok.units as int;
            let e = rewrites(
                lambda.units as int,
                share,
                tokens as int,
                tier.write_multiplier.units as int,
                i,
            );
            let c = p.rewrite_rate(tier, tokens, stats, lambda).units as int;
            &&& 0 <= c
            &&& 1_000_000_000_000_000_000_000_000_000_000_000_000 * c <= e
            &&& e < 1_000_000_000_000_000_000_000_000_000_000_000_000 * (c + 1)
                + 1_000_000_000_000_000_000_000_000_000 * i + 1_000_000_000_000_000_000 * (w * i)
                + 1_000_000_000 * (m * w * i)
            &&& share == 0 || w == 0 ==> c == 0
        }),
{
    let b = 1_000_000_000int;
    let share = stats.gap_fraction_gt(tier.ttl_hours);
    gap_share_is_by_bucket(stats, tier.ttl_hours);
    millions_of_tokens(tokens);
    let m = mtok_of::<Fixed>(tokens);
    let mm = m.units as int;
    let over = tier.write_multiplier.diff(Fixed::int_of(1));
    let w = tier.write_multiplier.units - 1_000_000_000;
    let i = p.input_per_mtok.units as int;
    let (l, f) = (lambda.units as int, share.units as int);
    assert(over.units == w);
    assert(0 <= l * f <= l * b) by (nonlinear_arith)
        requires
            0 <= l,
            0 <= f <= b,
    ;
    product(lambda, share, l);
    let r1 = lambda.prod(share);
    let a1 = r1.units as int;
    assert(a1 * mm <= l * mm && l * mm == 1000 * tokens * l) by (nonlinear_arith)
        requires
            0 <= a1 <= l,
            mm == 1000 * tokens,
            0 <= mm,
    ;
    let lm = l * mm;
    product(r1, m, i64::MAX as int);
    let r2 = r1.prod(m);
    let a2 = r2.units as int;
    assert(1_000_000_000 * (a2 * w) <= lm * w) by (nonlinear_arith)
        requires
            1_000_000_000 * a2 <= lm,
            0 <= w,
    ;
    product(r2, over, i64::MAX as int);
    let r3 = r2.prod(over);
    let a3 = r3.units as int;
    assert(1_000_000_000_000_000_000 * (a3 * i) <= lm * w * i) by (nonlinear_arith)
        requires
            1_000_000_000_000_000_000 * a3 <= lm * w,
            0 <= i,
    ;
    product(r3, p.input_per_mtok, i64::MAX as int);
    let c = r3.prod(p.input_per_mtok).units as int;
    assert(c == p.rewrite_rate(tier, tokens, stats, lambda).units);
    let e = rewrites(l, f, tokens as int, tier.write_multiplier.units as int, i);
    assert(e == l * f * mm * w * i);
    chain(l * f, mm, w, i, a1, a2, a3, c);
    assert(l * f * mm * w * i == (l * f) * mm * w * i);
    if f == 0 {
        assert(l * 0 == 0);
        assert(a1 == 0);
        assert(a1 * mm == 0) by (nonlinear_arith)
            requires
                a1 == 0,
        ;
        assert(a2 == 0);
        assert(a2 * w == 0) by (nonlinear_arith)
            requires
                a2 == 0,
        ;
        assert(a3 == 0);
        assert(a3 * i == 0) by (nonlinear_arith)
            requires
                a3 == 0,
        ;
    }
    if w == 0 {
        assert(a2 * w == 0) by (nonlinear_arith)
            requires
                w == 0,
        ;
        assert(a3 == 0);
        assert(a3 * i == 0) by (nonlinear_arith)
            requires
                a3 == 0,
        ;
    }
}

/// What four products in a row round off.
proof fn chain(lf: int, m: int, w: int, i: int, a1: int, a2: int, a3: int, c: int)
    requires
        0 <= m,
        0 <= w,
        0 <= i,
        1_000_000_000 * a1 <= lf < 1_000_000_000 * a1 + 1_000_000_000,
        1_000_000_000 * a2 <= a1 * m < 1_000_000_000 * a2 + 1_000_000_000,
        1_000_000_000 * a3 <= a2 * w < 1_000_000_000 * a3 + 1_000_000_000,
        1_000_000_000 * c <= a3 * i < 1_000_000_000 * c + 1_000_000_000,
    ensures
        ({
            let e = lf * m * w * i;
            &&& 1_000_000_000_000_000_000_000_000_000_000_000_000 * c <= e
            &&& e < 1_000_000_000_000_000_000_000_000_000_000_000_000 * (c + 1)
                + 1_000_000_000_000_000_000_000_000_000 * i + 1_000_000_000_000_000_000 * (w * i)
                + 1_000_000_000 * (m * w * i)
        }),
{
    assert(1_000_000_000 * (a1 * m) <= lf * m <= 1_000_000_000 * (a1 * m) + 1_000_000_000 * m) by (nonlinear_arith)
        requires
            1_000_000_000 * a1 <= lf <= 1_000_000_000 * a1 + 1_000_000_000,
            0 <= m,
    ;
    let x = lf * m;
    assert(1_000_000_000_000_000_000 * a2 <= x <= 1_000_000_000_000_000_000 * a2 + 1_000_000_000_000_000_000 + 1_000_000_000 * m);
    assert(1_000_000_000_000_000_000 * (a2 * w) <= x * w <= 1_000_000_000_000_000_000 * (a2 * w) + 1_000_000_000_000_000_000 * w + 1_000_000_000 * (m * w))
        by (nonlinear_arith)
        requires
            1_000_000_000_000_000_000 * a2 <= x <= 1_000_000_000_000_000_000 * a2 + 1_000_000_000_000_000_000 + 1_000_000_000 * m,
            0 <= w,
    ;
    let y = x * w;
    assert(1_000_000_000_000_000_000_000_000_000 * a3 <= y <= 1_000_000_000_000_000_000_000_000_000 * a3 + 1_000_000_000_000_000_000_000_000_000 + 1_000_000_000_000_000_000 * w + 1_000_000_000 * (m * w));
    assert(1_000_000_000_000_000_000_000_000_000 * (a3 * i) <= y * i <= 1_000_000_000_000_000_000_000_000_000 * (a3 * i) + 1_000_000_000_000_000_000_000_000_000 * i + 1_000_000_000_000_000_000 * (w * i)
        + 1_000_000_000 * (m * w * i)) by (nonlinear_arith)
        requires
            1_000_000_000_000_000_000_000_000_000 * a3 <= y <= 1_000_000_000_000_000_000_000_000_000 * a3 + 1_000_000_000_000_000_000_000_000_000 + 1_000_000_000_000_000_000 * w + 1_000_000_000 * (m * w),
            0 <= i,
    ;
}

/// The cost of holding a prefix where writes are bought by tier is that of one of
/// the tiers, and of none is it less: the tier bought is the cheapest for the
/// traffic at its arrival rate.
pub proof fn cheapest_tier_is_bought(
    p: Prices<Fixed>,
    tokens: u64,
    stats: Traffic<Fixed>,
    now: Fixed,
    tau: Fixed,
)
    requires
        p.storage_per_mtok_hour is None,
        p.write_tiers.len() > 0,
    ensures
        ({
            let (c, ttl) = p.cost_rate(tokens, stats, now, tau);
            let lambda = stats.decayed_lambda(now, tau);
            &&& exists|k: int|
                0 <= k < p.write_tiers.len() && ttl == Some(
                    (#[trigger] p.write_tiers[k]).ttl_hours,
                ) && c == p.rewrite_rate(p.write_tiers[k], tokens, stats, lambda)
            &&& forall|k: int|
                0 <= k < p.write_tiers.len() ==> c.units <= p.rewrite_rate(
                    #[trigger] p.write_tiers[k],
                    tokens,
                    stats,
                    lambda,
                ).units
        }),
{
    crate::plan::laws::cheapest_tier_is_cheapest(
        p,
        p.write_tiers.len(),
        tokens,
        stats,
        stats.decayed_lambda(now, tau),
    );
}

} // verus!
