//! What holds of the traffic statistics.
use vstd::prelude::*;

use crate::fixed::laws::exp_of_negative_is_a_share;
use crate::fixed::{Fixed, ONE};
use crate::number::Real;
use crate::stats::{bucket_of, long_gap, short_gap, Traffic};

verus! {

impl Traffic<Fixed> {
    /// All that the gap histogram holds.
    pub open spec fn gap_total(self) -> int {
        self.gap_mass[0].units + self.gap_mass[1].units + self.gap_mass[2].units
    }

    /// Whether the gap histogram has its three buckets, none of them negative.
    pub open spec fn gaps_are_sound(self) -> bool {
        &&& self.gap_mass.len() == 3
        &&& forall|i: int| 0 <= i < 3 ==> 0 <= (#[trigger] self.gap_mass[i]).units
    }
}

/// The statistics of a prefix that no request has passed through have a sound gap
/// histogram, and a request keeps it so.
pub proof fn gaps_stay_sound(s: Traffic<Fixed>, now: Fixed, tau: Fixed)
    requires
        tau.units > 0,
        s.gaps_are_sound(),
    ensures
        Traffic::<Fixed>::fresh().gaps_are_sound(),
        s.observed(now, tau).gaps_are_sound(),
{
    let x = s.gap(now).negated();
    assert((x.units * ONE) / (tau.units as int) <= 0) by (nonlinear_arith)
        requires
            x.units <= 0,
            tau.units > 0,
            ONE > 0,
    ;
    exp_of_negative_is_a_share(x.quot(tau));
    let decay = s.decay(now, tau);
    assert forall|i: int| 0 <= i < 3 implies 0 <= (#[trigger] s.gap_mass[i].prod(decay)).units by {
        let p = s.gap_mass[i].units * decay.units;
        assert(p >= 0) by (nonlinear_arith)
            requires
                p == s.gap_mass[i].units * decay.units,
                s.gap_mass[i].units >= 0,
                decay.units >= 0,
        ;
        assert(p / (ONE as int) >= 0);
    }
    if s.samples.units != 0 {
        let out = s.observed(now, tau).gap_mass;
        assert forall|i: int| 0 <= i < 3 implies 0 <= (#[trigger] out[i]).units by {
            assert(0 <= s.gap_mass[i].prod(decay).units);
        }
    }
}

/// What share of the gaps lies above `hours`: nothing where no gap was seen, else
/// everything above no time, all but the first bucket above five minutes, the
/// last bucket above an hour, and nothing above any longer time.
pub proof fn gap_share_is_by_bucket(s: Traffic<Fixed>, hours: Fixed)
    requires
        s.gaps_are_sound(),
        s.gap_total() <= i64::MAX,
    ensures
        ({
            let f = s.gap_fraction_gt(hours).units as int;
            let (m1, m2) = (s.gap_mass[1].units as int, s.gap_mass[2].units as int);
            let total = s.gap_total();
            if total == 0 {
                f == 0
            } else if hours.units <= 0 {
                f == ONE
            } else if hours.units <= 83_333_333 {
                f == ((m1 + m2) * ONE) / total
            } else if hours.units <= 1_000_000_000 {
                f == (m2 * ONE) / total
            } else {
                f == 0
            }
        }),
        0 <= s.gap_fraction_gt(hours).units <= ONE,
{
    let (m0, m1, m2) = (
        s.gap_mass[0].units as int,
        s.gap_mass[1].units as int,
        s.gap_mass[2].units as int,
    );
    assert(0 <= m0 && 0 <= m1 && 0 <= m2);
    let total = s.gap_total();
    let one = ONE as int;
    assert(Fixed::int_of(5).units == 5_000_000_000 && Fixed::int_of(60).units == 60_000_000_000);
    assert(short_gap::<Fixed>().units == 83_333_333);
    assert(Fixed::int_of(1).units == 1_000_000_000);
    assert(long_gap::<Fixed>().units == 1_000_000_000);
    if total > 0 {
        let m = s.mass_above(hours).units as int;
        assert(0 <= m <= total);
        share_is_ordered(0, m, total);
        share_is_ordered(m, total, total);
        vstd::arithmetic::div_mod::lemma_div_multiples_vanish(one, total);
        assert(total * one == one * total) by (nonlinear_arith);
        vstd::arithmetic::div_mod::lemma_div_of0(total);
        assert(s.gap_fraction_gt(hours).units == (m * one) / total);
    }
}

proof fn share_is_ordered(a: int, b: int, total: int)
    requires
        a <= b,
        0 < total,
    ensures
        (a * ONE) / total <= (b * ONE) / total,
{
    assert(a * ONE <= b * ONE);
    vstd::arithmetic::div_mod::lemma_div_is_ordered(a * ONE, b * ONE, total);
}

/// The share of gaps lies between nothing and everything, and no greater share
/// lies above a longer time.
pub proof fn gap_share_falls(s: Traffic<Fixed>, shorter: Fixed, longer: Fixed)
    requires
        s.gaps_are_sound(),
        s.gap_total() <= i64::MAX,
        shorter.units <= longer.units,
    ensures
        0 <= s.gap_fraction_gt(longer).units,
        s.gap_fraction_gt(longer).units <= s.gap_fraction_gt(shorter).units,
        s.gap_fraction_gt(shorter).units <= ONE,
{
    gap_share_is_by_bucket(s, shorter);
    gap_share_is_by_bucket(s, longer);
    let (m0, m1, m2) = (
        s.gap_mass[0].units as int,
        s.gap_mass[1].units as int,
        s.gap_mass[2].units as int,
    );
    assert(0 <= m0 && 0 <= m1 && 0 <= m2);
    if s.gap_total() > 0 {
        share_is_ordered(m2, m1 + m2, s.gap_total());
    }
}

/// A request adds one request's worth, an hour over the decay time, to what is
/// left of the rate, one to what is left of the count, and one to the raw count;
/// the rate is as of its time. The first request starts both.
pub proof fn request_adds_to_rate(s: Traffic<Fixed>, now: Fixed, tau: Fixed)
    requires
        tau.units > 0,
        0 <= s.lambda.units,
        0 <= s.samples.units < i64::MAX - ONE,
    ensures
        ({
            let r = s.observed(now, tau);
            let one = 1_000_000_000_000_000_000int / tau.units as int;
            let before = s.decayed_lambda(now, tau).units;
            &&& r.t_last == now
            &&& r.raw_count == if s.raw_count == u64::MAX {
                u64::MAX as int
            } else {
                s.raw_count + 1
            }
            &&& before + one <= i64::MAX ==> r.lambda.units == before + one
            &&& r.samples.units > 0
            &&& s.samples.units == 0 ==> before == 0 && r.samples.units == 1_000_000_000
            &&& r.samples.units >= 1_000_000_000
            &&& r.samples.units <= s.samples.units + 1_000_000_000
            &&& before <= s.lambda.units
        }),
{
    let x = s.gap(now).negated();
    assert((x.units * ONE) / (tau.units as int) <= 0) by (nonlinear_arith)
        requires
            x.units <= 0,
            tau.units > 0,
            ONE > 0,
    ;
    exp_of_negative_is_a_share(x.quot(tau));
    let d = s.decay(now, tau);
    let one = Fixed::int_of(1).quot(tau);
    vstd::arithmetic::div_mod::lemma_div_pos_is_pos(ONE * ONE, tau.units as int);
    crate::trie::rates::faded(s.lambda, d);
    crate::trie::rates::faded(s.samples, d);
    vstd::arithmetic::div_mod::lemma_div_is_ordered_by_denominator(
        ONE * ONE,
        1,
        tau.units as int,
    );
}

/// A gap is counted where it belongs: a request that follows another by less than
/// five minutes adds one to the first bucket, by less than an hour to the second,
/// and by more to the third. The other buckets only fade, and a first request
/// counts no gap.
pub proof fn request_counts_its_gap(s: Traffic<Fixed>, now: Fixed, tau: Fixed)
    requires
        tau.units > 0,
        s.gaps_are_sound(),
        s.gap_total() < i64::MAX - ONE,
        0 <= now.units - s.t_last.units <= i64::MAX,
    ensures
        ({
            let r = s.observed(now, tau).gap_mass;
            let d = s.decay(now, tau).units;
            let gap = now.units - s.t_last.units;
            let b: int = if gap < 83_333_333 {
                0
            } else if gap < 1_000_000_000 {
                1
            } else {
                2
            };
            &&& r.len() == 3
            &&& s.samples.units == 0 ==> r == s.gap_mass
            &&& s.samples.units != 0 ==> forall|i: int|
                0 <= i < 3 ==> (#[trigger] r[i]).units == (s.gap_mass[i].units * d) / 1_000_000_000
                    + if i == b {
                    1_000_000_000int
                } else {
                    0
                }
            &&& 0 <= d <= 1_000_000_000
            &&& gap == 0 ==> d == 1_000_000_000
        }),
{
    let x = s.gap(now).negated();
    assert((x.units * ONE) / (tau.units as int) <= 0) by (nonlinear_arith)
        requires
            x.units <= 0,
            tau.units > 0,
            ONE > 0,
    ;
    if x.units == 0 {
        vstd::arithmetic::div_mod::lemma_div_of0(tau.units as int);
    }
    exp_of_negative_is_a_share(x.quot(tau));
    let d = s.decay(now, tau);
    assert(Fixed::int_of(5).units == 5_000_000_000 && Fixed::int_of(60).units == 60_000_000_000);
    assert(short_gap::<Fixed>().units == 83_333_333);
    assert(Fixed::int_of(1).units == 1_000_000_000);
    assert(long_gap::<Fixed>().units == 1_000_000_000);
    assert(s.gap(now).units == now.units - s.t_last.units);
    if s.samples.units != 0 {
        let r = s.observed(now, tau).gap_mass;
        assert forall|i: int| 0 <= i < 3 implies {
            &&& #[trigger] s.gap_mass[i].prod(d).units == (s.gap_mass[i].units * d.units)
                / 1_000_000_000
            &&& s.gap_mass[i].prod(d).units <= s.gap_mass[i].units
        } by {
            crate::trie::rates::faded(s.gap_mass[i], d);
        }
        assert forall|i: int| 0 <= i < 3 implies 0 <= (#[trigger] s.gap_mass[i]).units
            <= s.gap_total() by {
            assert(0 <= s.gap_mass[0].units && 0 <= s.gap_mass[1].units && 0
                <= s.gap_mass[2].units);
        }
        assert forall|i: int| 0 <= i < 3 implies (#[trigger] r[i]).units == (s.gap_mass[i].units
            * d.units) / 1_000_000_000 + if i == bucket_of(s.gap(now)) {
            1_000_000_000int
        } else {
            0
        } by {
            assert(s.gap_mass[i].prod(d).units <= s.gap_mass[i].units);
            assert(s.gap_mass[i].units <= s.gap_total());
        }
    }
}

/// Nothing of a rate is lost at once.
pub proof fn rate_is_kept_at_once(s: Traffic<Fixed>, tau: Fixed)
    requires
        tau.units > 0,
        s.samples.units != 0,
        0 <= s.lambda.units,
    ensures
        s.decayed_lambda(s.t_last, tau) == s.lambda,
{
    vstd::arithmetic::div_mod::lemma_div_of0(tau.units as int);
    exp_of_negative_is_a_share(Fixed { units: 0 });
    assert((s.lambda.units * ONE) / (ONE as int) == s.lambda.units);
}

} // verus!
