//! Decayed traffic statistics of one prefix.
use vstd::prelude::*;

use crate::number::{frac, ratio, Real};

pub mod laws;

verus! {

/// Gap-histogram bucket edges in hours: `< 5 min`, `5 min .. 1 h`, `> 1 h`.
/// Deliberately aligned with the common provider TTL tiers so that
/// [`NodeStats::gap_fraction_gt`] is exact at tier boundaries.
pub fn gap_edges_hours<R: Real>() -> (r: [R; 2])
    ensures
        r@ == seq![short_gap::<R>(), long_gap::<R>()],
{
    let edges = [ratio(5, 60), ratio(1, 1)];
    assert(edges@ =~= seq![short_gap::<R>(), long_gap::<R>()]);
    edges
}

/// Five minutes: the gap that ends the first bucket.
pub open spec fn short_gap<R: Real>() -> R {
    frac(5, 60)
}

/// One hour: the gap that ends the second bucket.
pub open spec fn long_gap<R: Real>() -> R {
    frac(1, 1)
}

/// Per-node decayed traffic statistics.
#[derive(Clone, Debug)]
pub struct NodeStats<R> {
    /// EWMA arrival-rate estimate, requests/hour, valued as of `t_last`.
    pub lambda: R,
    /// Time of the last traversal, hours.
    pub t_last: R,
    /// Decayed traversal count (confidence proxy).
    pub samples: R,
    /// Raw (undecayed) traversal count: how many requests have ever passed
    /// through this prefix. Distinguishes a shared prefix (a high count) from a
    /// unique per-request suffix (a count of one).
    pub raw_count: u64,
    /// Decayed inter-arrival gap histogram (see [`gap_edges_hours`]).
    pub gap_mass: [R; 3],
}

/// What a node's statistics say.
#[verifier::ext_equal]
pub struct Traffic<R> {
    pub lambda: R,
    pub t_last: R,
    pub samples: R,
    pub raw_count: u64,
    pub gap_mass: Seq<R>,
}

/// The bucket of the gap histogram that a gap of `dt` hours falls in.
pub open spec fn bucket_of<R: Real>(dt: R) -> int {
    if dt.below(short_gap()) {
        0
    } else if dt.below(long_gap()) {
        1
    } else {
        2
    }
}

impl<R: Real> Traffic<R> {
    /// A prefix that no request has passed through.
    pub open spec fn fresh() -> Self {
        Traffic {
            lambda: R::int_of(0),
            t_last: R::int_of(0),
            samples: R::int_of(0),
            raw_count: 0,
            gap_mass: seq![R::int_of(0), R::int_of(0), R::int_of(0)],
        }
    }

    /// The time since the last traversal; zero where the clock went back.
    pub open spec fn gap(self, now: R) -> R {
        now.diff(self.t_last).larger(R::int_of(0))
    }

    /// The factor by which everything counted so far has faded.
    pub open spec fn decay(self, now: R, tau: R) -> R {
        self.gap(now).negated().quot(tau).exp_of()
    }

    /// The statistics once a request has passed through at `now`.
    pub open spec fn observed(self, now: R, tau: R) -> Self {
        let one = R::int_of(1);
        let raw_count = if self.raw_count == u64::MAX {
            u64::MAX
        } else {
            (self.raw_count + 1) as u64
        };
        if self.samples.same(R::int_of(0)) {
            Traffic { lambda: one.quot(tau), t_last: now, samples: one, raw_count, ..self }
        } else {
            let decay = self.decay(now, tau);
            let faded = self.gap_mass.map_values(|m: R| m.prod(decay));
            let b = bucket_of(self.gap(now));
            Traffic {
                lambda: self.lambda.prod(decay).sum(one.quot(tau)),
                t_last: now,
                samples: self.samples.prod(decay).sum(one),
                raw_count,
                gap_mass: faded.update(b, faded[b].sum(one)),
            }
        }
    }

    /// The arrival rate as of `now`.
    pub open spec fn decayed_lambda(self, now: R, tau: R) -> R {
        if self.samples.same(R::int_of(0)) {
            R::int_of(0)
        } else {
            self.lambda.prod(self.decay(now, tau))
        }
    }

    /// The mass of the buckets that lie wholly above `hours`.
    pub open spec fn mass_above(self, hours: R) -> R {
        let zero = R::int_of(0);
        let a = if hours.at_most(zero) {
            zero.sum(self.gap_mass[0])
        } else {
            zero
        };
        let b = if hours.at_most(short_gap()) {
            a.sum(self.gap_mass[1])
        } else {
            a
        };
        if hours.at_most(long_gap()) {
            b.sum(self.gap_mass[2])
        } else {
            b
        }
    }

    /// The share of the gap mass that lies above `hours` for certain.
    pub open spec fn gap_fraction_gt(self, hours: R) -> R {
        let total = self.gap_mass[0].sum(self.gap_mass[1]).sum(self.gap_mass[2]);
        if total.at_most(R::int_of(0)) {
            R::int_of(0)
        } else {
            self.mass_above(hours).quot(total)
        }
    }
}

impl<R: Real> NodeStats<R> {
    pub open spec fn view(&self) -> Traffic<R> {
        Traffic {
            lambda: self.lambda,
            t_last: self.t_last,
            samples: self.samples,
            raw_count: self.raw_count,
            gap_mass: self.gap_mass@,
        }
    }

    /// The statistics of a prefix that no request has passed through.
    pub fn new() -> (r: Self)
        ensures
            r@ == Traffic::<R>::fresh(),
    {
        let zero = R::from_int(0);
        let r = NodeStats {
            lambda: zero,
            t_last: zero,
            samples: zero,
            raw_count: 0,
            gap_mass: [zero, zero, zero],
        };
        assert(r@ =~= Traffic::<R>::fresh());
        r
    }

    /// Record a traversal at `now` with decay constant `tau` (hours). Decay is
    /// applied lazily: idle nodes cost nothing between traversals.
    pub fn observe(&mut self, now: R, tau: R)
        ensures
            final(self)@ == old(self)@.observed(now, tau),
    {
        let ghost before = self@;
        let one = R::from_int(1);
        self.raw_count = self.raw_count.saturating_add(1);
        if self.samples.is_same(R::from_int(0)) {
            self.lambda = one.over(tau);
            self.samples = one;
            self.t_last = now;
            assert(self@ =~= before.observed(now, tau));
            return ;
        }
        let dt = now.minus(self.t_last).max_with(R::from_int(0));
        let decay = dt.neg().over(tau).exp();
        self.lambda = self.lambda.times(decay).plus(one.over(tau));
        let edges = gap_edges_hours::<R>();
        let mut a = self.gap_mass[0].times(decay);
        let mut b = self.gap_mass[1].times(decay);
        let mut c = self.gap_mass[2].times(decay);
        if dt.is_lt(edges[0]) {
            a = a.plus(one);
        } else if dt.is_lt(edges[1]) {
            b = b.plus(one);
        } else {
            c = c.plus(one);
        }
        self.gap_mass = [a, b, c];
        self.samples = self.samples.times(decay).plus(one);
        self.t_last = now;
        assert(self@ =~= before.observed(now, tau));
    }

    /// The rate estimate decayed to `now` (read-only; does not mutate).
    pub fn decayed_lambda(&self, now: R, tau: R) -> (r: R)
        ensures
            r == self@.decayed_lambda(now, tau),
    {
        if self.samples.is_same(R::from_int(0)) {
            return R::from_int(0);
        }
        let dt = now.minus(self.t_last).max_with(R::from_int(0));
        self.lambda.times(dt.neg().over(tau).exp())
    }

    /// Fraction of observed (decayed) gap mass *guaranteed* to be above
    /// `hours`: only buckets whose lower edge is at least `hours` count, so the
    /// estimate is conservative (never overstates) at bucket resolution, and
    /// exact when `hours` equals a bucket edge, which the edges are chosen to
    /// do for the 5-minute / 1-hour provider tiers.
    pub fn gap_fraction_gt(&self, hours: R) -> (r: R)
        ensures
            r == self@.gap_fraction_gt(hours),
    {
        let zero = R::from_int(0);
        let total = self.gap_mass[0].plus(self.gap_mass[1]).plus(self.gap_mass[2]);
        if total.is_le(zero) {
            return zero;
        }
        let edges = gap_edges_hours::<R>();
        let mut above = zero;
        if hours.is_le(zero) {
            above = above.plus(self.gap_mass[0]);
        }
        if hours.is_le(edges[0]) {
            above = above.plus(self.gap_mass[1]);
        }
        if hours.is_le(edges[1]) {
            above = above.plus(self.gap_mass[2]);
        }
        above.over(total)
    }
}

} // verus!
