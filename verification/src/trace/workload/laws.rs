//! What holds of every synthetic workload.
use vstd::prelude::*;

use crate::fixed::laws::ln_up_to_one_is_not_positive;
use crate::fixed::{Fixed, ONE};
use crate::number::{frac, Real};
use crate::trace::workload::{
    business, family_base, family_prefix, gap_of, in_order, made, mixed, unit_of, zipped, Draft,
    Family,
};
use crate::trace::Arrival;

verus! {

/// Whether times ascend.
pub open spec fn ascends<R: Real>(s: Seq<Arrival<R>>) -> bool {
    forall|i: int, j: int|
        0 <= i < j < s.len() ==> (#[trigger] s[i]).time_hours.rank() <= (
        #[trigger] s[j]).time_hours.rank()
}

/// The events of one rank, as they stand.
pub open spec fn of_rank<R: Real>(s: Seq<Arrival<R>>, rank: int) -> Seq<Arrival<R>>
    decreases s.len(),
{
    if s.len() == 0 {
        Seq::empty()
    } else {
        let before = of_rank(s.drop_last(), rank);
        if s.last().time_hours.rank() == rank {
            before.push(s.last())
        } else {
            before
        }
    }
}

/// No event of a rank above all.
proof fn none_of_rank<R: Real>(s: Seq<Arrival<R>>, rank: int)
    requires
        forall|i: int| 0 <= i < s.len() ==> (#[trigger] s[i]).time_hours.rank() < rank,
    ensures
        of_rank(s, rank) == Seq::<Arrival<R>>::empty(),
    decreases s.len(),
{
    if s.len() > 0 {
        let rest = s.drop_last();
        assert forall|i: int| 0 <= i < rest.len() implies (#[trigger] rest[i]).time_hours.rank()
            < rank by {
            assert(rest[i] == s[i]);
        }
        none_of_rank(rest, rank);
        assert(s[s.len() - 1].time_hours.rank() < rank);
    }
}

/// The events of one rank in two sequences, one after the other.
proof fn of_rank_of_both<R: Real>(a: Seq<Arrival<R>>, b: Seq<Arrival<R>>, rank: int)
    ensures
        of_rank(a + b, rank) == of_rank(a, rank) + of_rank(b, rank),
    decreases b.len(),
{
    if b.len() == 0 {
        assert(a + b =~= a);
        assert(of_rank(a, rank) + of_rank(b, rank) =~= of_rank(a, rank));
    } else {
        of_rank_of_both(a, b.drop_last(), rank);
        assert((a + b).drop_last() =~= a + b.drop_last());
        assert((a + b).last() == b.last());
        assert(of_rank(a + b, rank) =~= of_rank(a, rank) + of_rank(b, rank));
    }
}

/// Ordered sequences merge into an ordered one that holds the same events, those
/// of one rank as they were.
proof fn zipped_is_right<R: Real>(a: Seq<Arrival<R>>, b: Seq<Arrival<R>>)
    requires
        ascends(a),
        ascends(b),
    ensures
        ascends(zipped(a, b)),
        zipped(a, b).len() == a.len() + b.len(),
        forall|x: Arrival<R>|
            zipped(a, b).contains(x) ==> #[trigger] a.contains(x) || b.contains(x),
        zipped(a, b).to_multiset() == a.to_multiset().add(b.to_multiset()),
        forall|rank: int| #[trigger]
            of_rank(zipped(a, b), rank) == of_rank(a, rank) + of_rank(b, rank),
    decreases a.len() + b.len(),
{
    broadcast use vstd::seq_lib::group_to_multiset_ensures;

    let z = zipped(a, b);
    if a.len() == 0 {
        assert(a + b =~= b);
        vstd::seq_lib::lemma_multiset_commutative(a, b);
        assert forall|rank: int| #[trigger] of_rank(z, rank) == of_rank(a, rank) + of_rank(
            b,
            rank,
        ) by {
            of_rank_of_both(a, b, rank);
        }
    } else if b.len() == 0 {
        assert(a + b =~= a);
        vstd::seq_lib::lemma_multiset_commutative(a, b);
        assert forall|rank: int| #[trigger] of_rank(z, rank) == of_rank(a, rank) + of_rank(
            b,
            rank,
        ) by {
            of_rank_of_both(a, b, rank);
        }
    } else {
        let from_a = b.last().time_hours.rank() < a.last().time_hours.rank();
        let x = if from_a {
            a.drop_last()
        } else {
            a
        };
        let y = if from_a {
            b
        } else {
            b.drop_last()
        };
        let last = if from_a {
            a.last()
        } else {
            b.last()
        };
        let w = zipped(x, y);
        assert(ascends(x)) by {
            assert forall|i: int, j: int| 0 <= i < j < x.len() implies (
            #[trigger] x[i]).time_hours.rank() <= (#[trigger] x[j]).time_hours.rank() by {
                assert(x[i] == a[i] && x[j] == a[j]);
            }
        }
        assert(ascends(y)) by {
            assert forall|i: int, j: int| 0 <= i < j < y.len() implies (
            #[trigger] y[i]).time_hours.rank() <= (#[trigger] y[j]).time_hours.rank() by {
                assert(y[i] == b[i] && y[j] == b[j]);
            }
        }
        zipped_is_right(x, y);
        assert(z == w.push(last));
        assert forall|i: int| 0 <= i < w.len() implies (#[trigger] w[i]).time_hours.rank()
            <= last.time_hours.rank() by {
            assert(w.contains(w[i]));
            below_last(a, w[i]);
            below_last(b, w[i]);
            if x.contains(w[i]) {
                let k = choose|k: int| 0 <= k < x.len() && x[k] == w[i];
                assert(a[k] == w[i]);
            } else {
                let k = choose|k: int| 0 <= k < y.len() && y[k] == w[i];
                assert(b[k] == w[i]);
            }
        }
        assert(ascends(z)) by {
            assert forall|i: int, j: int| 0 <= i < j < z.len() implies (
            #[trigger] z[i]).time_hours.rank() <= (#[trigger] z[j]).time_hours.rank() by {
                assert(z[i] == w[i]);
                if j < w.len() {
                    assert(z[j] == w[j]);
                }
            }
        }
        assert forall|e: Arrival<R>| z.contains(e) implies #[trigger] a.contains(e) || b.contains(
            e,
        ) by {
            let k = choose|k: int| 0 <= k < z.len() && z[k] == e;
            if k < w.len() {
                assert(w[k] == e);
                assert(w.contains(e));
                if x.contains(e) {
                    let m = choose|m: int| 0 <= m < x.len() && x[m] == e;
                    assert(a[m] == e);
                } else {
                    let m = choose|m: int| 0 <= m < y.len() && y[m] == e;
                    assert(b[m] == e);
                }
            } else if from_a {
                assert(a[a.len() - 1] == e);
            } else {
                assert(b[b.len() - 1] == e);
            }
        }
        if from_a {
            assert(a =~= x.push(last));
            assert(z.to_multiset() =~= a.to_multiset().add(b.to_multiset()));
        } else {
            assert(b =~= y.push(last));
            assert(z.to_multiset() =~= a.to_multiset().add(b.to_multiset()));
        }
        assert forall|rank: int| #[trigger] of_rank(z, rank) == of_rank(a, rank) + of_rank(
            b,
            rank,
        ) by {
            assert(of_rank(w, rank) == of_rank(x, rank) + of_rank(y, rank));
            assert(z.drop_last() =~= w);
            assert(z.last() == last);
            if from_a {
                if last.time_hours.rank() == rank {
                    assert forall|i: int| 0 <= i < b.len() implies (
                    #[trigger] b[i]).time_hours.rank() < rank by {
                        assert(b.contains(b[i]));
                        below_last(b, b[i]);
                    }
                    none_of_rank(b, rank);
                }
                assert(of_rank(z, rank) =~= of_rank(a, rank) + of_rank(b, rank));
            } else {
                assert(of_rank(z, rank) =~= of_rank(a, rank) + of_rank(b, rank));
            }
        }
    }
}

/// Nothing comes after the last of an ordered sequence.
proof fn below_last<R: Real>(s: Seq<Arrival<R>>, x: Arrival<R>)
    requires
        ascends(s),
        s.len() > 0,
    ensures
        s.contains(x) ==> x.time_hours.rank() <= s.last().time_hours.rank(),
{
    if s.contains(x) {
        let k = choose|k: int| 0 <= k < s.len() && s[k] == x;
        if k < s.len() - 1 {
            assert(s[k].time_hours.rank() <= s[s.len() - 1].time_hours.rank());
        }
    }
}

/// Ordering events orders them by time, keeps every one of them, and leaves
/// those of equal times as they were.
pub proof fn in_order_is_a_stable_sort<R: Real>(s: Seq<Arrival<R>>)
    ensures
        ascends(in_order(s)),
        in_order(s).to_multiset() == s.to_multiset(),
        forall|rank: int| #[trigger] of_rank(in_order(s), rank) == of_rank(s, rank),
    decreases s.len(),
{
    if s.len() > 1 {
        let mid = s.len() as int / 2;
        let a = s.take(mid);
        let b = s.skip(mid);
        in_order_is_a_stable_sort(a);
        in_order_is_a_stable_sort(b);
        zipped_is_right(in_order(a), in_order(b));
        assert(a + b =~= s);
        vstd::seq_lib::lemma_multiset_commutative(a, b);
        assert forall|rank: int| #[trigger] of_rank(in_order(s), rank) == of_rank(s, rank) by {
            of_rank_of_both(a, b, rank);
            assert(of_rank(in_order(a), rank) == of_rank(a, rank));
            assert(of_rank(in_order(b), rank) == of_rank(b, rank));
        }
    }
}

/// A request of a family: its prefix and one block more, counted in tokens.
pub open spec fn belongs<R: Real>(e: Arrival<R>, f: Family<R>) -> bool {
    &&& e.blocks.len() == f.prefix.len() + 1
    &&& e.blocks.take(f.prefix.len() as int) == f.prefix
    &&& e.total_tokens == e.blocks.len() * f.block_tokens
}

/// Whether a family's requests fit.
pub open spec fn fits<R: Real>(f: Family<R>) -> bool {
    (f.prefix.len() + 1) * f.block_tokens <= u64::MAX
}

pub(crate) proof fn made_belongs<R: Real>(time: R, f: Family<R>, suffix: u64)
    requires
        fits(f),
    ensures
        belongs(made(time, f.prefix, suffix, f.block_tokens), f),
{
    let e = made(time, f.prefix, suffix, f.block_tokens);
    assert(e.blocks.take(f.prefix.len() as int) =~= f.prefix);
}

impl<R: Real> Draft<R> {
    /// What is drawn until `close` are requests of the family before `close`,
    /// behind what there was.
    proof fn until_is_confined(self, f: Family<R>, close: R)
        requires
            fits(f),
        ensures
            self.events.is_prefix_of(self.until(f, close).events),
            forall|i: int|
                self.events.len() <= i < self.until(f, close).events.len() ==> {
                    let e = #[trigger] self.until(f, close).events[i];
                    belongs(e, f) && !close.at_most(e.time_hours)
                },
        decreases self.left,
    {
        let all = self.until(f, close).events;
        if self.left > 0 {
            let g = self.drawn(f.rate_per_hour);
            if !close.at_most(g.t) {
                let h = g.pushed(f.prefix, f.block_tokens);
                h.until_is_confined(f, close);
                made_belongs(g.t, f, g.suffix);
                let n = self.events.len() as int;
                assert(h.events == all.subrange(0, n + 1));
                assert(self.events =~= all.subrange(0, n));
                assert forall|i: int| n <= i < all.len() implies ({
                    let e = #[trigger] all[i];
                    belongs(e, f) && !close.at_most(e.time_hours)
                }) by {
                    if i == n {
                        assert(all[n] == all.subrange(0, n + 1)[n]);
                    }
                }
            } else {
                assert(self.events =~= all.subrange(0, all.len() as int));
            }
        } else {
            assert(self.events =~= all.subrange(0, all.len() as int));
        }
    }

    /// What is drawn over days are requests of the family, each before the close
    /// of one of the days, behind what there was.
    pub proof fn daily_is_confined(self, f: Family<R>, open: R, close: R, days: nat)
        requires
            fits(f),
            days <= u64::MAX,
        ensures
            self.events.is_prefix_of(self.daily(f, open, close, days).events),
            forall|i: int|
                self.events.len() <= i < self.daily(f, open, close, days).events.len() ==> {
                    let e = #[trigger] self.daily(f, open, close, days).events[i];
                    belongs(e, f) && before_a_close(e, close, days)
                },
        decreases days,
    {
        let all = self.daily(f, open, close, days).events;
        if days == 0 {
            assert(self.events =~= all.subrange(0, all.len() as int));
        } else {
            let d = (days - 1) as nat;
            let g = self.daily(f, open, close, d);
            self.daily_is_confined(f, open, close, d);
            let day0 = R::int_of(d as u64).prod(R::int_of(24));
            let h = Draft { t: day0.sum(open), ..g };
            h.until_is_confined(f, day0.sum(close));
            let n = self.events.len() as int;
            let m = g.events.len() as int;
            assert(g.events == all.subrange(0, m));
            assert(self.events == g.events.subrange(0, n));
            assert(self.events =~= all.subrange(0, n));
            assert forall|i: int| n <= i < all.len() implies ({
                let e = #[trigger] all[i];
                belongs(e, f) && before_a_close(e, close, days)
            }) by {
                if i < m {
                    assert(all[i] == all.subrange(0, m)[i]);
                    let e = g.events[i];
                    assert(belongs(e, f) && before_a_close(e, close, d));
                    let x = choose|x: u64| x < d && before_close(e, close, x);
                    assert(x < days && before_close(e, close, x));
                } else {
                    assert(before_close(all[i], close, d as u64));
                }
            }
        }
    }
}

/// Whether an event comes before the close of the day `d`.
pub open spec fn before_close<R: Real>(e: Arrival<R>, close: R, d: u64) -> bool {
    !R::int_of(d).prod(R::int_of(24)).sum(close).at_most(e.time_hours)
}

/// Whether an event comes before the close of one of the first `days` days.
pub open spec fn before_a_close<R: Real>(e: Arrival<R>, close: R, days: nat) -> bool {
    exists|d: u64| d < days && before_close(e, close, d)
}

/// A business-hours workload holds requests of one family, each of them before
/// the close of one of the days.
pub proof fn business_is_confined<R: Real>(
    prefix_blocks_n: u64,
    rate_per_hour: R,
    open: R,
    close: R,
    days: u64,
    block_tokens: u64,
    seed: u64,
)
    requires
        (prefix_blocks_n + 1) * block_tokens <= u64::MAX,
    ensures
        ({
            let events = business(
                prefix_blocks_n,
                rate_per_hour,
                open,
                close,
                days,
                block_tokens,
                seed,
            );
            let f = Family {
                prefix: family_prefix(0, prefix_blocks_n),
                rate_per_hour,
                block_tokens,
            };
            forall|i: int|
                0 <= i < events.len() ==> belongs(#[trigger] events[i], f) && before_a_close(
                    events[i],
                    close,
                    days as nat,
                )
        }),
{
    let f = Family { prefix: family_prefix(0, prefix_blocks_n), rate_per_hour, block_tokens };
    Draft::<R>::start(seed, Seq::empty()).daily_is_confined(f, open, close, days as nat);
}

/// A uniform draw lies between zero and one, and is not one.
pub proof fn unit_is_below_one(n: u64)
    ensures
        0 <= unit_of::<Fixed>(n).units < ONE,
{
    let hi = n >> 37;
    let lo = (n >> 11) & 0x3FF_FFFF;
    assert(hi <= 0x7FF_FFFF && lo <= 0x3FF_FFFF) by (bit_vector)
        requires
            hi == n >> 37,
            lo == (n >> 11) & 0x3FF_FFFF,
    ;
    assert(Fixed::int_of(0x800_0000).units == 134_217_728_000_000_000);
    assert(Fixed::int_of(0x400_0000).units == 67_108_864_000_000_000);
    assert(Fixed::int_of(hi).units == hi * 1_000_000_000);
    assert(Fixed::int_of(lo).units == lo * 1_000_000_000);
    let top = hi * 1_000_000_000 * 1_000_000_000 / 134_217_728_000_000_000;
    assert(0 <= top <= 999_999_992);
    assert(frac::<Fixed>(hi, 0x800_0000).units == top);
    let part = lo * 1_000_000_000 * 1_000_000_000 / 67_108_864_000_000_000;
    assert(0 <= part < 1_000_000_000);
    assert(frac::<Fixed>(lo, 0x400_0000).units == part);
    assert(0 <= part * 1_000_000_000 / 134_217_728_000_000_000 <= 7);
}

/// The time between two requests is not negative.
pub proof fn gap_is_not_negative(n: u64, rate_per_hour: Fixed)
    ensures
        gap_of(unit_of::<Fixed>(n), rate_per_hour).units >= 0,
{
    unit_is_below_one(n);
    let u = Fixed::int_of(1).diff(unit_of::<Fixed>(n));
    ln_up_to_one_is_not_positive(u);
    let x = u.ln_of().negated();
    let rate = rate_per_hour.larger(frac(1, 1_000_000_000));
    assert(frac::<Fixed>(1, 1_000_000_000).units == 1);
    vstd::arithmetic::div_mod::lemma_div_pos_is_pos(x.units * ONE, rate.units as int);
}

impl Draft<Fixed> {
    /// What is drawn until `close` comes no earlier than the clock stood.
    proof fn until_goes_on(self, f: Family<Fixed>, close: Fixed)
        ensures
            self.events.len() <= self.until(f, close).events.len(),
            forall|i: int|
                self.events.len() <= i < self.until(f, close).events.len() ==> self.t.units <= (
                #[trigger] self.until(f, close).events[i]).time_hours.units,
            forall|i: int|
                0 <= i < self.events.len() ==> #[trigger] self.until(f, close).events[i]
                    == self.events[i],
        decreases self.left,
    {
        if self.left > 0 {
            let g = self.drawn(f.rate_per_hour);
            gap_is_not_negative(mixed(g.rng), f.rate_per_hour);
            assert(self.t.units <= g.t.units);
            if !close.at_most(g.t) {
                let h = g.pushed(f.prefix, f.block_tokens);
                h.until_goes_on(f, close);
                let n = self.events.len() as int;
                let all = self.until(f, close).events;
                assert(all[n] == h.events[n]);
                assert forall|i: int| n <= i < all.len() implies self.t.units <= (
                #[trigger] all[i]).time_hours.units by {
                    if i > n {
                        assert(h.t.units <= h.until(f, close).events[i].time_hours.units);
                    }
                }
                assert forall|i: int| 0 <= i < n implies #[trigger] all[i] == self.events[i] by {
                    assert(h.until(f, close).events[i] == h.events[i]);
                }
            }
        }
    }

    /// What is drawn over days comes between the opening and the close of one of
    /// the days.
    pub proof fn daily_keeps_hours(self, f: Family<Fixed>, open: Fixed, close: Fixed, days: nat)
        requires
            fits(f),
            days <= u64::MAX,
        ensures
            forall|i: int|
                self.events.len() <= i < self.daily(f, open, close, days).events.len()
                    ==> within_hours(
                    #[trigger] self.daily(f, open, close, days).events[i],
                    open,
                    close,
                    days,
                ),
        decreases days,
    {
        if days > 0 {
            let all = self.daily(f, open, close, days).events;
            let d = (days - 1) as nat;
            let g = self.daily(f, open, close, d);
            self.daily_keeps_hours(f, open, close, d);
            let day0 = Fixed::int_of(d as u64).prod(Fixed::int_of(24));
            let h = Draft { t: day0.sum(open), ..g };
            h.until_is_confined(f, day0.sum(close));
            h.until_goes_on(f, day0.sum(close));
            assert forall|i: int| self.events.len() <= i < all.len() implies within_hours(
                #[trigger] all[i],
                open,
                close,
                days,
            ) by {
                if i < g.events.len() {
                    assert(all[i] == g.events[i]);
                    let x = choose|x: u64|
                        x < d && #[trigger] before_close(g.events[i], close, x) && after_open(
                            g.events[i],
                            open,
                            x,
                        );
                    assert(x < days && before_close(all[i], close, x));
                } else {
                    assert(before_close(all[i], close, d as u64));
                    assert(after_open(all[i], open, d as u64));
                }
            }
        }
    }
}

/// Whether an event comes no earlier than the opening of the day `d`.
pub open spec fn after_open<R: Real>(e: Arrival<R>, open: R, d: u64) -> bool {
    R::int_of(d).prod(R::int_of(24)).sum(open).at_most(e.time_hours)
}

/// Whether an event comes between the opening and the close of one of the first
/// `days` days.
pub open spec fn within_hours<R: Real>(e: Arrival<R>, open: R, close: R, days: nat) -> bool {
    exists|d: u64| d < days && #[trigger] before_close(e, close, d) && after_open(e, open, d)
}

/// A business-hours workload keeps to business hours: each request comes between
/// the opening and the close of one of the days.
pub proof fn business_keeps_hours(
    prefix_blocks_n: u64,
    rate_per_hour: Fixed,
    open: Fixed,
    close: Fixed,
    days: u64,
    block_tokens: u64,
    seed: u64,
)
    requires
        (prefix_blocks_n + 1) * block_tokens <= u64::MAX,
    ensures
        ({
            let events = business(
                prefix_blocks_n,
                rate_per_hour,
                open,
                close,
                days,
                block_tokens,
                seed,
            );
            forall|i: int|
                0 <= i < events.len() ==> within_hours(
                    #[trigger] events[i],
                    open,
                    close,
                    days as nat,
                )
        }),
{
    let f = Family { prefix: family_prefix(0, prefix_blocks_n), rate_per_hour, block_tokens };
    Draft::<Fixed>::start(seed, Seq::empty()).daily_keeps_hours(f, open, close, days as nat);
}

/// Families share no block: their prefixes never meet, of whatever length.
pub proof fn families_share_no_block(a: u64, b: u64, n: u64, m: u64, i: int, j: int)
    requires
        a <= 0xFFFF_FFFE,
        b <= 0xFFFF_FFFE,
        a != b,
        n <= m <= 0x1_0000_0000,
        0 <= i < n,
        0 <= j < m,
    ensures
        family_prefix(a, n)[i] != family_prefix(b, m)[j],
{
    assert(family_base(a) == 0x1_0000_0000 * (a + 1));
    assert(family_base(b) == 0x1_0000_0000 * (b + 1));
}

/// The prefix of a family counts up block by block, and a shorter one begins a
/// longer one.
pub proof fn family_prefix_counts_up(a: u64, n: u64, m: u64)
    requires
        a <= 0xFFFF_FFFE,
        n <= m <= 0x1_0000_0000,
    ensures
        family_prefix(a, n).len() == n,
        forall|i: int|
            0 <= i < n - 1 ==> #[trigger] family_prefix(a, n)[i + 1] == family_prefix(a, n)[i] + 1,
        family_prefix(a, n) == family_prefix(a, m).take(n as int),
{
    assert(family_base(a) == 0x1_0000_0000 * (a + 1));
    assert(family_prefix(a, n) =~= family_prefix(a, m).take(n as int));
}

/// Different requests of a family end in different blocks.
pub proof fn suffixes_differ(a: u64, b: u64)
    requires
        a != b,
    ensures
        0xFFFF_0000_0000_0000 ^ a != 0xFFFF_0000_0000_0000 ^ b,
{
    assert(0xFFFF_0000_0000_0000u64 ^ a != 0xFFFF_0000_0000_0000u64 ^ b) by (bit_vector)
        requires
            a != b,
    ;
}

} // verus!
