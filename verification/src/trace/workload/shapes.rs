//! What the synthetic workloads look like.
use vstd::prelude::*;

use crate::fixed::Fixed;
use crate::number::Real;
use crate::trace::workload::laws::{
    belongs, fits, gap_is_not_negative, in_order_is_a_stable_sort, made_belongs, within_hours,
};
use crate::trace::workload::{
    business, bursty, family_prefix, in_order, mixed, opening, tenant_by_tenant, Draft, Family,
};
use crate::trace::Arrival;

verus! {

impl<R: Real> Draft<R> {
    /// Whether what was drawn after the first `from` events is numbered in order
    /// by the last block.
    spec fn numbered(self, from: int) -> bool {
        &&& 0 <= from <= self.events.len()
        &&& self.suffix == self.events.len() - from
        &&& self.left <= u64::MAX - self.suffix
        &&& forall|i: int|
            from <= i < self.events.len() ==> {
                &&& (#[trigger] self.events[i]).blocks.len() > 0
                &&& self.events[i].blocks.last() == 0xFFFF_0000_0000_0000 ^ ((i - from) as u64)
            }
    }

    proof fn until_is_numbered(self, f: Family<R>, close: R, from: int)
        requires
            self.numbered(from),
        ensures
            self.until(f, close).numbered(from),
        decreases self.left,
    {
        if self.left > 0 {
            let g = self.drawn(f.rate_per_hour);
            assert(g.numbered(from));
            if !close.at_most(g.t) {
                let h = g.pushed(f.prefix, f.block_tokens);
                assert(h.numbered(from)) by {
                    assert forall|i: int| from <= i < h.events.len() implies {
                        &&& (#[trigger] h.events[i]).blocks.len() > 0
                        &&& h.events[i].blocks.last() == 0xFFFF_0000_0000_0000 ^ ((i
                            - from) as u64)
                    } by {
                        if i < g.events.len() {
                            assert(h.events[i] == g.events[i]);
                        }
                    }
                }
                h.until_is_numbered(f, close, from);
            }
        }
    }

    proof fn daily_is_numbered(self, f: Family<R>, open: R, close: R, days: nat, from: int)
        requires
            self.numbered(from),
        ensures
            self.daily(f, open, close, days).numbered(from),
        decreases days,
    {
        if days > 0 {
            self.daily_is_numbered(f, open, close, (days - 1) as nat, from);
            let g = self.daily(f, open, close, (days - 1) as nat);
            let day0 = R::int_of((days - 1) as u64).prod(R::int_of(24));
            let h = Draft { t: day0.sum(open), ..g };
            assert(h.numbered(from));
            h.until_is_numbered(f, day0.sum(close), from);
        }
    }
}

/// The requests of a business-hours workload are numbered in order by their last
/// block, so that no two are the same.
pub proof fn business_is_numbered<R: Real>(
    prefix_blocks_n: u64,
    rate_per_hour: R,
    open: R,
    close: R,
    days: u64,
    block_tokens: u64,
    seed: u64,
    i: int,
)
    requires
        0 <= i < business(
            prefix_blocks_n,
            rate_per_hour,
            open,
            close,
            days,
            block_tokens,
            seed,
        ).len(),
    ensures
        business(
            prefix_blocks_n,
            rate_per_hour,
            open,
            close,
            days,
            block_tokens,
            seed,
        )[i].blocks.last() == 0xFFFF_0000_0000_0000 ^ (i as u64),
{
    let f = Family { prefix: family_prefix(0, prefix_blocks_n), rate_per_hour, block_tokens };
    let d = Draft::<R>::start(seed, Seq::empty());
    assert(d.numbered(0));
    d.daily_is_numbered(f, open, close, days as nat, 0);
}

/// The hour at which a tenant opens: the tenants are spread evenly round the
/// clock.
pub proof fn tenants_open_round_the_clock(tenant: u64, tenants: u64)
    requires
        tenant < tenants <= 300_000_000,
    ensures
        opening::<Fixed>(tenant, tenants).units == (tenant * 24_000_000_000) / (tenants as int),
        0 <= opening::<Fixed>(tenant, tenants).units < 24_000_000_000,
{
    let a = Fixed::int_of(tenant);
    let day = Fixed::int_of(24);
    let n = Fixed::int_of(tenants);
    assert(a.units == tenant * 1_000_000_000);
    assert(day.units == 24_000_000_000);
    assert(n.units == tenants * 1_000_000_000);
    let x = tenant * 24_000_000_000;
    assert((tenant * 1_000_000_000) * 24_000_000_000 == x * 1_000_000_000) by (nonlinear_arith)
        requires
            x == tenant * 24_000_000_000,
    ;
    assert((x * 1_000_000_000) / 1_000_000_000 == x);
    assert(a.prod(day).units == x);
    let m = tenants as int;
    vstd::arithmetic::div_mod::lemma_fundamental_div_mod(x, m);
    vstd::arithmetic::div_mod::lemma_mod_bound(x, m);
    vstd::arithmetic::div_mod::lemma_div_pos_is_pos(x, m);
    let (q, r) = (x / m, x % m);
    assert(x * 1_000_000_000 == q * (m * 1_000_000_000) + r * 1_000_000_000) by (nonlinear_arith)
        requires
            x == m * q + r,
    ;
    vstd::arithmetic::div_mod::lemma_fundamental_div_mod_converse(
        x * 1_000_000_000,
        m * 1_000_000_000,
        q,
        r * 1_000_000_000,
    );
    assert(q < 24_000_000_000) by (nonlinear_arith)
        requires
            x == m * q + r,
            r >= 0,
            x == tenant * 24_000_000_000,
            tenant < m,
    ;
    vstd::arithmetic::div_mod::lemma_small_mod(q as nat, 24_000_000_000);
}

/// Whether a request is one of the tenant `tenant`: it begins with the prefix of
/// the tenant's own family, and comes in its opening hours.
pub open spec fn is_of_tenant(
    e: Arrival<Fixed>,
    tenant: u64,
    tenants: u64,
    prefix_blocks_n: u64,
    rate_per_hour: Fixed,
    active_hours: Fixed,
    days: u64,
    block_tokens: u64,
) -> bool {
    let f = Family {
        prefix: family_prefix((tenant + 1) as u64, prefix_blocks_n),
        rate_per_hour,
        block_tokens,
    };
    let open = opening::<Fixed>(tenant, tenants);
    &&& tenant < tenants
    &&& belongs(e, f)
    &&& within_hours(e, open, open.sum(active_hours), days as nat)
}

proof fn each_is_of_a_tenant(
    upto: nat,
    tenants: u64,
    prefix_blocks_n: u64,
    rate_per_hour: Fixed,
    active_hours: Fixed,
    days: u64,
    block_tokens: u64,
    seed: u64,
    i: int,
)
    requires
        (prefix_blocks_n + 1) * block_tokens <= u64::MAX,
        upto <= tenants,
        0 <= i < tenant_by_tenant(
            upto,
            tenants,
            prefix_blocks_n,
            rate_per_hour,
            active_hours,
            days,
            block_tokens,
            seed,
        ).len(),
    ensures
        exists|tenant: u64|
            is_of_tenant(
                tenant_by_tenant(
                    upto,
                    tenants,
                    prefix_blocks_n,
                    rate_per_hour,
                    active_hours,
                    days,
                    block_tokens,
                    seed,
                )[i],
                tenant,
                tenants,
                prefix_blocks_n,
                rate_per_hour,
                active_hours,
                days,
                block_tokens,
            ),
    decreases upto,
{
    let before = tenant_by_tenant(
        (upto - 1) as nat,
        tenants,
        prefix_blocks_n,
        rate_per_hour,
        active_hours,
        days,
        block_tokens,
        seed,
    );
    let tenant = (upto - 1) as u64;
    let f = Family {
        prefix: family_prefix((tenant + 1) as u64, prefix_blocks_n),
        rate_per_hour,
        block_tokens,
    };
    let open = opening::<Fixed>(tenant, tenants);
    let d = Draft::<Fixed>::start(seed ^ tenant.wrapping_mul(0x9E37_79B9), before);
    let all = d.daily(f, open, open.sum(active_hours), days as nat).events;
    d.daily_is_confined(f, open, open.sum(active_hours), days as nat);
    d.daily_keeps_hours(f, open, open.sum(active_hours), days as nat);
    if i < before.len() {
        assert(before == all.subrange(0, before.len() as int));
        assert(all[i] == before[i]);
        each_is_of_a_tenant(
            (upto - 1) as nat,
            tenants,
            prefix_blocks_n,
            rate_per_hour,
            active_hours,
            days,
            block_tokens,
            seed,
            i,
        );
    } else {
        assert(is_of_tenant(
            all[i],
            tenant,
            tenants,
            prefix_blocks_n,
            rate_per_hour,
            active_hours,
            days,
            block_tokens,
        ));
    }
}

/// Every request of a multi-tenant workload is of one of the tenants, and they
/// come in the order of their times.
#[verifier::rlimit(60)]
pub proof fn fleet_is_by_tenant(
    tenants: u64,
    prefix_blocks_n: u64,
    rate_per_hour: Fixed,
    active_hours: Fixed,
    days: u64,
    block_tokens: u64,
    seed: u64,
    i: int,
)
    requires
        (prefix_blocks_n + 1) * block_tokens <= u64::MAX,
        0 <= i < in_order(
            tenant_by_tenant(
                tenants as nat,
                tenants,
                prefix_blocks_n,
                rate_per_hour,
                active_hours,
                days,
                block_tokens,
                seed,
            ),
        ).len(),
    ensures
        ({
            let all = in_order(
                tenant_by_tenant(
                    tenants as nat,
                    tenants,
                    prefix_blocks_n,
                    rate_per_hour,
                    active_hours,
                    days,
                    block_tokens,
                    seed,
                ),
            );
            &&& exists|tenant: u64|
                is_of_tenant(
                    all[i],
                    tenant,
                    tenants,
                    prefix_blocks_n,
                    rate_per_hour,
                    active_hours,
                    days,
                    block_tokens,
                )
            &&& forall|j: int|
                0 <= j < i ==> (#[trigger] all[j]).time_hours.units <= all[i].time_hours.units
        }),
{
    broadcast use vstd::seq_lib::group_to_multiset_ensures;

    let s = tenant_by_tenant(
        tenants as nat,
        tenants,
        prefix_blocks_n,
        rate_per_hour,
        active_hours,
        days,
        block_tokens,
        seed,
    );
    in_order_is_a_stable_sort(s);
    let all = in_order(s);
    assert(all.contains(all[i]));
    assert(all.to_multiset().count(all[i]) > 0);
    assert(s.to_multiset().count(all[i]) > 0);
    assert(s.contains(all[i]));
    let k = choose|k: int| 0 <= k < s.len() && s[k] == all[i];
    each_is_of_a_tenant(
        tenants as nat,
        tenants,
        prefix_blocks_n,
        rate_per_hour,
        active_hours,
        days,
        block_tokens,
        seed,
        k,
    );
    assert forall|j: int| 0 <= j < i implies (#[trigger] all[j]).time_hours.units
        <= all[i].time_hours.units by {
        assert(all[j].time_hours.rank() <= all[i].time_hours.rank());
    }
}

impl Draft<Fixed> {
    /// What is drawn in bursts are requests of the family, from the clock on and
    /// before the end.
    #[verifier::rlimit(60)]
    proof fn bursts_are_confined(
        self,
        f: Family<Fixed>,
        cold_rate: Fixed,
        hot: bool,
        phase_end: Fixed,
        burst: Fixed,
        total: Fixed,
        from: Fixed,
    )
        requires
            fits(f),
            from.units <= self.t.units,
            forall|i: int|
                0 <= i < self.events.len() ==> {
                    &&& belongs(#[trigger] self.events[i], f)
                    &&& from.units <= self.events[i].time_hours.units < total.units
                },
        ensures
            ({
                let all = self.bursts(f, cold_rate, hot, phase_end, burst, total).events;
                forall|i: int|
                    0 <= i < all.len() ==> {
                        &&& belongs(#[trigger] all[i], f)
                        &&& from.units <= all[i].time_hours.units < total.units
                    }
            }),
        decreases self.left,
    {
        let out = self.bursts(f, cold_rate, hot, phase_end, burst, total);
        if self.left > 0 && self.t.below(total) {
            let rate = if hot {
                f.rate_per_hour
            } else {
                cold_rate
            };
            let g = self.drawn(rate);
            gap_is_not_negative(mixed(g.rng), rate);
            assert(self.t.units <= g.t.units);
            if phase_end.at_most(g.t) {
                g.bursts_are_confined(
                    f,
                    cold_rate,
                    !hot,
                    phase_end.sum(burst),
                    burst,
                    total,
                    from,
                );
                assert(out == g.bursts(
                    f,
                    cold_rate,
                    !hot,
                    phase_end.sum(burst),
                    burst,
                    total,
                ));
            } else if g.t.below(total) {
                let h = g.pushed(f.prefix, f.block_tokens);
                made_belongs(g.t, f, g.suffix);
                assert forall|i: int| 0 <= i < h.events.len() implies {
                    &&& belongs(#[trigger] h.events[i], f)
                    &&& from.units <= h.events[i].time_hours.units < total.units
                } by {
                    if i < g.events.len() {
                        assert(h.events[i] == self.events[i]);
                    }
                }
                h.bursts_are_confined(f, cold_rate, hot, phase_end, burst, total, from);
                assert(out == h.bursts(f, cold_rate, hot, phase_end, burst, total));
            } else {
                g.bursts_are_confined(f, cold_rate, hot, phase_end, burst, total, from);
                assert(out == g.bursts(f, cold_rate, hot, phase_end, burst, total));
            }
        } else {
            assert(out == self);
        }
    }
}

/// Every request of a bursty workload is of its one family and comes within its
/// hours, in the order of their times.
pub proof fn bursts_keep_to_their_hours(
    prefix_blocks_n: u64,
    hot_rate: Fixed,
    cold_rate: Fixed,
    burst_hours: Fixed,
    total_hours: Fixed,
    block_tokens: u64,
    seed: u64,
    i: int,
)
    requires
        (prefix_blocks_n + 1) * block_tokens <= u64::MAX,
        0 <= i < bursty(
            prefix_blocks_n,
            hot_rate,
            cold_rate,
            burst_hours,
            total_hours,
            block_tokens,
            seed,
        ).len(),
    ensures
        ({
            let all = bursty(
                prefix_blocks_n,
                hot_rate,
                cold_rate,
                burst_hours,
                total_hours,
                block_tokens,
                seed,
            );
            let f = Family {
                prefix: family_prefix(0, prefix_blocks_n),
                rate_per_hour: hot_rate,
                block_tokens,
            };
            &&& belongs(all[i], f)
            &&& 0 <= all[i].time_hours.units < total_hours.units
            &&& forall|j: int|
                0 <= j < i ==> (#[trigger] all[j]).time_hours.units <= all[i].time_hours.units
        }),
{
    broadcast use vstd::seq_lib::group_to_multiset_ensures;

    let f = Family {
        prefix: family_prefix(0, prefix_blocks_n),
        rate_per_hour: hot_rate,
        block_tokens,
    };
    let d = Draft::<Fixed>::start(seed, Seq::empty());
    let s = d.bursts(f, cold_rate, true, burst_hours, burst_hours, total_hours).events;
    d.bursts_are_confined(
        f,
        cold_rate,
        true,
        burst_hours,
        burst_hours,
        total_hours,
        Fixed { units: 0 },
    );
    in_order_is_a_stable_sort(s);
    let all = in_order(s);
    assert(all.contains(all[i]));
    assert(all.to_multiset().count(all[i]) > 0);
    assert(s.to_multiset().count(all[i]) > 0);
    assert(s.contains(all[i]));
    let k = choose|k: int| 0 <= k < s.len() && s[k] == all[i];
    assert(belongs(s[k], f));
    assert forall|j: int| 0 <= j < i implies (#[trigger] all[j]).time_hours.units
        <= all[i].time_hours.units by {
        assert(all[j].time_hours.rank() <= all[i].time_hours.rank());
    }
}

} // verus!
