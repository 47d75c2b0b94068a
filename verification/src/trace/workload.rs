//! Synthetic workloads, made with a deterministic seeded generator.
//!
//! A workload is drawn gap by gap. Draws are counted in 64 bits, and a run that
//! has used them all up ends.
use vstd::prelude::*;

use crate::number::{frac, ratio, Real};
use crate::trace::{arrivals, Arrival, Event};

pub mod laws;
pub mod shapes;

verus! {

/// Deterministic SplitMix64 PRNG: seeded, reproducible, zero-dependency.
/// Sufficient for synthetic traffic; not cryptographic.
#[derive(Clone, Debug)]
pub struct Rng {
    pub(crate) state: u64,
}

/// The state that follows `state`.
pub open spec fn next_state(state: u64) -> u64 {
    state.wrapping_add(0x9E37_79B9_7F4A_7C15)
}

/// The number drawn at a state.
pub open spec fn mixed(state: u64) -> u64 {
    let a = (state ^ (state >> 30)).wrapping_mul(0xBF58_476D_1CE4_E5B9);
    let b = (a ^ (a >> 27)).wrapping_mul(0x94D0_49BB_1331_11EB);
    b ^ (b >> 31)
}

/// The top 53 bits of a number as a fraction of their range.
pub open spec fn unit_of<R: Real>(n: u64) -> R {
    frac::<R>(n >> 37, 0x800_0000).sum(
        frac::<R>((n >> 11) & 0x3FF_FFFF, 0x400_0000).quot(R::int_of(0x800_0000)),
    )
}

/// The exponential gap that a uniform number gives at a rate.
pub open spec fn gap_of<R: Real>(unit: R, rate_per_hour: R) -> R {
    R::int_of(1).diff(unit).ln_of().negated().quot(
        rate_per_hour.larger(frac(1, 1_000_000_000)),
    )
}

impl Rng {
    pub open(crate) spec fn view(&self) -> u64 {
        self.state
    }

    /// Seed the generator.
    pub fn new(seed: u64) -> (r: Self)
        ensures
            r@ == seed,
    {
        Rng { state: seed }
    }

    /// The next 64 bits.
    pub fn next_u64(&mut self) -> (r: u64)
        ensures
            final(self)@ == next_state(old(self)@),
            r == mixed(final(self)@),
    {
        self.state = self.state.wrapping_add(0x9E37_79B9_7F4A_7C15);
        let mut z: u64 = self.state;
        z = (z ^ (z >> 30)).wrapping_mul(0xBF58_476D_1CE4_E5B9);
        z = (z ^ (z >> 27)).wrapping_mul(0x94D0_49BB_1331_11EB);
        z ^ (z >> 31)
    }

    /// Uniform in [0, 1).
    pub fn unit<R: Real>(&mut self) -> (r: R)
        ensures
            final(self)@ == next_state(old(self)@),
            r == unit_of::<R>(mixed(final(self)@)),
    {
        // 53-bit mantissa precision, in halves that every number type can hold.
        let n: u64 = self.next_u64();
        let low = ratio::<R>((n >> 11) & 0x3FF_FFFF, 0x400_0000).over(R::from_int(0x800_0000));
        ratio::<R>(n >> 37, 0x800_0000).plus(low)
    }

    /// An exponential inter-arrival gap with the given rate (events/hour).
    pub fn exp_gap<R: Real>(&mut self, rate_per_hour: R) -> (r: R)
        ensures
            final(self)@ == next_state(old(self)@),
            r == gap_of(unit_of::<R>(mixed(final(self)@)), rate_per_hour),
    {
        // In (0, 1], avoids ln(0).
        let u = R::from_int(1).minus(self.unit());
        u.ln().neg().over(rate_per_hour.max_with(ratio(1, 1_000_000_000)))
    }
}

/// The first block of the family `id`.
pub open spec fn family_base(id: u64) -> u64 {
    0x1_0000_0000u64.wrapping_mul(id.wrapping_add(1))
}

/// The shared prefix of the family `id`. Those of two families share no block
/// ([`laws::families_share_no_block`]).
pub open spec fn family_prefix(id: u64, n_blocks: u64) -> Seq<u64> {
    Seq::new(n_blocks as nat, |i: int| (family_base(id) + i) as u64)
}

/// Whether the blocks of the family `id` fit.
pub open spec fn family_fits(id: u64, n_blocks: u64) -> bool {
    family_base(id) + n_blocks <= u64::MAX + 1
}

/// Build a distinct shared prefix of `n_blocks` blocks for tenant/family `id`
/// ([`laws::families_share_no_block`], [`laws::family_prefix_counts_up`]).
fn prefix_blocks(id: u64, n_blocks: u64) -> (r: Vec<u64>)
    requires
        family_fits(id, n_blocks),
    ensures
        r@ == family_prefix(id, n_blocks),
{
    let base: u64 = 0x1_0000_0000u64.wrapping_mul(id.wrapping_add(1));
    let mut out: Vec<u64> = Vec::new();
    let mut i: u64 = 0;
    while i < n_blocks
        invariant
            i <= n_blocks,
            base == family_base(id),
            family_fits(id, n_blocks),
            out@ == family_prefix(id, n_blocks).take(i as int),
        decreases n_blocks - i,
    {
        out.push(base + i);
        i = i + 1;
        assert(out@ =~= family_prefix(id, n_blocks).take(i as int));
    }
    assert(out@ =~= family_prefix(id, n_blocks));
    out
}

/// A request of a family: its shared prefix and one unique suffix block.
pub open spec fn made<R: Real>(
    time: R,
    prefix: Seq<u64>,
    suffix_seq: u64,
    block_tokens: u64,
) -> Arrival<R> {
    Arrival {
        time_hours: time,
        total_tokens: ((prefix.len() + 1) * block_tokens) as u64,
        blocks: prefix.push(0xFFFF_0000_0000_0000 ^ suffix_seq),
    }
}

/// A request = a family's shared prefix + one unique suffix block.
fn make_event<R: Real>(time: R, prefix: &Vec<u64>, suffix_seq: u64, block_tokens: u64) -> (r: Event<
    R,
>)
    requires
        (prefix@.len() + 1) * block_tokens <= u64::MAX,
    ensures
        r@ == made(time, prefix@, suffix_seq, block_tokens),
{
    let mut blocks: Vec<u64> = Vec::with_capacity(prefix.len());
    let mut i: usize = 0;
    while i < prefix.len()
        invariant
            i <= prefix.len(),
            blocks@ == prefix@.take(i as int),
        decreases prefix.len() - i,
    {
        blocks.push(prefix[i]);
        i = i + 1;
        assert(blocks@ =~= prefix@.take(i as int));
    }
    assert(blocks@ =~= prefix@);
    blocks.push(0xFFFF_0000_0000_0000 ^ suffix_seq);
    let total: u64 = blocks.len() as u64 * block_tokens;
    Event { time_hours: time, total_tokens: total, blocks }
}

/// A workload in the making: the state of the generator, the clock, how many
/// requests its family has made, how many draws are left, and the requests.
#[verifier::ext_equal]
pub struct Draft<R> {
    pub rng: u64,
    pub t: R,
    pub suffix: u64,
    pub left: u64,
    pub events: Seq<Arrival<R>>,
}

/// How a family makes requests.
pub struct Family<R> {
    pub prefix: Seq<u64>,
    pub rate_per_hour: R,
    pub block_tokens: u64,
}

impl<R: Real> Draft<R> {
    /// Nothing drawn.
    pub open spec fn start(seed: u64, events: Seq<Arrival<R>>) -> Self {
        Draft { rng: seed, t: R::int_of(0), suffix: 0, left: u64::MAX, events }
    }

    /// The clock moved on by a gap drawn at a rate.
    pub open spec fn drawn(self, rate_per_hour: R) -> Self {
        let rng = next_state(self.rng);
        Draft {
            rng,
            t: self.t.sum(gap_of(unit_of::<R>(mixed(rng)), rate_per_hour)),
            left: (self.left - 1) as u64,
            ..self
        }
    }

    /// A request made at the clock.
    pub open spec fn pushed(self, prefix: Seq<u64>, block_tokens: u64) -> Self {
        Draft {
            events: self.events.push(made(self.t, prefix, self.suffix, block_tokens)),
            suffix: (self.suffix + 1) as u64,
            ..self
        }
    }

    /// The requests of a family until `close`.
    pub open spec fn until(self, f: Family<R>, close: R) -> Self
        decreases self.left,
    {
        if self.left == 0 {
            self
        } else {
            let g = self.drawn(f.rate_per_hour);
            if close.at_most(g.t) {
                g
            } else {
                g.pushed(f.prefix, f.block_tokens).until(f, close)
            }
        }
    }

    /// The requests of a family on the first `days` days, from `open` to
    /// `close` on each.
    pub open spec fn daily(self, f: Family<R>, open: R, close: R, days: nat) -> Self
        decreases days,
    {
        if days == 0 {
            self
        } else {
            let g = self.daily(f, open, close, (days - 1) as nat);
            let day0 = R::int_of((days - 1) as u64).prod(R::int_of(24));
            (Draft { t: day0.sum(open), ..g }).until(f, day0.sum(close))
        }
    }

    /// The requests of a family that alternates between a hot and a cold rate,
    /// in phases of `burst` hours, until `total`.
    pub open spec fn bursts(
        self,
        f: Family<R>,
        cold_rate: R,
        hot: bool,
        phase_end: R,
        burst: R,
        total: R,
    ) -> Self
        decreases self.left,
    {
        if self.left == 0 || !self.t.below(total) {
            self
        } else {
            let g = self.drawn(
                if hot {
                    f.rate_per_hour
                } else {
                    cold_rate
                },
            );
            if phase_end.at_most(g.t) {
                g.bursts(f, cold_rate, !hot, phase_end.sum(burst), burst, total)
            } else if g.t.below(total) {
                g.pushed(f.prefix, f.block_tokens).bursts(
                    f,
                    cold_rate,
                    hot,
                    phase_end,
                    burst,
                    total,
                )
            } else {
                g.bursts(f, cold_rate, hot, phase_end, burst, total)
            }
        }
    }
}

/// The making of a workload.
struct Maker<R> {
    rng: Rng,
    t: R,
    suffix: u64,
    left: u64,
    events: Vec<Event<R>>,
}

impl<R: Real> Maker<R> {
    spec fn view(&self) -> Draft<R> {
        Draft {
            rng: self.rng@,
            t: self.t,
            suffix: self.suffix,
            left: self.left,
            events: arrivals(self.events@),
        }
    }

    /// No more requests than draws.
    spec fn wf(&self) -> bool {
        self.suffix + self.left <= u64::MAX
    }

    fn new(seed: u64, events: Vec<Event<R>>) -> (r: Self)
        ensures
            r.wf(),
            r@ == Draft::start(seed, arrivals(events@)),
    {
        Maker { rng: Rng::new(seed), t: R::from_int(0), suffix: 0, left: u64::MAX, events }
    }

    /// Moves the clock on by a gap.
    fn draw(&mut self, rate_per_hour: R)
        requires
            old(self).wf(),
            old(self).left > 0,
        ensures
            final(self).suffix + final(self).left < u64::MAX,
            final(self)@ == old(self)@.drawn(rate_per_hour),
    {
        self.t = self.t.plus(self.rng.exp_gap(rate_per_hour));
        self.left = self.left - 1;
    }

    /// Makes a request at the clock.
    fn push(&mut self, prefix: &Vec<u64>, block_tokens: u64)
        requires
            old(self).suffix + old(self).left < u64::MAX,
            (prefix@.len() + 1) * block_tokens <= u64::MAX,
        ensures
            final(self).wf(),
            final(self)@ == old(self)@.pushed(prefix@, block_tokens),
    {
        let ghost before = arrivals(self.events@);
        let e = make_event(self.t, prefix, self.suffix, block_tokens);
        self.events.push(e);
        self.suffix = self.suffix + 1;
        assert(arrivals(self.events@) =~= before.push(e@));
    }

    /// Makes the requests of a family until `close`.
    fn until(&mut self, prefix: &Vec<u64>, rate_per_hour: R, block_tokens: u64, close: R)
        requires
            old(self).wf(),
            (prefix@.len() + 1) * block_tokens <= u64::MAX,
        ensures
            final(self).wf(),
            final(self)@ == old(self)@.until(
                Family { prefix: prefix@, rate_per_hour, block_tokens },
                close,
            ),
    {
        let ghost f = Family { prefix: prefix@, rate_per_hour, block_tokens };
        let ghost start = self@;
        while self.left > 0
            invariant_except_break
                start.until(f, close) == self@.until(f, close),
            invariant
                self.wf(),
                f == (Family { prefix: prefix@, rate_per_hour, block_tokens }),
                (prefix@.len() + 1) * block_tokens <= u64::MAX,
            ensures
                self.wf(),
                self@ == start.until(f, close),
            decreases self.left,
        {
            self.draw(rate_per_hour);
            if close.is_le(self.t) {
                break;
            }
            self.push(prefix, block_tokens);
        }
    }

    /// Makes the requests of a family from `open` to `close` on each of `days`
    /// days.
    fn daily(
        &mut self,
        prefix: &Vec<u64>,
        rate_per_hour: R,
        block_tokens: u64,
        open: R,
        close: R,
        days: u64,
    )
        requires
            old(self).wf(),
            (prefix@.len() + 1) * block_tokens <= u64::MAX,
        ensures
            final(self).wf(),
            final(self)@ == old(self)@.daily(
                Family { prefix: prefix@, rate_per_hour, block_tokens },
                open,
                close,
                days as nat,
            ),
    {
        let ghost f = Family { prefix: prefix@, rate_per_hour, block_tokens };
        let ghost start = self@;
        let mut d: u64 = 0;
        while d < days
            invariant
                d <= days,
                self.wf(),
                f == (Family { prefix: prefix@, rate_per_hour, block_tokens }),
                (prefix@.len() + 1) * block_tokens <= u64::MAX,
                self@ == start.daily(f, open, close, d as nat),
            decreases days - d,
        {
            let day0 = R::from_int(d).times(R::from_int(24));
            let ghost before = self@;
            self.t = day0.plus(open);
            assert(self@ == (Draft { t: day0.sum(open), ..before }));
            self.until(prefix, rate_per_hour, block_tokens, day0.plus(close));
            d = d + 1;
        }
    }
}

/// The requests of a business-hours workload.
pub open spec fn business<R: Real>(
    prefix_blocks_n: u64,
    rate_per_hour: R,
    open: R,
    close: R,
    days: u64,
    block_tokens: u64,
    seed: u64,
) -> Seq<Arrival<R>> {
    let f = Family { prefix: family_prefix(0, prefix_blocks_n), rate_per_hour, block_tokens };
    Draft::start(seed, Seq::empty()).daily(f, open, close, days as nat).events
}

/// Business-hours workload: one shared prefix, Poisson arrivals at
/// `rate_per_hour` during `[open, close)` each day, silence otherwise, for
/// `days` days. This is the canonical win: a big cache idle every night.
pub fn business_hours<R: Real>(
    prefix_blocks_n: u64,
    rate_per_hour: R,
    open: R,
    close: R,
    days: u64,
    block_tokens: u64,
    seed: u64,
) -> (r: Vec<Event<R>>)
    requires
        family_fits(0, prefix_blocks_n),
        (prefix_blocks_n + 1) * block_tokens <= u64::MAX,
    ensures
        arrivals(r@) == business(
            prefix_blocks_n,
            rate_per_hour,
            open,
            close,
            days,
            block_tokens,
            seed,
        ),
{
    let prefix = prefix_blocks(0, prefix_blocks_n);
    let none: Vec<Event<R>> = Vec::new();
    assert(arrivals(none@) =~= Seq::empty());
    let mut m = Maker::new(seed, none);
    m.daily(&prefix, rate_per_hour, block_tokens, open, close, days);
    m.events
}

/// The requests of a bursty workload, in the order of their times.
pub open spec fn bursty<R: Real>(
    prefix_blocks_n: u64,
    hot_rate: R,
    cold_rate: R,
    burst_hours: R,
    total_hours: R,
    block_tokens: u64,
    seed: u64,
) -> Seq<Arrival<R>> {
    let f = Family {
        prefix: family_prefix(0, prefix_blocks_n),
        rate_per_hour: hot_rate,
        block_tokens,
    };
    in_order(
        Draft::start(seed, Seq::empty()).bursts(
            f,
            cold_rate,
            true,
            burst_hours,
            burst_hours,
            total_hours,
        ).events,
    )
}

/// Bursty Poisson workload: one shared prefix, arrivals alternating between
/// hot bursts (`hot_rate`) and cold lulls (`cold_rate`), `total_hours` long.
/// Stresses the gap-histogram TTL-tier logic.
pub fn poisson_bursty<R: Real>(
    prefix_blocks_n: u64,
    hot_rate: R,
    cold_rate: R,
    burst_hours: R,
    total_hours: R,
    block_tokens: u64,
    seed: u64,
) -> (r: Vec<Event<R>>)
    requires
        family_fits(0, prefix_blocks_n),
        (prefix_blocks_n + 1) * block_tokens <= u64::MAX,
    ensures
        arrivals(r@) == bursty(
            prefix_blocks_n,
            hot_rate,
            cold_rate,
            burst_hours,
            total_hours,
            block_tokens,
            seed,
        ),
{
    let prefix = prefix_blocks(0, prefix_blocks_n);
    let none: Vec<Event<R>> = Vec::new();
    assert(arrivals(none@) =~= Seq::empty());
    let mut m = Maker::new(seed, none);
    let ghost f = Family { prefix: prefix@, rate_per_hour: hot_rate, block_tokens };
    let ghost start = m@;
    let mut hot = true;
    let mut phase_end = burst_hours;
    while m.left > 0 && m.t.is_lt(total_hours)
        invariant
            m.wf(),
            f == (Family { prefix: prefix@, rate_per_hour: hot_rate, block_tokens }),
            (prefix@.len() + 1) * block_tokens <= u64::MAX,
            start.bursts(f, cold_rate, true, burst_hours, burst_hours, total_hours) == m@.bursts(
                f,
                cold_rate,
                hot,
                phase_end,
                burst_hours,
                total_hours,
            ),
        decreases m.left,
    {
        m.draw(
            if hot {
                hot_rate
            } else {
                cold_rate
            },
        );
        if phase_end.is_le(m.t) {
            hot = !hot;
            phase_end = phase_end.plus(burst_hours);
            continue;
        }
        if m.t.is_lt(total_hours) {
            m.push(&prefix, block_tokens);
        }
    }
    sort_by_time(m.events)
}

/// The hour at which a tenant's day begins, staggered around the clock.
pub open spec fn opening<R: Real>(tenant: u64, tenants: u64) -> R {
    R::int_of(tenant).prod(R::int_of(24)).quot(R::int_of(tenants)).rest(R::int_of(24))
}

/// The requests of the first `upto` of a number of tenants, one tenant after
/// the other.
pub open spec fn tenant_by_tenant<R: Real>(
    upto: nat,
    tenants: u64,
    prefix_blocks_n: u64,
    rate_per_hour: R,
    active_hours: R,
    days: u64,
    block_tokens: u64,
    seed: u64,
) -> Seq<Arrival<R>>
    decreases upto,
{
    if upto == 0 {
        Seq::empty()
    } else {
        let before = tenant_by_tenant(
            (upto - 1) as nat,
            tenants,
            prefix_blocks_n,
            rate_per_hour,
            active_hours,
            days,
            block_tokens,
            seed,
        );
        let tenant = (upto - 1) as u64;
        let f = Family {
            prefix: family_prefix((tenant + 1) as u64, prefix_blocks_n),
            rate_per_hour,
            block_tokens,
        };
        let open = opening::<R>(tenant, tenants);
        Draft::start(seed ^ tenant.wrapping_mul(0x9E37_79B9), before).daily(
            f,
            open,
            open.sum(active_hours),
            days as nat,
        ).events
    }
}

/// Multi-tenant fleet: `tenants` distinct prefixes, each with its own staggered
/// business day, merged into one time-ordered trace. This is the workload no
/// human can hand-tune: the strongest product case.
pub fn multi_tenant<R: Real>(
    tenants: u64,
    prefix_blocks_n: u64,
    rate_per_hour: R,
    active_hours: R,
    days: u64,
    block_tokens: u64,
    seed: u64,
) -> (r: Vec<Event<R>>)
    requires
        forall|id: u64| 1 <= id <= tenants ==> #[trigger] family_fits(id, prefix_blocks_n),
        (prefix_blocks_n + 1) * block_tokens <= u64::MAX,
    ensures
        arrivals(r@) == in_order(
            tenant_by_tenant(
                tenants as nat,
                tenants,
                prefix_blocks_n,
                rate_per_hour,
                active_hours,
                days,
                block_tokens,
                seed,
            ),
        ),
{
    let mut events: Vec<Event<R>> = Vec::new();
    let mut tenant: u64 = 0;
    assert(arrivals(events@) =~= Seq::empty());
    while tenant < tenants
        invariant
            tenant <= tenants,
            forall|id: u64| 1 <= id <= tenants ==> #[trigger] family_fits(id, prefix_blocks_n),
            (prefix_blocks_n + 1) * block_tokens <= u64::MAX,
            arrivals(events@) == tenant_by_tenant(
                tenant as nat,
                tenants,
                prefix_blocks_n,
                rate_per_hour,
                active_hours,
                days,
                block_tokens,
                seed,
            ),
        decreases tenants - tenant,
    {
        assert(family_fits((tenant + 1) as u64, prefix_blocks_n));
        let prefix = prefix_blocks(tenant + 1, prefix_blocks_n);
        // Stagger each tenant's opening hour around the clock.
        let open = R::from_int(tenant).times(R::from_int(24)).over(R::from_int(tenants)).modulo(
            R::from_int(24),
        );
        let close = open.plus(active_hours);
        let mut m = Maker::new(seed ^ tenant.wrapping_mul(0x9E37_79B9), events);
        m.daily(&prefix, rate_per_hour, block_tokens, open, close, days);
        events = m.events;
        tenant = tenant + 1;
    }
    sort_by_time(events)
}

/// Two ordered sequences merged; of equals those of the first come first.
pub open spec fn zipped<R: Real>(a: Seq<Arrival<R>>, b: Seq<Arrival<R>>) -> Seq<Arrival<R>>
    decreases a.len() + b.len(),
{
    if a.len() == 0 {
        b
    } else if b.len() == 0 {
        a
    } else if b.last().time_hours.rank() < a.last().time_hours.rank() {
        zipped(a.drop_last(), b).push(a.last())
    } else {
        zipped(a, b.drop_last()).push(b.last())
    }
}

/// Events in the order of their times; equals stay as they were.
pub open spec fn in_order<R: Real>(s: Seq<Arrival<R>>) -> Seq<Arrival<R>>
    decreases s.len(),
{
    if s.len() <= 1 {
        s
    } else {
        let mid = s.len() as int / 2;
        zipped(in_order(s.take(mid)), in_order(s.skip(mid)))
    }
}

/// Merges two ordered vectors.
fn zip<R: Real>(first: Vec<Event<R>>, second: Vec<Event<R>>) -> (r: Vec<Event<R>>)
    ensures
        arrivals(r@) == zipped(arrivals(first@), arrivals(second@)),
{
    let mut a = first;
    let mut b = second;
    // Taken from the ends, so the last comes first.
    let mut back: Vec<Event<R>> = Vec::new();
    let ghost whole = zipped(arrivals(a@), arrivals(b@));
    assert(whole =~= zipped(arrivals(a@), arrivals(b@)) + arrivals(back@).reverse());
    while a.len() > 0 && b.len() > 0
        invariant
            whole == zipped(arrivals(a@), arrivals(b@)) + arrivals(back@).reverse(),
        decreases a.len() + b.len(),
    {
        let ghost x = arrivals(a@);
        let ghost y = arrivals(b@);
        let ghost z = arrivals(back@).reverse();
        let later = b[b.len() - 1].time_hours.ranks_before(a[a.len() - 1].time_hours);
        assert(x.last() == a@.last()@ && y.last() == b@.last()@);
        let next = if later {
            a.pop()
        } else {
            b.pop()
        };
        if let Some(e) = next {
            let ghost before = arrivals(back@);
            back.push(e);
            proof {
                assert(arrivals(back@) =~= before.push(e@));
                assert(arrivals(back@).reverse() =~= seq![e@] + z);
                if later {
                    assert(arrivals(a@) =~= x.drop_last());
                } else {
                    assert(arrivals(b@) =~= y.drop_last());
                }
                assert(zipped(x, y) + z =~= zipped(arrivals(a@), arrivals(b@)) + (seq![e@] + z));
            }
        }
    }
    let mut out = if a.len() == 0 {
        b
    } else {
        a
    };
    let ghost head = arrivals(out@);
    assert(head == zipped(arrivals(a@), arrivals(b@)));
    let ghost tail = arrivals(back@).reverse();
    while back.len() > 0
        invariant
            arrivals(out@) + arrivals(back@).reverse() == head + tail,
        decreases back.len(),
    {
        let ghost x = arrivals(out@);
        let ghost z = arrivals(back@);
        if let Some(e) = back.pop() {
            out.push(e);
            proof {
                assert(z.last() == e@);
                assert(arrivals(back@) =~= z.drop_last());
                assert(arrivals(out@) =~= x.push(e@));
                assert(z.reverse() =~= seq![e@] + arrivals(back@).reverse());
                assert(x + z.reverse() =~= arrivals(out@) + arrivals(back@).reverse());
            }
        }
    }
    assert(arrivals(out@) + arrivals(back@).reverse() =~= arrivals(out@));
    out
}

/// Orders events by their times; equals stay as they were.
fn sort_by_time<R: Real>(events: Vec<Event<R>>) -> (r: Vec<Event<R>>)
    ensures
        arrivals(r@) == in_order(arrivals(events@)),
    decreases events.len(),
{
    if events.len() <= 1 {
        return events;
    }
    let mid: usize = events.len() / 2;
    let ghost all = arrivals(events@);
    let mut first = events;
    let second = first.split_off(mid);
    assert(arrivals(first@) =~= all.take(mid as int));
    assert(arrivals(second@) =~= all.skip(mid as int));
    zip(sort_by_time(first), sort_by_time(second))
}

} // verus!
