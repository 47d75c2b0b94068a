//! Value function and breakpoint placement: the optimization core.
//!
//! Selects the set of at most `K_max` cache points in the trie maximizing net
//! savings under *exclusive coverage* semantics: a request reads through its
//! deepest cached ancestor, so a shallower cache point only earns savings on
//! traffic that does **not** pass through a deeper cached one. This is a tree
//! knapsack, solved by DP over the trie: where the hysteresis asks for no more
//! than that savings exceed cost, no set nets more ([`best::plan_is_best`]).
//!
//! What a cache point adds depends on the nearest one above it, and on nothing
//! else above: its traffic reads that much of the prefix from a cache either
//! way. So the DP keeps one table for each place that the nearest one above may
//! have.
use vstd::prelude::*;

use crate::number::Real;
use crate::price::{PriceSheet, Prices, Regime, TtlTier};
use crate::stats::{NodeStats, Traffic};
use crate::trie::{CacheState, NodeId, PrefixTrie, TrieModel};

pub mod best;
pub mod excess;
pub mod laws;
pub mod thresholds;
pub mod worth;

verus! {

/// A recommended cache point.
#[derive(Clone, Copy, Debug)]
pub struct Placement<R> {
    /// Trie node at whose prefix boundary the cache point goes.
    pub node: NodeId,
    /// Prefix length in tokens covered by this cache point.
    pub tokens: u64,
    /// Chosen TTL tier in hours (write-premium regime); `None` on the storage
    /// regime, where lifetime is managed by the lifecycle controller instead.
    pub ttl_hours: Option<R>,
    /// Expected net savings rate of this placement, $/hour (savings minus
    /// holding cost, at current traffic estimates).
    pub net_per_hour: R,
}

/// A number of tokens in millions.
pub open spec fn mtok_of<R: Real>(tokens: u64) -> R {
    R::int_of(tokens).quot(R::int_of(1_000_000))
}

/// A number of tokens in millions.
pub fn mtok<R: Real>(tokens: u64) -> (r: R)
    ensures
        r == mtok_of::<R>(tokens),
{
    R::from_int(tokens).over(R::from_int(1_000_000))
}

impl<R: Real> Prices<R> {
    /// What `lambda` requests an hour save by reading `tokens` from a cache.
    pub open spec fn savings_rate(self, tokens: u64, lambda: R) -> R {
        lambda.prod(mtok_of(tokens)).prod(self.input_per_mtok.diff(self.cached_read_per_mtok))
    }

    /// What rewrites of `tokens` cost an hour on a write tier, where every gap
    /// longer than the tier's lifetime forces one.
    pub open spec fn rewrite_rate(self, tier: TtlTier<R>, tokens: u64, stats: Traffic<R>, lambda: R)
        -> R {
        lambda.prod(stats.gap_fraction_gt(tier.ttl_hours)).prod(mtok_of(tokens)).prod(
            tier.write_multiplier.diff(R::int_of(1)),
        ).prod(self.input_per_mtok)
    }

    /// The cheapest of the first `upto` tiers, the first of equals.
    pub open spec fn cheapest_tier(
        self,
        upto: nat,
        tokens: u64,
        stats: Traffic<R>,
        lambda: R,
    ) -> Option<(R, R)>
        decreases upto,
    {
        if upto == 0 {
            None
        } else {
            let tier = self.write_tiers[upto - 1];
            let c = self.rewrite_rate(tier, tokens, stats, lambda);
            match self.cheapest_tier((upto - 1) as nat, tokens, stats, lambda) {
                Some((best, ttl)) if !c.below(best) => Some((best, ttl)),
                _ => Some((c, tier.ttl_hours)),
            }
        }
    }

    /// What holding `tokens` costs an hour, and the tier to buy where there are
    /// tiers.
    pub open spec fn cost_rate(self, tokens: u64, stats: Traffic<R>, now: R, tau: R) -> (
        R,
        Option<R>,
    ) {
        match self.storage_per_mtok_hour {
            Some(s) => (mtok_of::<R>(tokens).prod(s), None),
            None => {
                match self.cheapest_tier(
                    self.write_tiers.len(),
                    tokens,
                    stats,
                    stats.decayed_lambda(now, tau),
                ) {
                    Some((c, ttl)) => (c, Some(ttl)),
                    None => (R::int_of(0), None),
                }
            },
        }
    }
}

/// Expected gross savings rate ($/hour) of serving `lambda` req/hour of
/// `tokens`-long prefixes from cache instead of paying full input price.
pub fn savings_rate<R: Real>(prices: &PriceSheet<R>, tokens: u64, lambda: R) -> (r: R)
    ensures
        r == prices@.savings_rate(tokens, lambda),
{
    lambda.times(mtok(tokens)).times(prices.input_per_mtok.minus(prices.cached_read_per_mtok))
}

/// Expected holding-cost rate ($/hour) of keeping this prefix cached, and the
/// chosen TTL tier where applicable.
///
/// - Storage regime: `T * p_store`; the meter runs regardless of traffic.
/// - Write-premium regime: expected cold-rewrite rate (gaps longer than the
///   tier TTL, estimated from the node's gap histogram) times the write
///   premium; the cheapest tier is selected.
pub fn cost_rate<R: Real>(
    prices: &PriceSheet<R>,
    tokens: u64,
    stats: &NodeStats<R>,
    now: R,
    tau: R,
) -> (r: (R, Option<R>))
    ensures
        r == prices@.cost_rate(tokens, stats@, now, tau),
{
    let m = mtok::<R>(tokens);
    if let Some(s) = prices.storage_per_mtok_hour {
        return (m.times(s), None);
    }
    let lambda = stats.decayed_lambda(now, tau);
    let mut best: Option<(R, R)> = None;
    let mut i: usize = 0;
    while i < prices.write_tiers.len()
        invariant
            i <= prices.write_tiers.len(),
            m == mtok_of::<R>(tokens),
            best == prices@.cheapest_tier(i as nat, tokens, stats@, lambda),
        decreases prices.write_tiers.len() - i,
    {
        let tier = &prices.write_tiers[i];
        let rewrites_per_hour = lambda.times(stats.gap_fraction_gt(tier.ttl_hours));
        let c = rewrites_per_hour.times(m).times(
            tier.write_multiplier.minus(R::from_int(1)),
        ).times(prices.input_per_mtok);
        let cheaper = match best {
            Some((bc, _)) => c.is_lt(bc),
            None => true,
        };
        if cheaper {
            best = Some((c, tier.ttl_hours));
        }
        i = i + 1;
    }
    match best {
        Some((c, ttl)) => (c, Some(ttl)),
        None => (R::from_int(0), None),
    }
}

/// The best placements found for a subtree within a budget, below a placement
/// of a given length.
pub(crate) struct DpEntry<R> {
    /// What the chosen placements add to what the one above them earns, $/hour.
    pub(crate) value: R,
    /// Sum of arrival rates covered by the *highest* chosen placements in this
    /// subtree: the traffic an ancestor placement must exclude.
    pub(crate) covered: R,
    pub(crate) picks: Vec<Placement<R>>,
}

/// What a DP entry holds.
#[verifier::ext_equal]
pub struct Best<R> {
    pub value: R,
    pub covered: R,
    pub picks: Seq<Placement<R>>,
}

/// The question a placement answers: for which trie, at which prices, when, with
/// which hysteresis.
pub struct Ask<R> {
    pub trie: TrieModel<R>,
    pub prices: Prices<R>,
    pub now: R,
    pub theta_up: R,
    pub theta_down: R,
}

impl<R: Real> Best<R> {
    /// Nothing placed.
    pub open spec fn zero() -> Self {
        Best { value: R::int_of(0), covered: R::int_of(0), picks: Seq::empty() }
    }

    /// The placements of two disjoint subtrees together.
    pub open spec fn and(self, o: Self) -> Self {
        Best {
            value: self.value.sum(o.value),
            covered: self.covered.sum(o.covered),
            picks: self.picks + o.picks,
        }
    }

    /// The better of two, this one where neither is.
    pub open spec fn or_better(self, o: Self) -> Self {
        if self.value.below(o.value) {
            o
        } else {
            self
        }
    }
}

/// Nothing placed, for each budget up to `k`.
pub open spec fn zeros<R: Real>(k: nat) -> Seq<Best<R>> {
    Seq::new(k + 1, |i: int| Best::zero())
}

/// The best way to spend the budget `m` on two disjoint subtrees, among the
/// first `n` splits: nothing, one, two and so on for the first of them.
pub open spec fn best_split<R: Real>(
    acc: Seq<Best<R>>,
    ch: Seq<Best<R>>,
    m: int,
    n: nat,
) -> Best<R>
    decreases n,
{
    if n == 0 {
        acc[m]
    } else {
        best_split(acc, ch, m, (n - 1) as nat).or_better(acc[n - 1].and(ch[m - (n - 1)]))
    }
}

/// The best placements for two disjoint subtrees together, for each budget.
pub open spec fn merged<R: Real>(acc: Seq<Best<R>>, ch: Seq<Best<R>>) -> Seq<Best<R>> {
    Seq::new(acc.len(), |m: int| best_split(acc, ch, m, (m + 1) as nat))
}

impl<R: Real> Ask<R> {
    /// How far above its holding cost the savings of `id` must lie.
    pub open spec fn threshold(self, id: int) -> R {
        if self.trie.nodes[id].state is Cached {
            self.theta_down
        } else {
            self.theta_up
        }
    }

    /// The holding cost of `id`, and its tier.
    pub open spec fn cost(self, id: int) -> (R, Option<R>) {
        self.prices.cost_rate(
            self.trie.tokens(id) as u64,
            self.trie.nodes[id].stats,
            self.now,
            self.trie.tau_decay,
        )
    }

    /// The arrival rate at `id`.
    pub open spec fn rate(self, id: int) -> R {
        self.trie.nodes[id].stats.decayed_lambda(self.now, self.trie.tau_decay)
    }

    /// The savings of `id` on the traffic that `base` does not cover.
    pub open spec fn savings(self, id: int, base: Best<R>) -> R {
        self.prices.savings_rate(
            self.trie.tokens(id) as u64,
            self.rate(id).diff(base.covered).larger(R::int_of(0)),
        )
    }

    /// What a placement at `id` adds below one of `up` tokens: the tokens beyond
    /// those are read from a cache by all traffic of `id`.
    pub open spec fn gain(self, id: int, up: u64) -> R {
        self.prices.savings_rate((self.trie.tokens(id) - up) as u64, self.rate(id)).diff(
            self.cost(id).0,
        )
    }

    /// `id` placed on top of `base`, below a placement of `up` tokens; `None`
    /// where it does not pay on the traffic that `base` leaves.
    pub open spec fn topped(self, id: int, base: Best<R>, up: u64) -> Option<Best<R>> {
        let (c, ttl) = self.cost(id);
        let s = self.savings(id, base);
        let net = s.diff(c);
        if self.threshold(id).prod(c).below(s) && R::int_of(0).below(net) {
            Some(
                Best {
                    value: base.value.sum(self.gain(id, up)),
                    covered: self.rate(id),
                    picks: base.picks.push(
                        Placement {
                            node: id as usize,
                            tokens: self.trie.tokens(id) as u64,
                            ttl_hours: ttl,
                            net_per_hour: net,
                        },
                    ),
                },
            )
        } else {
            None
        }
    }

    /// The best for the budget `kk`: that of `acc`, without `id`, or `id` on top
    /// of what is best below it.
    pub open spec fn placed_at(
        self,
        id: int,
        acc: Seq<Best<R>>,
        below: Seq<Best<R>>,
        up: u64,
        kk: int,
    ) -> Best<R> {
        if kk == 0 {
            acc[kk]
        } else {
            match self.topped(id, below[kk - 1], up) {
                Some(e) => acc[kk].or_better(e),
                None => acc[kk],
            }
        }
    }

    /// The best with or without `id` on top, for each budget.
    pub open spec fn placed(
        self,
        id: int,
        acc: Seq<Best<R>>,
        below: Seq<Best<R>>,
        up: u64,
    ) -> Seq<Best<R>> {
        Seq::new(acc.len(), |kk: int| self.placed_at(id, acc, below, up, kk))
    }

    /// Whether `id` may be placed: the root and prefixes too short to cache are
    /// not.
    pub open spec fn eligible(self, id: int) -> bool {
        id != 0 && self.trie.tokens(id) >= self.prices.min_cacheable_tokens
    }

    /// How many levels may lie below `id`.
    pub open spec fn room_below(self, id: int) -> int {
        u64::MAX - self.trie.nodes[id].depth_blocks
    }

    /// The best placements in the subtree at `id` below a placement of `up`
    /// tokens, none where that is zero, for each budget up to `k`.
    pub open spec fn solved(self, id: int, k: nat, up: u64) -> Seq<Best<R>>
        decreases self.room_below(id), 1int, 0nat,
    {
        let kids = self.trie.children_sorted(id);
        let without = self.solved_kids(id, kids, k, up);
        if self.eligible(id) {
            self.placed(
                id,
                without,
                self.solved_kids(id, kids, k, self.trie.tokens(id) as u64),
                up,
            )
        } else {
            without
        }
    }

    /// The best placements in the subtrees at `kids`, children of `id`.
    pub open spec fn solved_kids(self, id: int, kids: Seq<NodeId>, k: nat, up: u64) -> Seq<Best<R>>
        decreases self.room_below(id), 0int, kids.len(),
    {
        if kids.len() == 0 {
            zeros(k)
        } else {
            let before = self.solved_kids(id, kids.drop_last(), k, up);
            let kid = kids.last() as int;
            if self.trie.nodes[id].depth_blocks < self.trie.nodes[kid].depth_blocks {
                merged(before, self.solved(kid, k, up))
            } else {
                before
            }
        }
    }

    /// The placements of highest value over all budgets.
    pub open spec fn chosen(self) -> Seq<Placement<R>> {
        if self.prices.max_breakpoints == 0 || self.prices.regime() == Regime::ShapeOnly {
            Seq::empty()
        } else {
            let entries = self.solved(0, self.prices.max_breakpoints as nat, 0);
            entries[top_ranked(entries, entries.len())].picks
        }
    }
}

/// The last of the highest-ranked values among the first `n`.
pub open spec fn top_ranked<R: Real>(entries: Seq<Best<R>>, n: nat) -> int
    decreases n,
{
    if n <= 1 {
        0
    } else {
        let best = top_ranked(entries, (n - 1) as nat);
        if entries[n - 1].value.rank() < entries[best].value.rank() {
            best
        } else {
            n - 1
        }
    }
}

/// The entries of a DP table.
pub(crate) open spec fn table<R: Real>(v: Seq<DpEntry<R>>) -> Seq<Best<R>> {
    v.map_values(|e: DpEntry<R>| e@)
}

impl<R: Real> DpEntry<R> {
    pub open(crate) spec fn view(&self) -> Best<R> {
        Best { value: self.value, covered: self.covered, picks: self.picks@ }
    }

    fn zero() -> (r: Self)
        ensures
            r@ == Best::<R>::zero(),
    {
        let r = DpEntry {
            value: R::from_int(0),
            covered: R::from_int(0),
            picks: Vec::new(),
        };
        assert(r@ =~= Best::<R>::zero());
        r
    }

    /// A copy.
    fn copied(&self) -> (r: Self)
        ensures
            r@ == self@,
    {
        let mut picks: Vec<Placement<R>> = Vec::new();
        append_picks(&mut picks, &self.picks);
        assert(Seq::<Placement<R>>::empty() + self.picks@ =~= self.picks@);
        DpEntry { value: self.value, covered: self.covered, picks }
    }
}

/// Appends `more` to `picks`.
fn append_picks<R: Real>(picks: &mut Vec<Placement<R>>, more: &Vec<Placement<R>>)
    ensures
        final(picks)@ == old(picks)@ + more@,
{
    let ghost start = picks@;
    let mut i: usize = 0;
    assert(start + more@.take(0) =~= start);
    while i < more.len()
        invariant
            i <= more.len(),
            picks@ == start + more@.take(i as int),
        decreases more.len() - i,
    {
        picks.push(more[i]);
        i = i + 1;
        assert(picks@ =~= start + more@.take(i as int));
    }
    assert(more@.take(i as int) =~= more@);
}

/// The best way to spend the budget `m` on two disjoint subtrees.
fn split<R: Real>(acc: &Vec<DpEntry<R>>, ch: &Vec<DpEntry<R>>, m: usize) -> (r: DpEntry<R>)
    requires
        m < acc.len() == ch.len(),
    ensures
        r@ == best_split(table(acc@), table(ch@), m as int, (m + 1) as nat),
{
    let mut value = acc[m].value;
    let mut from: Option<usize> = None;
    let mut i: usize = 0;
    while i <= m
        invariant
            i <= m + 1,
            m < acc.len() == ch.len(),
            from is Some ==> from->0 < i,
            best_split(table(acc@), table(ch@), m as int, i as nat) == match from {
                Some(j) => table(acc@)[j as int].and(table(ch@)[m - j]),
                None => table(acc@)[m as int],
            },
            value == best_split(table(acc@), table(ch@), m as int, i as nat).value,
        decreases m + 1 - i,
    {
        let v = acc[i].value.plus(ch[m - i].value);
        assert(table(acc@)[i as int].and(table(ch@)[m - i]).value == v);
        if value.is_lt(v) {
            value = v;
            from = Some(i);
        }
        i = i + 1;
    }
    match from {
        Some(j) => {
            let mut e = acc[j].copied();
            append_picks(&mut e.picks, &ch[m - j].picks);
            e.value = value;
            e.covered = e.covered.plus(ch[m - j].covered);
            e
        },
        None => acc[m].copied(),
    }
}

/// The best placements for two disjoint subtrees together.
fn merge<R: Real>(acc: &Vec<DpEntry<R>>, ch: &Vec<DpEntry<R>>) -> (r: Vec<DpEntry<R>>)
    requires
        acc.len() == ch.len(),
    ensures
        table(r@) == merged(table(acc@), table(ch@)),
{
    let mut out: Vec<DpEntry<R>> = Vec::new();
    let mut m: usize = 0;
    while m < acc.len()
        invariant
            m <= acc.len() == ch.len(),
            table(out@) == merged(table(acc@), table(ch@)).take(m as int),
        decreases acc.len() - m,
    {
        let ghost before = table(out@);
        let e = split(acc, ch, m);
        out.push(e);
        assert(table(out@) =~= before.push(e@));
        m = m + 1;
        assert(table(out@) =~= merged(table(acc@), table(ch@)).take(m as int));
    }
    assert(table(out@) =~= merged(table(acc@), table(ch@)));
    out
}

/// Places `id` on top of what is best below it, for each budget for which that
/// pays.
fn place<R: Real>(
    trie: &PrefixTrie<R>,
    prices: &PriceSheet<R>,
    id: NodeId,
    now: R,
    acc: &mut Vec<DpEntry<R>>,
    below: &Vec<DpEntry<R>>,
    up: u64,
    theta_up: R,
    theta_down: R,
)
    requires
        id < trie@.nodes.len(),
        up <= trie@.tokens(id as int) <= u64::MAX,
        old(acc).len() == below.len(),
        below.len() >= 1,
    ensures
        table(final(acc)@) == (Ask {
            trie: trie@,
            prices: prices@,
            now,
            theta_up,
            theta_down,
        }).placed(id as int, table(old(acc)@), table(below@), up),
        final(acc).len() == old(acc).len(),
{
    let ghost ask = Ask { trie: trie@, prices: prices@, now, theta_up, theta_down };
    let node = trie.node(id);
    let tokens: u64 = trie.tokens(id);
    let lambda = node.stats.decayed_lambda(now, trie.tau_decay);
    let (c, ttl) = cost_rate(prices, tokens, &node.stats, now, trie.tau_decay);
    let gain = savings_rate(prices, tokens - up, lambda).minus(c);
    let threshold = if matches!(node.state, CacheState::Cached { .. }) {
        theta_down
    } else {
        theta_up
    };
    let ghost was = table(acc@);
    let total: usize = acc.len();
    let mut kk: usize = 1;
    while kk < total
        invariant
            1 <= kk <= total,
            acc.len() == total,
            below.len() == total,
            was.len() == total,
            tokens == trie@.tokens(id as int),
            lambda == ask.rate(id as int),
            (c, ttl) == ask.cost(id as int),
            gain == ask.gain(id as int, up),
            threshold == ask.threshold(id as int),
            ask.prices == prices@,
            ask.trie == trie@,
            forall|j: int| kk <= j < total ==> #[trigger] table(acc@)[j] == was[j],
            forall|j: int|
                0 <= j < kk ==> #[trigger] table(acc@)[j] == ask.placed_at(
                    id as int,
                    was,
                    table(below@),
                    up,
                    j,
                ),
        decreases total - kk,
    {
        let ghost before = table(acc@);
        assert(before[kk as int] == was[kk as int]);
        assert(table(below@)[kk - 1] == below@[kk - 1]@);
        let base = &below[kk - 1];
        let lambda_excl = lambda.minus(base.covered).max_with(R::from_int(0));
        let s = savings_rate(prices, tokens, lambda_excl);
        let net = s.minus(c);
        if threshold.times(c).is_lt(s) && R::from_int(0).is_lt(net) {
            let value = base.value.plus(gain);
            if acc[kk].value.is_lt(value) {
                let mut e = base.copied();
                e.picks.push(Placement { node: id, tokens, ttl_hours: ttl, net_per_hour: net });
                e.value = value;
                e.covered = lambda;
                acc[kk] = e;
                assert(table(acc@) =~= before.update(kk as int, e@));
            }
        }
        assert(table(acc@)[kk as int] == ask.placed_at(
            id as int,
            was,
            table(below@),
            up,
            kk as int,
        ));
        kk = kk + 1;
    }
    assert(table(acc@) =~= ask.placed(id as int, was, table(below@), up));
}

/// A table with nothing placed.
fn blank<R: Real>(k: usize) -> (r: Vec<DpEntry<R>>)
    requires
        k < usize::MAX,
    ensures
        table(r@) == zeros::<R>(k as nat),
        r.len() == k + 1,
{
    let mut acc: Vec<DpEntry<R>> = Vec::new();
    while acc.len() <= k
        invariant
            acc.len() <= k + 1,
            k < usize::MAX,
            table(acc@) == zeros::<R>(k as nat).take(acc.len() as int),
        decreases k + 1 - acc.len(),
    {
        acc.push(DpEntry::zero());
        assert(table(acc@) =~= zeros::<R>(k as nat).take(acc.len() as int));
    }
    assert(table(acc@) =~= zeros::<R>(k as nat));
    acc
}

/// `n` tables with nothing placed.
fn blanks<R: Real>(n: usize, k: usize) -> (r: Vec<Vec<DpEntry<R>>>)
    requires
        k < usize::MAX,
    ensures
        r.len() == n,
        forall|j: int| 0 <= j < r.len() ==> (#[trigger] r@[j]).len() == k + 1,
        forall|j: int| 0 <= j < r.len() ==> table((#[trigger] r@[j])@) == zeros::<R>(k as nat),
{
    let mut out: Vec<Vec<DpEntry<R>>> = Vec::new();
    while out.len() < n
        invariant
            out.len() <= n,
            k < usize::MAX,
            forall|j: int| 0 <= j < out.len() ==> (#[trigger] out@[j]).len() == k + 1,
            forall|j: int|
                0 <= j < out.len() ==> table((#[trigger] out@[j])@) == zeros::<R>(k as nat),
        decreases n - out.len(),
    {
        out.push(blank(k));
    }
    out
}

/// Adds the tables of one more child, one for each placement above.
fn add_child<R: Real>(accs: &mut Vec<Vec<DpEntry<R>>>, ch: &Vec<Vec<DpEntry<R>>>, k: usize)
    requires
        old(accs).len() == ch.len(),
        k < usize::MAX,
        forall|j: int| 0 <= j < ch.len() ==> (#[trigger] old(accs)@[j]).len() == k + 1,
        forall|j: int| 0 <= j < ch.len() ==> (#[trigger] ch@[j]).len() == k + 1,
    ensures
        final(accs).len() == ch.len(),
        forall|j: int| 0 <= j < ch.len() ==> (#[trigger] final(accs)@[j]).len() == k + 1,
        forall|j: int|
            0 <= j < ch.len() ==> table((#[trigger] final(accs)@[j])@) == merged(
                table(old(accs)@[j]@),
                table(ch@[j]@),
            ),
{
    let ghost start = accs@;
    let mut j: usize = 0;
    while j < ch.len()
        invariant
            j <= ch.len(),
            accs.len() == ch.len() == start.len(),
            k < usize::MAX,
            forall|i: int| 0 <= i < ch.len() ==> (#[trigger] accs@[i]).len() == k + 1,
            forall|i: int| 0 <= i < ch.len() ==> (#[trigger] ch@[i]).len() == k + 1,
            forall|i: int| j <= i < ch.len() ==> (#[trigger] accs@[i]) == start[i],
            forall|i: int|
                0 <= i < j ==> table((#[trigger] accs@[i])@) == merged(
                    table(start[i]@),
                    table(ch@[i]@),
                ),
        decreases ch.len() - j,
    {
        assert(accs@[j as int] == start[j as int]);
        assert(ch@[j as int].len() == k + 1);
        let both = merge(&accs[j], &ch[j]);
        assert(table(both@).len() == k + 1);
        accs[j] = both;
        j = j + 1;
    }
}

/// Returns, for each placement above (by its length, zero for none), and for
/// each budget `0..=k`, the best entry for the subtree at `id`.
pub(crate) fn solve<R: Real>(
    trie: &PrefixTrie<R>,
    prices: &PriceSheet<R>,
    id: NodeId,
    now: R,
    k: usize,
    ups: &Vec<u64>,
    theta_up: R,
    theta_down: R,
) -> (r: Vec<Vec<DpEntry<R>>>)
    requires
        trie.wf(),
        trie@.sized(),
        trie@.live(id as int),
        k < usize::MAX,
        forall|j: int| 0 <= j < ups.len() ==> (#[trigger] ups@[j]) <= trie@.tokens(id as int),
    ensures
        r.len() == ups.len(),
        forall|j: int| 0 <= j < r.len() ==> (#[trigger] r@[j]).len() == k + 1,
        forall|j: int|
            0 <= j < r.len() ==> table((#[trigger] r@[j])@) == (Ask {
                trie: trie@,
                prices: prices@,
                now,
                theta_up,
                theta_down,
            }).solved(id as int, k as nat, ups@[j]),
    decreases u64::MAX - trie@.nodes[id as int].depth_blocks,
{
    let ghost ask = Ask { trie: trie@, prices: prices@, now, theta_up, theta_down };
    let tokens: u64 = trie.tokens(id);
    let eligible = id != 0 && tokens >= prices.min_cacheable_tokens;
    // What may stand above the children: what may stand above this node, and
    // this node.
    let mut over: Vec<u64> = Vec::new();
    while over.len() < ups.len()
        invariant
            over.len() <= ups.len(),
            over@ == ups@.take(over.len() as int),
        decreases ups.len() - over.len(),
    {
        over.push(ups[over.len()]);
        assert(over@ =~= ups@.take(over.len() as int));
    }
    if eligible {
        over.push(tokens);
    }
    // Made once the first child is solved: a long chain then holds the tables of
    // one node at a time.
    let mut accs: Vec<Vec<DpEntry<R>>> = Vec::new();
    let kids = trie.children_sorted(id);
    let mut i: usize = 0;
    assert(kids@.take(0) =~= Seq::empty());
    while i < kids.len()
        invariant
            i <= kids.len(),
            k < usize::MAX,
            trie.wf(),
            trie@.sized(),
            trie@.live(id as int),
            kids@ == trie@.children_sorted(id as int),
            ask == (Ask { trie: trie@, prices: prices@, now, theta_up, theta_down }),
            forall|j: int|
                0 <= j < over.len() ==> (#[trigger] over@[j]) <= trie@.tokens(id as int),
            accs.len() == if i == 0 {
                0
            } else {
                over.len()
            },
            forall|j: int| 0 <= j < accs.len() ==> (#[trigger] accs@[j]).len() == k + 1,
            forall|j: int|
                0 <= j < accs.len() ==> table((#[trigger] accs@[j])@) == ask.solved_kids(
                    id as int,
                    kids@.take(i as int),
                    k as nat,
                    over@[j],
                ),
        decreases kids.len() - i,
    {
        let child: NodeId = kids[i];
        proof {
            trie@.sorted_child_hangs(id as int, i as int);
            assert(kids@.take(i + 1).drop_last() =~= kids@.take(i as int));
            trie@.child_is_longer(id as int, child as int);
        }
        let ch = solve(trie, prices, child, now, k, &over, theta_up, theta_down);
        if i == 0 {
            accs = blanks(over.len(), k);
            assert(kids@.take(0) =~= Seq::empty());
        }
        let ghost before = accs@;
        add_child(&mut accs, &ch, k);
        i = i + 1;
        assert forall|j: int| 0 <= j < accs.len() implies table((#[trigger] accs@[j])@)
            == ask.solved_kids(id as int, kids@.take(i as int), k as nat, over@[j]) by {
            assert(table(before[j]@) == ask.solved_kids(
                id as int,
                kids@.take(i - 1),
                k as nat,
                over@[j],
            ));
            assert(table(ch@[j]@) == ask.solved(child as int, k as nat, over@[j]));
        }
    }
    assert(kids@.take(i as int) =~= kids@);
    if i == 0 {
        accs = blanks(over.len(), k);
    }
    if !eligible {
        assert(over@ =~= ups@);
        return accs;
    }
    // Option: place a cache point at this node.
    let ghost all = accs@;
    if let Some(below) = accs.pop() {
        assert(below == all[ups.len() as int]);
        assert(over@[ups.len() as int] == tokens);
        let mut j: usize = 0;
        while j < ups.len()
            invariant
                j <= ups.len(),
                accs.len() == ups.len(),
                id < trie@.nodes.len(),
                tokens == trie@.tokens(id as int),
                eligible,
                eligible == ask.eligible(id as int),
                ask == (Ask { trie: trie@, prices: prices@, now, theta_up, theta_down }),
                below.len() == k + 1,
                table(below@) == ask.solved_kids(
                    id as int,
                    trie@.children_sorted(id as int),
                    k as nat,
                    tokens,
                ),
                forall|x: int| 0 <= x < ups.len() ==> (#[trigger] ups@[x]) <= tokens,
                forall|x: int| 0 <= x < accs.len() ==> (#[trigger] accs@[x]).len() == k + 1,
                forall|x: int|
                    j <= x < accs.len() ==> table((#[trigger] accs@[x])@) == ask.solved_kids(
                        id as int,
                        trie@.children_sorted(id as int),
                        k as nat,
                        ups@[x],
                    ),
                forall|x: int|
                    0 <= x < j ==> table((#[trigger] accs@[x])@) == ask.solved(
                        id as int,
                        k as nat,
                        ups@[x],
                    ),
            decreases ups.len() - j,
        {
            assert(accs@[j as int].len() == k + 1);
            assert(ups@[j as int] <= tokens);
            place(
                trie,
                prices,
                id,
                now,
                &mut accs[j],
                &below,
                ups[j],
                theta_up,
                theta_down,
            );
            j = j + 1;
        }
    }
    accs
}

/// The placements of the last entry of highest value.
fn best_of<R: Real>(entries: &Vec<DpEntry<R>>) -> (r: Vec<Placement<R>>)
    requires
        entries.len() >= 1,
    ensures
        r@ == table(entries@)[top_ranked(table(entries@), entries@.len())].picks,
{
    let mut best: usize = 0;
    let mut i: usize = 1;
    while i < entries.len()
        invariant
            1 <= i <= entries.len(),
            best < i,
            best == top_ranked(table(entries@), i as nat),
        decreases entries.len() - i,
    {
        if !entries[i].value.ranks_before(entries[best].value) {
            best = i;
        }
        i = i + 1;
    }
    entries[best].copied().picks
}

/// Solve the budgeted placement problem over the whole trie.
///
/// `theta_up` / `theta_down` are hysteresis thresholds: a currently-uncached
/// node is only proposed when its savings exceed `theta_up x` its holding cost;
/// a currently-cached node is kept down to `theta_down x`. Reported
/// `net_per_hour` is always the un-thresholded `S - C`.
pub fn plan_breakpoints<R: Real>(
    trie: &PrefixTrie<R>,
    prices: &PriceSheet<R>,
    now: R,
    theta_up: R,
    theta_down: R,
) -> (r: Vec<Placement<R>>)
    requires
        trie.wf(),
        prices.max_breakpoints == 0 || prices@.regime() == Regime::ShapeOnly || trie@.sized(),
        prices.max_breakpoints < usize::MAX,
    ensures
        r@ == (Ask { trie: trie@, prices: prices@, now, theta_up, theta_down }).chosen(),
{
    let ghost ask = Ask { trie: trie@, prices: prices@, now, theta_up, theta_down };
    let k: usize = prices.max_breakpoints;
    if k == 0 || matches!(prices.regime(), Regime::ShapeOnly) {
        let none: Vec<Placement<R>> = Vec::new();
        assert(none@ =~= ask.chosen());
        return none;
    }
    let mut ups: Vec<u64> = Vec::new();
    ups.push(0);
    let tables = solve(trie, prices, PrefixTrie::<R>::ROOT, now, k, &ups, theta_up, theta_down);
    assert(tables@[0].len() == k + 1);
    best_of(&tables[0])
}

} // verus!
