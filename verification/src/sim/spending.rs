//! What replays must spend, request by request, in billionths of a dollar.
use vstd::prelude::*;

use crate::fixed::Fixed;
use crate::number::Real;
use crate::plan::mtok_of;
use crate::sim::model::{uncached, Case};
use crate::sim::oracle::{Schedule, Tariff};
use crate::sim::Policy;
use crate::total::{total_changes, total_is_ordered, total_of, total_of_nothing};
use crate::trie::NodeId;

verus! {

/// What `tokens` cost at a price a million: a thousand billionths of it a token,
/// rounded down to a billionth.
pub open spec fn charge(tokens: int, price: Fixed) -> int {
    (1000 * tokens * price.units) / 1_000_000_000
}

/// A price times a number of tokens in millions is what they cost.
pub proof fn tokens_are_charged(tokens: u64, price: Fixed)
    requires
        tokens <= 9_000_000_000,
        0 <= price.units <= 1_000_000_000_000_000,
    ensures
        mtok_of::<Fixed>(tokens).prod(price).units == charge(tokens as int, price),
        0 <= charge(tokens as int, price),
{
    crate::sim::benchmark::priced(tokens, price);
}

impl Schedule {
    /// Every plan reads each request's prefix at least.
    proof fn reads_at_least(self, t: Tariff)
        requires
            self.sound(),
            self.covers() <= t.stored.len(),
            0 <= t.read <= t.input,
            forall|i: int, j: int|
                0 <= i <= j < t.stored.len() ==> #[trigger] t.stored[i] <= #[trigger] t.stored[j],
        ensures
            self.cost(t) >= self.covers() * t.read,
        decreases self,
    {
        match self {
            Schedule::Start => {
                assert(0 * t.read == 0) by (nonlinear_arith);
            },
            Schedule::Miss { before } => {
                before.reads_at_least(t);
                assert((before.covers() + 1) * t.read == before.covers() * t.read + t.read)
                    by (nonlinear_arith);
            },
            Schedule::Stay { before, len } => {
                before.reads_at_least(t);
                let first = before.covers() as int;
                assert((before.covers() + len) * t.read == before.covers() * t.read + t.read * len)
                    by (nonlinear_arith);
                assert(t.stored[first] <= t.stored[first + len - 1]);
            },
        }
    }
}

impl Case<Fixed> {
    /// What the request `i` costs without a cache.
    pub open spec fn full_charge(self, i: int) -> int {
        charge(self.trace[i].total_tokens as int, self.prices.input_per_mtok)
    }

    /// What the request `i` costs under any policy: all of it at the input price
    /// where it shares no prefix worth caching; else its suffix at the input
    /// price, and its prefix at the read price.
    pub open spec fn least_charge(self, i: int) -> int {
        let e = self.trace[i];
        match self.family(e) {
            None => self.full_charge(i),
            Some(x) => charge(e.total_tokens - self.tokens(x), self.prices.input_per_mtok)
                + charge(self.tokens(x) as int, self.prices.cached_read_per_mtok),
        }
    }

    /// Without a cache, every request pays the input price for all its tokens.
    pub proof fn uncached_pays_in_full(self, upto: nat, bound: int)
        requires
            self.orderly(bound),
            upto <= self.trace.len(),
            total_of(upto, |i: int| self.full_charge(i)) <= i64::MAX,
        ensures
            ({
                let r = uncached(self.trace, self.prices, upto);
                &&& r.request_cost.units == total_of(upto, |i: int| self.full_charge(i))
                &&& 0 <= r.request_cost.units
            }),
        decreases upto,
    {
        if upto > 0 {
            let f = |i: int| self.full_charge(i);
            let k = (upto - 1) as nat;
            assert(self.trace[k as int].total_tokens <= 9_000_000_000);
            tokens_are_charged(self.trace[k as int].total_tokens, self.prices.input_per_mtok);
            self.uncached_pays_in_full(k, bound);
        }
    }

    /// What is spent on requests without a prefix worth caching, exactly.
    proof fn loose_is_exact(self, upto: nat, bound: int)
        requires
            self.orderly(bound),
            upto <= self.trace.len(),
            self.loose(upto) <= i64::MAX,
        ensures
            0 <= self.loose(upto),
            self.loose_cost(upto).units == self.loose(upto),
        decreases upto,
    {
        if upto > 0 {
            let e = self.trace[upto - 1];
            assert(e.total_tokens <= 9_000_000_000);
            tokens_are_charged(e.total_tokens, self.prices.input_per_mtok);
            self.loose_is_exact((upto - 1) as nat, bound);
        }
    }

    proof fn suffixes_are_exact(self, node: NodeId, n: nat, acc: Fixed, bound: int)
        requires
            self.orderly(bound),
            n <= self.all_members(node).len(),
            acc.units >= 0,
            acc.units + self.suffixes(node, n) <= i64::MAX,
        ensures
            0 <= self.suffixes(node, n),
            self.suffix_costs(node, self.all_members(node), n, acc).units == acc.units
                + self.suffixes(node, n),
        decreases n,
    {
        if n > 0 {
            self.suffix_is_priced(node, n, bound);
            self.suffixes_are_exact(node, (n - 1) as nat, acc, bound);
        }
    }

    proof fn suffixes_are_positive(self, node: NodeId, n: nat, bound: int)
        requires
            self.orderly(bound),
            n <= self.all_members(node).len(),
        ensures
            0 <= self.suffixes(node, n),
        decreases n,
    {
        if n > 0 {
            self.suffix_is_priced(node, n, bound);
            self.suffixes_are_positive(node, (n - 1) as nat, bound);
        }
    }

    /// The least that the prefix `node` and what follows it cost with hindsight.
    pub open spec fn family_least(self, node: int) -> int {
        let x = node as usize;
        let n = self.all_members(x).len();
        self.suffixes(x, n) + self.terms(x).least(n)
    }

    /// The least that a prefix costs is not negative, no less than reading it each
    /// time, and no more than sending it each time.
    proof fn family_least_is_between(self, x: NodeId, bound: int)
        requires
            self.orderly(bound),
            x < self.trie().nodes.len(),
        ensures
            ({
                let n = self.all_members(x).len();
                &&& 0 <= self.terms(x).least(n)
                &&& n * self.terms(x).read <= self.terms(x).least(n) <= n * self.terms(x).input
                &&& 0 <= self.suffixes(x, n)
            }),
    {
        let t = self.terms(x);
        let n = self.all_members(x).len();
        t.least_is_below_input(n);
        self.suffixes_are_positive(x, n, bound);
        if n > 0 {
            self.family_of_member(x, bound);
            self.storage_adds_up(x, bound);
            crate::sim::benchmark::parts_cost_no_more(
                self.tokens(x),
                0,
                self.prices.cached_read_per_mtok,
                self.prices.input_per_mtok,
            );
            let s = t.least_is_reached(n);
            s.cost_is_not_negative(t);
            s.reads_at_least(t);
        } else {
            assert(0 * t.read == 0) by (nonlinear_arith);
        }
    }

    #[verifier::rlimit(60)]
    proof fn families_are_exact(self, n: nat, acc: Fixed, bound: int)
        requires
            self.orderly(bound),
            n <= self.trie().nodes.len(),
            acc.units >= 0,
            acc.units + total_of(n, |x: int| self.family_least(x)) <= i64::MAX,
        ensures
            self.family_costs(n, acc).units == acc.units + total_of(
                n,
                |x: int| self.family_least(x),
            ),
            self.family_costs(n, acc).units >= acc.units,
        decreases n,
    {
        self.nodes_fit(bound);
        if n > 0 {
            let f = |x: int| self.family_least(x);
            let k = (n - 1) as nat;
            let x = k as usize;
            self.family_least_is_between(x, bound);
            self.families_are_exact(k, acc, bound);
            let before = self.family_costs(k, acc);
            let idxs = self.all_members(x);
            if idxs.len() > 0 {
                self.suffixes_are_exact(x, idxs.len(), before, bound);
                self.hindsight_is_least(x, idxs, idxs.len(), bound);
            }
        }
    }

    /// What the first requests that share `node` cost at least.
    spec fn read_through(self, node: int, upto: nat) -> int {
        let x = node as usize;
        let n = self.count(x, upto);
        self.suffixes(x, n) + n * self.terms(x).read
    }

    /// Added up by prefix, the least charges are those of the requests.
    #[verifier::rlimit(60)]
    proof fn charges_by_prefix(self, upto: nat, bound: int)
        requires
            self.orderly(bound),
            upto <= self.trace.len(),
        ensures
            self.loose(upto) + total_of(
                self.trie().nodes.len(),
                |x: int| self.read_through(x, upto),
            ) == total_of(upto, |i: int| self.least_charge(i)),
        decreases upto,
    {
        self.nodes_fit(bound);
        let n = self.trie().nodes.len();
        let after = |x: int| self.read_through(x, upto);
        if upto == 0 {
            assert forall|x: int| 0 <= x < n implies #[trigger] after(x) == 0 by {
                assert(0 * self.terms(x as usize).read == 0) by (nonlinear_arith);
            }
            total_of_nothing(n, after);
        } else {
            let k = (upto - 1) as nat;
            self.charges_by_prefix(k, bound);
            let g = |i: int| self.least_charge(i);
            let e = self.trace[k as int];
            assert(e.total_tokens <= 9_000_000_000);
            self.family_is_a_node(k as int, bound);
            let before = |x: int| self.read_through(x, k);
            assert forall|x: int|
                0 <= x < n && self.family(e) != Some(x as usize) implies #[trigger] before(x)
                == after(x) by {
                self.count_stands(x as usize, k as int);
            }
            match self.family(e) {
                Some(id) => {
                    self.member_is_next(id, k as int);
                    let c = self.count(id, k);
                    let read = self.terms(id).read;
                    tokens_are_charged(self.suffix(e, id), self.prices.input_per_mtok);
                    tokens_are_charged(self.tokens(id), self.prices.cached_read_per_mtok);
                    assert((c + 1) * read == c * read + read) by (nonlinear_arith);
                    assert forall|x: int| 0 <= x < n && x != id implies #[trigger] before(x)
                        == after(x) by {
                        assert(self.family(e) != Some(x as usize));
                    }
                    total_changes(n, before, after, id as int);
                },
                None => {
                    tokens_are_charged(e.total_tokens, self.prices.input_per_mtok);
                    assert forall|x: int| 0 <= x < n && x != -1 implies #[trigger] before(x)
                        == after(x) by {
                        assert(self.family(e) != Some(x as usize));
                    }
                    total_changes(n, before, after, -1);
                },
            }
        }
    }
}

/// Hindsight pays for everything. Its total is what the requests cost that share
/// no prefix worth caching, and for each prefix its suffixes and the least that
/// any plan of caching it costs. So it is no less than what every policy has to
/// pay: the input price for all that is not shared, and the read price for the
/// rest.
#[verifier::rlimit(60)]
pub proof fn hindsight_pays_for_everything(c: Case<Fixed>, bound: int)
    requires
        c.orderly(bound),
        total_of(c.trace.len(), |i: int| c.full_charge(i)) < i64::MAX,
    ensures
        ({
            let total = c.report(Policy::ReferenceOracle).total_cost.units;
            let n = c.trace.len();
            &&& total == c.loose(n) + total_of(
                c.trie().nodes.len(),
                |x: int| c.family_least(x),
            )
            &&& total >= total_of(n, |i: int| c.least_charge(i))
            &&& total <= total_of(n, |i: int| c.full_charge(i))
        }),
{
    let n = c.trace.len();
    let w = c.trie().nodes.len();
    c.nodes_fit(bound);
    c.uncached_pays_in_full(n, bound);
    c.uncached_is_missed(n, bound);
    c.charges_by_prefix(n, bound);
    let f = |x: int| c.family_least(x);
    let missed = |x: int| c.missed(x, n);
    let read = |x: int| c.read_through(x, n);
    assert forall|x: int| 0 <= x < w implies 0 <= #[trigger] f(x) && f(x) <= missed(x) && read(x)
        <= f(x) by {
        c.family_least_is_between(x as usize, bound);
    }
    total_is_ordered(w, f, missed);
    total_is_ordered(w, read, f);
    let zero = |x: int| 0int;
    total_of_nothing(w, zero);
    total_is_ordered(w, zero, f);
    c.loose_is_exact(n, bound);
    c.families_are_exact(w, c.loose_cost(n), bound);
}

/// Where no two requests share a prefix worth caching, hindsight spends what no
/// caching does.
pub proof fn hindsight_without_sharing<R: Real>(c: Case<R>)
    requires
        forall|i: int| 0 <= i < c.trace.len() ==> c.family(#[trigger] c.trace[i]) is None,
    ensures
        c.report(Policy::ReferenceOracle).total_cost == c.report(Policy::NoCache).total_cost,
{
    loose_is_uncached(c, c.trace.len());
    nothing_is_shared(c, c.trie().nodes.len(), c.loose_cost(c.trace.len()));
}

proof fn loose_is_uncached<R: Real>(c: Case<R>, upto: nat)
    requires
        upto <= c.trace.len(),
        forall|i: int| 0 <= i < c.trace.len() ==> c.family(#[trigger] c.trace[i]) is None,
    ensures
        c.loose_cost(upto) == uncached(c.trace, c.prices, upto).request_cost,
    decreases upto,
{
    if upto > 0 {
        loose_is_uncached(c, (upto - 1) as nat);
        assert(c.family(c.trace[upto - 1]) is None);
    }
}

proof fn nothing_is_shared<R: Real>(c: Case<R>, n: nat, acc: R)
    requires
        forall|i: int| 0 <= i < c.trace.len() ==> c.family(#[trigger] c.trace[i]) is None,
    ensures
        c.family_costs(n, acc) == acc,
    decreases n,
{
    if n > 0 {
        nothing_is_shared(c, (n - 1) as nat, acc);
        no_members(c, (n - 1) as usize, c.trace.len());
    }
}

proof fn no_members<R: Real>(c: Case<R>, node: NodeId, upto: nat)
    requires
        upto <= c.trace.len(),
        forall|i: int| 0 <= i < c.trace.len() ==> c.family(#[trigger] c.trace[i]) is None,
    ensures
        c.members(node, upto).len() == 0,
    decreases upto,
{
    if upto > 0 {
        no_members(c, node, (upto - 1) as nat);
        assert(c.family(c.trace[upto - 1]) is None);
    }
}

} // verus!
