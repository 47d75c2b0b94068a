//! Why hindsight is a benchmark for a whole replay: no fixed rule spends less.
use vstd::prelude::*;

use crate::fixed::{Fixed, ONE};
use crate::number::Real;
use crate::plan::mtok_of;
use crate::sim::laws::{
    deepest_worth_on_path, peeked_is_shallow, trie_of_trace_is_wf, whole,
};
use crate::sim::model::{holds, place, uncached, Case, Stay};
use crate::sim::oracle::{Schedule, Tariff};
use crate::sim::{Policy, Report};
use crate::total::{total_changes, total_of, total_of_nothing};
use crate::trie::NodeId;

verus! {

/// What `tokens` cost at a price.
pub(crate) proof fn priced(tokens: u64, price: Fixed)
    requires
        tokens <= 9_000_000_000,
        0 <= price.units <= 1_000_000_000_000_000,
    ensures
        mtok_of::<Fixed>(tokens).units == 1000 * tokens,
        mtok_of::<Fixed>(tokens).prod(price).units == (1000 * tokens * price.units) / (ONE as int),
        0 <= mtok_of::<Fixed>(tokens).prod(price).units,
{
    assert(Fixed::int_of(1_000_000).units == 1_000_000_000_000_000);
    assert(Fixed::int_of(tokens).units == tokens * 1_000_000_000);
    assert((tokens * 1_000_000_000) * 1_000_000_000 / 1_000_000_000_000_000 == 1000 * tokens);
    let p = (1000 * tokens) * price.units;
    assert(0 <= p <= 9_000_000_000_000 * 1_000_000_000_000_000) by (nonlinear_arith)
        requires
            p == (1000 * tokens) * price.units,
            0 <= tokens <= 9_000_000_000,
            0 <= price.units <= 1_000_000_000_000_000,
    ;
}

/// Two parts cost no more than the whole, and less dear ones no more.
pub(crate) proof fn parts_cost_no_more(a: u64, b: u64, low: Fixed, high: Fixed)
    requires
        a + b <= 9_000_000_000,
        0 <= low.units <= high.units <= 1_000_000_000_000_000,
    ensures
        mtok_of::<Fixed>(a).prod(low).units + mtok_of::<Fixed>(b).prod(high).units <= mtok_of::<
            Fixed,
        >((a + b) as u64).prod(high).units,
        mtok_of::<Fixed>(a).prod(low).units <= mtok_of::<Fixed>(a).prod(high).units,
{
    priced(a, low);
    priced(a, high);
    priced(b, high);
    priced((a + b) as u64, high);
    let (x, y) = (1000 * a * low.units, 1000 * b * high.units);
    let z = 1000 * (a + b) * high.units;
    let w = 1000 * a * high.units;
    assert(x <= w) by (nonlinear_arith)
        requires
            x == 1000 * a * low.units,
            w == 1000 * a * high.units,
            low.units <= high.units,
            0 <= a,
    ;
    assert(w + y == z) by (nonlinear_arith)
        requires
            w == 1000 * a * high.units,
            y == 1000 * b * high.units,
            z == 1000 * (a + b) * high.units,
    ;
}

/// What is held to the range moves no further than it does.
proof fn held_moves_less(a: int, b: int)
    requires
        a >= b,
    ensures
        0 <= Fixed::held(a).units - Fixed::held(b).units <= a - b,
{
}

/// The storage that is paid for a stay, against that of the schedule.
proof fn stay_pays(m: int, s: int, opened: int, last: int, closed: int)
    requires
        0 <= m <= 9_000_000_000_000,
        0 <= s <= 1_000_000_000_000_000,
        opened <= last <= closed,
        last - opened <= 1_000_000_000_000_000,
    ensures
        ({
            let rate = (m * s) / (ONE as int);
            let due = (rate * last) / (ONE as int) - (rate * opened) / (ONE as int);
            let held = ((last - opened) * m) / (ONE as int);
            &&& 0 <= held <= i64::MAX
            &&& 0 <= due <= (held * s) / (ONE as int) + s / (ONE as int) + 3
            &&& held <= ((closed - opened) * m) / (ONE as int)
        }),
{
    let one = ONE as int;
    let l = last - opened;
    let rate = (m * s) / one;
    let (a, b) = ((rate * last) / one, (rate * opened) / one);
    let h = (l * m) / one;
    let q = (h * s) / one;
    assert(0 <= m * s && 0 <= l * m <= 9_000_000_000_000 * 1_000_000_000_000_000)
        by (nonlinear_arith)
        requires
            0 <= m <= 9_000_000_000_000,
            0 <= s,
            0 <= l <= 1_000_000_000_000_000,
    ;
    assert(one * rate <= m * s);
    assert(one * a <= rate * last && rate * opened < one * b + one);
    assert(rate * last - rate * opened == rate * l) by (nonlinear_arith)
        requires
            l == last - opened,
    ;
    assert(rate * opened <= rate * last) by (nonlinear_arith)
        requires
            rate >= 0,
            opened <= last,
    ;
    assert(b <= a);
    assert(one * (rate * l) <= (m * s) * l) by (nonlinear_arith)
        requires
            one * rate <= m * s,
            0 <= l,
    ;
    assert(l * m < one * h + one);
    assert((l * m) * s <= (one * h) * s + one * s) by (nonlinear_arith)
        requires
            l * m <= one * h + one,
            0 <= s,
    ;
    assert(h * s < one * q + one);
    assert((one * h) * s == one * (h * s)) by (nonlinear_arith);
    assert((m * s) * l == (l * m) * s) by (nonlinear_arith);
    assert(one * (one * (a - b)) <= one * (one * q) + one * s + 3 * (one * one));
    assert(one * (a - b) <= one * q + s + 3 * one);
    let d = closed - opened;
    assert(l * m <= d * m) by (nonlinear_arith)
        requires
            l <= d,
            0 <= m,
    ;
    // The remainder of `s` is less than one, and so is that of the rest.
    assert(s < one * (s / one) + one);
    assert(one * (a - b) < one * (q + s / one + 4));
}

impl Report<Fixed> {
    /// What was spent.
    spec fn spent(self) -> int {
        self.create_cost.units + self.storage_cost.units + self.request_cost.units
    }

    /// Whether spending has reached the end of the range.
    spec fn overflowed(self) -> bool {
        ||| self.create_cost.units == i64::MAX
        ||| self.storage_cost.units == i64::MAX
        ||| self.request_cost.units == i64::MAX
    }

    spec fn is_sound(self) -> bool {
        &&& self.create_cost.units >= 0
        &&& self.storage_cost.units >= 0
        &&& self.request_cost.units >= 0
    }

    /// Whether `self` comes after `o`, with `more` spent at least.
    spec fn follows(self, o: Self, more: int) -> bool {
        &&& self.is_sound()
        &&& o.overflowed() ==> self.overflowed()
        &&& self.overflowed() || self.spent() >= o.spent() + more
    }
}

impl Case<Fixed> {
    /// The requests that share the prefix `node`.
    pub open spec fn all_members(self, node: NodeId) -> Seq<usize> {
        self.members(node, self.trace.len())
    }

    /// What the prefix `node` costs all of them.
    pub open spec fn terms(self, node: NodeId) -> Tariff {
        self.tariff(node, self.all_members(node))
    }

    /// Whether a trace is in order: its requests stand in the order of their
    /// times and hold the tokens of their blocks, reads are no dearer than input,
    /// and times, lengths and prices stay well within the range of numbers.
    pub open spec fn orderly(self, bound: int) -> bool {
        &&& whole(self.trace, self.cfg.block_tokens)
        &&& self.trace.len() <= usize::MAX
        &&& self.end().units - self.start().units <= 1_000_000_000_000_000
        &&& forall|i: int, j: int|
            0 <= i <= j < self.trace.len() ==> (#[trigger] self.trace[i]).time_hours.units <= (
            #[trigger] self.trace[j]).time_hours.units
        &&& forall|i: int|
            0 <= i < self.trace.len() ==> {
                &&& (#[trigger] self.trace[i]).blocks.len() <= u64::MAX
                &&& self.trace[i].total_tokens <= 9_000_000_000
            }
        &&& self.prices_in_order()
        &&& forall|node: NodeId|
            node < self.trie().nodes.len() ==> (#[trigger] self.terms(node)).within(
                self.all_members(node).len(),
                bound,
            )
    }

    pub open spec fn prices_in_order(self) -> bool {
        &&& 0 <= self.prices.cached_read_per_mtok.units <= self.prices.input_per_mtok.units
        &&& self.prices.input_per_mtok.units <= 1_000_000_000_000_000
        &&& 0 <= self.prices.storage().units <= 1_000_000_000_000_000
    }

    /// What rounding may cost a stay.
    pub open spec fn stay_slack(self) -> int {
        self.prices.storage().units as int / ONE as int + 3
    }

    pub open spec fn input_cost(self, tokens: u64) -> int {
        mtok_of::<Fixed>(tokens).prod(self.prices.input_per_mtok).units as int
    }

    spec fn read_cost(self, tokens: u64) -> int {
        mtok_of::<Fixed>(tokens).prod(self.prices.cached_read_per_mtok).units as int
    }

    /// What the storage of `node` up to a time costs.
    spec fn stored_by(self, node: NodeId, t: Fixed) -> int {
        mtok_of::<Fixed>(self.tokens(node)).prod(self.prices.storage()).prod(t).units as int
    }

    /// What a stay owes for storage.
    spec fn due(self, entry: (NodeId, Stay<Fixed>)) -> int {
        self.stored_by(entry.0, entry.1.last) - self.stored_by(entry.0, entry.1.opened)
    }

    /// What stays that are still open will at least pay.
    spec fn owed(self, live: Seq<(NodeId, Stay<Fixed>)>) -> int
        decreases live.len(),
    {
        if live.len() == 0 {
            0
        } else {
            self.owed(live.drop_last()) + self.due(live.last()) - self.stay_slack()
        }
    }

    proof fn owed_of_update(
        self,
        live: Seq<(NodeId, Stay<Fixed>)>,
        i: int,
        entry: (NodeId, Stay<Fixed>),
    )
        requires
            0 <= i < live.len(),
        ensures
            self.owed(live.update(i, entry)) == self.owed(live) + self.due(entry) - self.due(
                live[i],
            ),
        decreases live.len(),
    {
        let out = live.update(i, entry);
        if i == live.len() - 1 {
            assert(out.drop_last() =~= live.drop_last());
        } else {
            self.owed_of_update(live.drop_last(), i, entry);
            assert(out.drop_last() =~= live.drop_last().update(i, entry));
        }
    }

    proof fn owed_of_push(
        self,
        live: Seq<(NodeId, Stay<Fixed>)>,
        entry: (NodeId, Stay<Fixed>),
    )
        ensures
            self.owed(live.push(entry)) == self.owed(live) + self.due(entry) - self.stay_slack(),
    {
        assert(live.push(entry).drop_last() =~= live);
    }

    /// A stay that is closed pays what it owes.
    proof fn close_pays(self, r: Report<Fixed>, entry: (NodeId, Stay<Fixed>), closed: Fixed)
        requires
            self.prices_in_order(),
            r.is_sound(),
            self.tokens(entry.0) <= 9_000_000_000,
            entry.1.opened.units <= entry.1.last.units <= closed.units,
            entry.1.last.units - entry.1.opened.units <= 1_000_000_000_000_000,
        ensures
            r.stored(self.prices, entry.1.opened, self.tokens(entry.0), closed).follows(
                r,
                self.due(entry) - self.stay_slack(),
            ),
    {
        let tokens = self.tokens(entry.0);
        let price = self.prices.storage();
        let s = price.units as int;
        let m = mtok_of::<Fixed>(tokens);
        let (opened, last) = (entry.1.opened.units as int, entry.1.last.units as int);
        let one = ONE as int;
        priced(tokens, price);
        stay_pays(m.units as int, s, opened, last, closed.units as int);
        let rate = m.prod(price);
        assert(rate.units == (m.units * s) / one);
        held_moves_less((rate.units * last) / one, (rate.units * opened) / one);
        let time = closed.diff(entry.1.opened).larger(Fixed::int_of(0));
        let held = time.prod(m);
        let least = ((last - opened) * m.units) / one;
        assert(held.units >= least) by {
            if closed.units - opened > i64::MAX {
                assert(time.units == i64::MAX);
                assert((last - opened) * m.units <= time.units * m.units) by (nonlinear_arith)
                    requires
                        last - opened <= time.units,
                        m.units >= 0,
                ;
            } else {
                assert(time.units == closed.units - opened);
            }
        }
        let paid = held.prod(price);
        assert((least * s) <= held.units * s) by (nonlinear_arith)
            requires
                least <= held.units,
                0 <= s,
        ;
        assert(0 <= least * s) by (nonlinear_arith)
            requires
                0 <= least,
                0 <= s,
        ;
        assert((least * s) / one <= (held.units * s) / one);
        assert(paid.units >= 0);
        assert(paid.units == i64::MAX || paid.units >= (least * s) / one);
    }
}

impl Schedule {
    /// What a plan costs is not negative where storage adds up.
    pub(crate) proof fn cost_is_not_negative(self, t: Tariff)
        requires
            self.sound(),
            self.covers() <= t.stored.len(),
            0 <= t.input,
            0 <= t.read,
            forall|i: int, j: int|
                0 <= i <= j < t.stored.len() ==> #[trigger] t.stored[i] <= #[trigger] t.stored[j],
        ensures
            self.cost(t) >= 0,
        decreases self,
    {
        match self {
            Schedule::Start => {},
            Schedule::Miss { before } => {
                before.cost_is_not_negative(t);
            },
            Schedule::Stay { before, len } => {
                before.cost_is_not_negative(t);
                assert(t.read * len >= 0) by (nonlinear_arith)
                    requires
                        t.read >= 0,
                ;
                let first = before.covers() as int;
                assert(t.stored[first] <= t.stored[first + len - 1]);
            },
        }
    }
}

impl Case<Fixed> {
    /// How many of the first `upto` requests share the prefix `node`.
    pub open spec fn count(self, node: NodeId, upto: nat) -> nat {
        self.members(node, upto).len()
    }

    /// The first members are those of the first requests, in their order.
    pub(crate) proof fn members_go_on(self, node: NodeId, few: nat, many: nat)
        requires
            few <= many,
            many <= usize::MAX,
        ensures
            self.count(node, few) <= self.count(node, many),
            self.members(node, few) == self.members(node, many).take(
                self.count(node, few) as int,
            ),
            forall|k: int|
                0 <= k < self.count(node, many) ==> (#[trigger] self.members(node, many)[k])
                    < many,
            forall|k: int, l: int|
                0 <= k < l < self.count(node, many) ==> (#[trigger] self.members(node, many)[k])
                    < #[trigger] self.members(node, many)[l],
        decreases many,
    {
        if few < many {
            let m = (many - 1) as nat;
            self.members_go_on(node, few, m);
            assert(self.members(node, few) =~= self.members(node, many).take(
                self.count(node, few) as int,
            ));
        } else {
            if many > 0 {
                self.members_go_on(node, (many - 1) as nat, (many - 1) as nat);
            }
            assert(self.members(node, few) =~= self.members(node, many).take(
                self.count(node, few) as int,
            ));
        }
    }

    /// The place of a request among those that share its prefix.
    pub(crate) proof fn member_is_next(self, node: NodeId, i: int)
        requires
            0 <= i < self.trace.len(),
            self.trace.len() <= usize::MAX,
            self.family(self.trace[i]) == Some(node),
        ensures
            self.count(node, i as nat) < self.all_members(node).len(),
            self.all_members(node)[self.count(node, i as nat) as int] == i,
            self.count(node, (i + 1) as nat) == self.count(node, i as nat) + 1,
    {
        self.members_go_on(node, (i + 1) as nat, self.trace.len());
        let part = self.members(node, (i + 1) as nat);
        assert(part[self.count(node, i as nat) as int] == i);
    }

    /// Nodes can be counted.
    pub(crate) proof fn nodes_fit(self, bound: int)
        requires
            self.orderly(bound),
        ensures
            self.trie().wf(),
            self.trie().sized(),
            self.trie().block_tokens == self.cfg.block_tokens,
    {
        assert forall|j: int| 0 <= j < self.trace.len() implies (
        #[trigger] self.trace[j]).blocks.len() * self.cfg.block_tokens <= u64::MAX by {
            assert(self.trace[j].blocks.len() * self.cfg.block_tokens
                <= self.trace[j].total_tokens);
        }
        trie_of_trace_is_wf(self, self.trace.len());
    }

    /// The prefix of a request is a node, and no longer than the request.
    pub(crate) proof fn family_is_a_node(self, i: int, bound: int)
        requires
            self.orderly(bound),
            0 <= i < self.trace.len(),
        ensures
            match self.family(self.trace[i]) {
                Some(id) => {
                    &&& id < self.trie().nodes.len()
                    &&& self.tokens(id) <= self.trace[i].total_tokens <= 9_000_000_000
                },
                None => true,
            },
    {
        self.nodes_fit(bound);
        let e = self.trace[i];
        let t = self.trie();
        let path = t.peeked_path(0, e.blocks);
        deepest_worth_on_path(t, self.prices, path);
        if let Some(id) = self.family(e) {
            peeked_is_shallow(t, 0, e.blocks, id);
            let d = t.nodes[id as int].depth_blocks;
            let n = e.blocks.len();
            let b = self.cfg.block_tokens;
            assert(d * b <= n * b) by (nonlinear_arith)
                requires
                    d <= n,
            ;
            assert(t.live(id as int));
        }
    }

    /// What the requests among the first `upto` cost that share no prefix.
    pub open spec fn loose(self, upto: nat) -> int
        decreases upto,
    {
        if upto == 0 {
            0
        } else {
            let e = self.trace[upto - 1];
            self.loose((upto - 1) as nat) + if self.family(e) is None {
                self.input_cost(e.total_tokens)
            } else {
                0
            }
        }
    }

    /// What the suffixes of the first `n` requests cost that share `node`.
    pub open spec fn suffixes(self, node: NodeId, n: nat) -> int
        decreases n,
    {
        if n == 0 {
            0
        } else {
            let e = self.trace[self.all_members(node)[n - 1] as int];
            self.suffixes(node, (n - 1) as nat) + self.input_cost(self.suffix(e, node))
        }
    }

    /// A suffix costs nothing less than nothing.
    pub(crate) proof fn suffix_is_priced(self, node: NodeId, n: nat, bound: int)
        requires
            self.orderly(bound),
            1 <= n <= self.all_members(node).len(),
        ensures
            self.input_cost(
                self.suffix(self.trace[self.all_members(node)[n - 1] as int], node),
            ) >= 0,
    {
        self.members_go_on(node, 0, self.trace.len());
        let x = self.all_members(node)[n - 1];
        assert(x < self.trace.len());
        assert(self.trace[x as int].total_tokens <= 9_000_000_000);
        priced(self.suffix(self.trace[x as int], node), self.prices.input_per_mtok);
    }

    proof fn loose_is_close(self, upto: nat, bound: int)
        requires
            self.orderly(bound),
            upto <= self.trace.len(),
        ensures
            0 <= self.loose_cost(upto).units <= self.loose(upto),
        decreases upto,
    {
        if upto > 0 {
            self.loose_is_close((upto - 1) as nat, bound);
            let e = self.trace[upto - 1];
            priced(e.total_tokens, self.prices.input_per_mtok);
        }
    }

    proof fn suffixes_are_close(self, node: NodeId, n: nat, acc: Fixed, bound: int)
        requires
            self.orderly(bound),
            n <= self.all_members(node).len(),
            acc.units >= 0,
        ensures
            0 <= self.suffix_costs(node, self.all_members(node), n, acc).units <= acc.units
                + self.suffixes(node, n),
        decreases n,
    {
        if n > 0 {
            self.suffixes_are_close(node, (n - 1) as nat, acc, bound);
            self.suffix_is_priced(node, n, bound);
        }
    }

    /// Storage adds up over the requests of a prefix.
    pub(crate) proof fn storage_adds_up(self, node: NodeId, bound: int)
        requires
            self.orderly(bound),
            self.tokens(node) <= 9_000_000_000,
        ensures
            forall|i: int, j: int|
                0 <= i <= j < self.terms(node).stored.len() ==> #[trigger] self.terms(
                    node,
                ).stored[i] <= #[trigger] self.terms(node).stored[j],
    {
        let t = self.terms(node);
        let idxs = self.all_members(node);
        self.members_go_on(node, 0, self.trace.len());
        priced(self.tokens(node), self.prices.storage());
        let rate = mtok_of::<Fixed>(self.tokens(node)).prod(self.prices.storage());
        assert forall|i: int, j: int| 0 <= i <= j < t.stored.len() implies #[trigger] t.stored[i]
            <= #[trigger] t.stored[j] by {
            let (x, y) = (idxs[i] as int, idxs[j] as int);
            assert(x <= y < self.trace.len());
            let (a, b) = (self.trace[x].time_hours.units, self.trace[y].time_hours.units);
            assert(rate.units * a <= rate.units * b) by (nonlinear_arith)
                requires
                    rate.units >= 0,
                    a <= b,
            ;
        }
    }

    /// Hindsight costs no more than its parts, prefix by prefix.
    proof fn oracle_is_below(self, n: nat, acc: Fixed, f: spec_fn(int) -> int, bound: int)
        requires
            self.orderly(bound),
            n <= self.trie().nodes.len(),
            acc.units >= 0,
            forall|node: NodeId|
                node < n ==> #[trigger] self.terms(node).least(self.all_members(node).len())
                    + self.suffixes(node, self.all_members(node).len()) <= f(node as int),
        ensures
            0 <= self.family_costs(n, acc).units <= acc.units + total_of(n, f),
        decreases n,
    {
        self.nodes_fit(bound);
        if n > 0 {
            let node = (n - 1) as usize;
            self.oracle_is_below((n - 1) as nat, acc, f, bound);
            let before = self.family_costs((n - 1) as nat, acc);
            let idxs = self.all_members(node);
            let t = self.terms(node);
            assert(t.least(idxs.len()) + self.suffixes(node, idxs.len()) <= f(node as int));
            if idxs.len() > 0 {
                self.suffixes_are_close(node, idxs.len(), before, bound);
                self.hindsight_is_least(node, idxs, idxs.len(), bound);
                let s = t.least_is_reached(idxs.len());
                self.members_go_on(node, 0, self.trace.len());
                self.family_of_member(node, bound);
                self.storage_adds_up(node, bound);
                s.cost_is_not_negative(t);
            }
        }
    }

    /// A prefix that requests share is no longer than they are.
    pub(crate) proof fn family_of_member(self, node: NodeId, bound: int)
        requires
            self.orderly(bound),
            self.all_members(node).len() > 0,
        ensures
            self.tokens(node) <= 9_000_000_000,
    {
        self.some_member(node, self.trace.len());
        let i = choose|i: int|
            0 <= i < self.trace.len() && self.family(#[trigger] self.trace[i]) == Some(node);
        self.family_is_a_node(i, bound);
    }

    proof fn some_member(self, node: NodeId, upto: nat)
        requires
            upto <= self.trace.len(),
            self.members(node, upto).len() > 0,
        ensures
            exists|i: int|
                0 <= i < upto && self.family(#[trigger] self.trace[i]) == Some(node),
        decreases upto,
    {
        if self.family(self.trace[upto - 1]) != Some(node) {
            self.some_member(node, (upto - 1) as nat);
        }
    }
}

impl Case<Fixed> {
    /// What the first requests that share `node` cost where each pays the input
    /// price.
    pub open spec fn missed(self, node: int, upto: nat) -> int {
        let n = self.count(node as usize, upto);
        self.suffixes(node as usize, n) + n * self.terms(node as usize).input
    }

    /// Another request leaves the counts of the other prefixes.
    pub(crate) proof fn count_stands(self, node: NodeId, i: int)
        requires
            0 <= i < self.trace.len(),
            self.family(self.trace[i]) != Some(node),
        ensures
            self.count(node, (i + 1) as nat) == self.count(node, i as nat),
    {
    }

    /// No caching spends what every request costs at the input price.
    #[verifier::rlimit(60)]
    pub(crate) proof fn uncached_is_missed(self, upto: nat, bound: int)
        requires
            self.orderly(bound),
            upto <= self.trace.len(),
        ensures
            ({
                let spent = uncached(self.trace, self.prices, upto).request_cost.units;
                &&& 0 <= spent
                &&& spent == i64::MAX || spent >= self.loose(upto) + total_of(
                    self.trie().nodes.len(),
                    |node: int| self.missed(node, upto),
                )
            }),
        decreases upto,
    {
        self.nodes_fit(bound);
        let n = self.trie().nodes.len();
        let after = |node: int| self.missed(node, upto);
        if upto == 0 {
            assert forall|node: int| 0 <= node < n implies #[trigger] after(node) == 0 by {
                assert(0 * self.terms(node as usize).input == 0) by (nonlinear_arith);
            }
            total_of_nothing(n, after);
        } else {
            let k = (upto - 1) as nat;
            self.uncached_is_missed(k, bound);
            let e = self.trace[k as int];
            priced(e.total_tokens, self.prices.input_per_mtok);
            self.family_is_a_node(k as int, bound);
            let before = |node: int| self.missed(node, k);
            assert forall|node: int|
                0 <= node < n && self.family(e) != Some(node as usize) implies #[trigger] before(
                node,
            ) == after(node) by {
                self.count_stands(node as usize, k as int);
            }
            match self.family(e) {
                Some(id) => {
                    self.member_is_next(id, k as int);
                    let c = self.count(id, k);
                    let price = self.prices.input_per_mtok;
                    parts_cost_no_more(self.tokens(id), self.suffix(e, id), price, price);
                    assert((c + 1) * self.terms(id).input == c * self.terms(id).input + self.terms(
                        id,
                    ).input) by (nonlinear_arith);
                    total_changes(n, before, after, id as int);
                },
                None => {
                    total_changes(n, before, after, -1);
                },
            }
        }
    }
}

/// The place of a node in a ledger is its first.
pub(crate) proof fn place_finds<T>(ledger: Seq<(NodeId, T)>, node: NodeId)
    ensures
        0 <= place(ledger, node) <= ledger.len(),
        holds(ledger, node) ==> ledger[place(ledger, node)].0 == node,
        forall|i: int|
            0 <= i < place(ledger, node) ==> (#[trigger] ledger[i]).0 != node,
    decreases ledger.len(),
{
    if ledger.len() > 0 && ledger[0].0 != node {
        let rest = ledger.drop_first();
        place_finds(rest, node);
        assert forall|i: int| 0 <= i < place(ledger, node) implies (#[trigger] ledger[i]).0
            != node by {
            if i > 0 {
                assert(ledger[i] == rest[i - 1]);
            }
        }
        if holds(ledger, node) {
            assert(ledger[place(ledger, node)] == rest[place(rest, node)]);
        }
    }
}

/// Whether no node stands in a ledger twice.
pub(crate) open(crate) spec fn each_once<T>(ledger: Seq<(NodeId, T)>) -> bool {
    forall|i: int, j: int|
        0 <= i < j < ledger.len() ==> (#[trigger] ledger[i]).0 != (#[trigger] ledger[j]).0
}

impl Case<Fixed> {
    /// What caching by an idle time does with the first requests that share
    /// `node`, as a plan.
    spec fn plan_of(self, ttl: Option<Fixed>, node: NodeId, upto: nat) -> Schedule
        decreases upto,
    {
        if upto == 0 {
            Schedule::Start
        } else {
            let k = (upto - 1) as nat;
            let so_far = self.plan_of(ttl, node, k);
            if self.family(self.trace[k as int]) != Some(node) {
                so_far
            } else if holds(self.static_ready(ttl, k).0, node) {
                match so_far {
                    Schedule::Stay { before, len } => Schedule::Stay { before, len: len + 1 },
                    _ => Schedule::Miss { before: Box::new(so_far) },
                }
            } else {
                Schedule::Stay { before: Box::new(so_far), len: 1 }
            }
        }
    }

    proof fn plan_is_sound(self, ttl: Option<Fixed>, node: NodeId, upto: nat)
        ensures
            self.plan_of(ttl, node, upto).sound(),
            self.plan_of(ttl, node, upto).covers() == self.count(node, upto),
        decreases upto,
    {
        if upto > 0 {
            self.plan_is_sound(ttl, node, (upto - 1) as nat);
        }
    }

    /// What that plan costs, with the suffixes.
    spec fn planned(self, ttl: Option<Fixed>, node: int, upto: nat) -> int {
        let id = node as usize;
        self.suffixes(id, self.count(id, upto)) + self.plan_of(ttl, id, upto).cost(self.terms(id))
    }

    /// What all requests so far cost by the plans.
    spec fn planned_total(self, ttl: Option<Fixed>, upto: nat) -> int {
        self.loose(upto) + total_of(
            self.trie().nodes.len(),
            |node: int| self.planned(ttl, node, upto),
        )
    }

    /// Whether an open stay is the last of its plan.
    spec fn is_current(
        self,
        ttl: Option<Fixed>,
        entry: (NodeId, Stay<Fixed>),
        upto: nat,
    ) -> bool {
        let (id, stay) = entry;
        let idxs = self.all_members(id);
        let n = self.count(id, upto);
        &&& id < self.trie().nodes.len()
        &&& self.tokens(id) <= 9_000_000_000
        &&& self.start().units <= stay.opened.units <= stay.last.units <= self.end().units
        &&& n >= 1
        &&& stay.last == self.trace[idxs[n - 1] as int].time_hours
        &&& match self.plan_of(ttl, id, upto) {
            Schedule::Stay { before, len } => stay.opened
                == self.trace[idxs[before.covers() as int] as int].time_hours,
            _ => false,
        }
    }

    /// What holds of the stays and the report after the first `upto` requests.
    spec fn in_books(
        self,
        ttl: Option<Fixed>,
        live: Seq<(NodeId, Stay<Fixed>)>,
        r: Report<Fixed>,
        upto: nat,
    ) -> bool {
        &&& r.is_sound()
        &&& each_once(live)
        &&& forall|i: int| 0 <= i < live.len() ==> self.is_current(ttl, #[trigger] live[i], upto)
        &&& r.overflowed() || r.spent() + self.owed(live) + upto * self.stay_slack()
            >= self.planned_total(ttl, upto)
    }

    /// Stays that lapse pay what they owe.
    proof fn lapsing_pays(
        self,
        ttl: Option<Fixed>,
        live: Seq<(NodeId, Stay<Fixed>)>,
        n: nat,
        r: Report<Fixed>,
        h: Fixed,
        now: Fixed,
        upto: nat,
        bound: int,
    )
        requires
            self.orderly(bound),
            n <= live.len(),
            h.units >= 0,
            r.is_sound(),
            each_once(live),
            forall|i: int| 0 <= i < live.len() ==> self.is_current(ttl, #[trigger] live[i], upto),
        ensures
            ({
                let (kept, s) = self.expired(live, n, r, h, now);
                &&& each_once(kept)
                &&& forall|i: int|
                    0 <= i < kept.len() ==> live.take(n as int).contains(#[trigger] kept[i])
                &&& s.follows(r, self.owed(live.take(n as int)) - self.owed(kept))
            }),
        decreases n,
    {
        if n > 0 {
            let m = (n - 1) as nat;
            self.lapsing_pays(ttl, live, m, r, h, now, upto, bound);
            let (few, s) = self.expired(live, m, r, h, now);
            let (kept, t) = self.expired(live, n, r, h, now);
            let part = live.take(n as int);
            let less = live.take(m as int);
            assert(part.drop_last() =~= less);
            assert(part.last() == live[n - 1]);
            assert forall|x: (NodeId, Stay<Fixed>)| #[trigger] less.contains(
                x,
            ) implies part.contains(x) && x.0 != live[n - 1].0 by {
                let i = choose|i: int| 0 <= i < less.len() && less[i] == x;
                assert(part[i] == x);
                assert(live[i] == x);
            }
            let (id, stay) = live[n - 1];
            assert(self.is_current(ttl, live[n - 1], upto));
            if h.below(now.diff(stay.last)) {
                self.close_pays(s, live[n - 1], stay.last.sum(h));
            } else {
                self.owed_of_push(few, live[n - 1]);
                assert forall|i: int| 0 <= i < kept.len() implies part.contains(
                    #[trigger] kept[i],
                ) by {
                    if i < few.len() {
                        assert(kept[i] == few[i]);
                    } else {
                        assert(part[n - 1] == kept[i]);
                    }
                }
                assert forall|i: int, j: int| 0 <= i < j < kept.len() implies (
                #[trigger] kept[i]).0 != (#[trigger] kept[j]).0 by {
                    assert(kept[i] == few[i]);
                    assert(less.contains(few[i]));
                    if j < few.len() {
                        assert(kept[j] == few[j]);
                    }
                }
            }
        } else {
            assert(live.take(0) =~= Seq::empty());
        }
    }

    /// Stays that are open at the end pay what they owe.
    proof fn closing_pays(
        self,
        ttl: Option<Fixed>,
        live: Seq<(NodeId, Stay<Fixed>)>,
        n: nat,
        r: Report<Fixed>,
        upto: nat,
        bound: int,
    )
        requires
            self.orderly(bound),
            n <= live.len(),
            ttl is Some ==> ttl->0.units >= 0,
            r.is_sound(),
            forall|i: int| 0 <= i < live.len() ==> self.is_current(ttl, #[trigger] live[i], upto),
        ensures
            self.static_closed(ttl, live, n, r).follows(r, self.owed(live.take(n as int))),
        decreases n,
    {
        if n > 0 {
            let m = (n - 1) as nat;
            self.closing_pays(ttl, live, m, r, upto, bound);
            let s = self.static_closed(ttl, live, m, r);
            assert(live.take(n as int).drop_last() =~= live.take(m as int));
            assert(self.is_current(ttl, live[n - 1], upto));
            self.close_pays(s, live[n - 1], self.static_close(ttl, live[n - 1].1));
        } else {
            assert(live.take(0) =~= Seq::empty());
        }
    }

    /// The books are kept when stays lapse.
    proof fn ready_is_in_books(self, ttl: Option<Fixed>, upto: nat, bound: int)
        requires
            self.orderly(bound),
            upto < self.trace.len(),
            ttl is Some ==> ttl->0.units >= 0,
            ({
                let (live, r) = self.static_run(ttl, upto);
                self.in_books(ttl, live, r, upto)
            }),
        ensures
            ({
                let (live, r) = self.static_ready(ttl, upto);
                self.in_books(ttl, live, r, upto)
            }),
    {
        let (live, r) = self.static_run(ttl, upto);
        if let Some(h) = ttl {
            let now = self.trace[upto as int].time_hours;
            self.lapsing_pays(ttl, live, live.len(), r, h, now, upto, bound);
            assert(live.take(live.len() as int) =~= live);
            let (kept, s) = self.static_ready(ttl, upto);
            assert forall|i: int| 0 <= i < kept.len() implies self.is_current(
                ttl,
                #[trigger] kept[i],
                upto,
            ) by {
                assert(live.contains(kept[i]));
            }
        }
    }
}

impl Case<Fixed> {
    /// What a request adds to a report: what it pays, at the input price or with
    /// `cached` tokens read from a cache.
    proof fn serving_pays(self, r: Report<Fixed>, total: u64, cached: u64)
        requires
            self.prices_in_order(),
            r.is_sound(),
            cached <= total <= 9_000_000_000,
        ensures
            r.served(self.prices, total, cached).follows(
                r,
                self.read_cost(cached) + self.input_cost((total - cached) as u64),
            ),
    {
        priced(cached, self.prices.cached_read_per_mtok);
        priced((total - cached) as u64, self.prices.input_per_mtok);
    }

    proof fn writing_pays(self, r: Report<Fixed>, tokens: u64)
        requires
            self.prices_in_order(),
            r.is_sound(),
            tokens <= 9_000_000_000,
        ensures
            r.written(self.prices, tokens).follows(r, self.input_cost(tokens)),
    {
        priced(tokens, self.prices.input_per_mtok);
    }

    /// What a request adds to the plans.
    proof fn plans_grow(self, ttl: Option<Fixed>, k: nat, bound: int)
        requires
            self.orderly(bound),
            k < self.trace.len(),
        ensures
            match self.family(self.trace[k as int]) {
                Some(id) => self.planned_total(ttl, k + 1) == self.planned_total(ttl, k)
                    + self.planned(ttl, id as int, k + 1) - self.planned(ttl, id as int, k),
                None => self.planned_total(ttl, k + 1) == self.planned_total(ttl, k)
                    + self.input_cost(self.trace[k as int].total_tokens),
            },
    {
        self.nodes_fit(bound);
        let n = self.trie().nodes.len();
        let e = self.trace[k as int];
        let before = |node: int| self.planned(ttl, node, k);
        let after = |node: int| self.planned(ttl, node, k + 1);
        assert forall|node: int|
            0 <= node < n && self.family(e) != Some(node as usize) implies #[trigger] before(node)
            == after(node) by {
            self.count_stands(node as usize, k as int);
        }
        self.family_is_a_node(k as int, bound);
        match self.family(e) {
            Some(id) => total_changes(n, before, after, id as int),
            None => total_changes(n, before, after, -1),
        }
    }

    /// Another prefix's stays go on as they were.
    proof fn others_stay_current(
        self,
        ttl: Option<Fixed>,
        entry: (NodeId, Stay<Fixed>),
        k: nat,
    )
        requires
            k < self.trace.len(),
            self.is_current(ttl, entry, k),
            self.family(self.trace[k as int]) != Some(entry.0),
        ensures
            self.is_current(ttl, entry, k + 1),
    {
        self.count_stands(entry.0, k as int);
    }

    /// A request that finds its prefix in the cache.
    #[verifier::rlimit(60)]
    proof fn hit_is_in_books(self, ttl: Option<Fixed>, k: nat, id: NodeId, bound: int)
        requires
            self.orderly(bound),
            k < self.trace.len(),
            self.family(self.trace[k as int]) == Some(id),
            holds(self.static_ready(ttl, k).0, id),
            self.in_books(ttl, self.static_ready(ttl, k).0, self.static_ready(ttl, k).1, k),
        ensures
            self.in_books(ttl, self.static_run(ttl, k + 1).0, self.static_run(ttl, k + 1).1, k + 1),
    {
        let (live, r) = self.static_ready(ttl, k);
        let (out, s) = self.static_run(ttl, k + 1);
        let e = self.trace[k as int];
        let now = e.time_hours;
        let p = place(live, id);
        place_finds(live, id);
        let was = live[p];
        let stay = Stay { last: now, ..was.1 };
        assert((out, s) == self.static_step(live, r, e));
        assert(out == live.update(p, (id, stay)));
        self.family_is_a_node(k as int, bound);
        self.member_is_next(id, k as int);
        assert(self.is_current(ttl, was, k));
        self.plan_is_sound(ttl, id, k);
        self.serving_pays(r, e.total_tokens, self.tokens(id));
        self.owed_of_update(live, p, (id, stay));
        self.plans_grow(ttl, k, bound);
        let idxs = self.all_members(id);
        let n = self.count(id, k) as int;
        let t = self.terms(id);
        match self.plan_of(ttl, id, k) {
            Schedule::Stay { before, len } => {
                let first = before.covers() as int;
                assert(first + len == n);
                assert(t.read * (len + 1) == t.read * len + t.read) by (nonlinear_arith);
                assert(self.plan_of(ttl, id, k + 1) == Schedule::Stay { before, len: len + 1 });
                assert(t.stored[n] == self.stored_by(id, now));
                assert(t.stored[n - 1] == self.stored_by(id, was.1.last));
                assert(self.plan_of(ttl, id, k + 1).cost(t) == self.plan_of(ttl, id, k).cost(t)
                    + t.read + t.stored[n] - t.stored[n - 1]);
            },
            _ => {},
        }
        assert(self.suffix(e, id) == (e.total_tokens - self.tokens(id)) as u64);
        assert(self.planned(ttl, id as int, k + 1) == self.planned(ttl, id as int, k)
            + self.input_cost(self.suffix(e, id)) + t.read + t.stored[n] - t.stored[n - 1]);
        assert((k + 1) * self.stay_slack() == k * self.stay_slack() + self.stay_slack())
            by (nonlinear_arith);
        self.at_times(k as int, bound);
        self.members_go_on(id, 0, self.trace.len());
        assert(idxs[n - 1] < idxs[n]);
        assert(was.1.last.units <= self.trace[k as int].time_hours.units);
        assert(self.is_current(ttl, (id, stay), k + 1));
        assert forall|i: int| 0 <= i < out.len() implies self.is_current(
            ttl,
            #[trigger] out[i],
            k + 1,
        ) by {
            if i != p {
                assert(out[i] == live[i]);
                assert(live[i].0 != live[p].0);
                self.others_stay_current(ttl, live[i], k);
            }
        }
        assert(each_once(out)) by {
            assert forall|i: int, j: int| 0 <= i < j < out.len() implies (#[trigger] out[i]).0
                != (#[trigger] out[j]).0 by {
                assert(out[i].0 == live[i].0 && out[j].0 == live[j].0);
            }
        }
    }

    /// The times of requests lie between the first and the last.
    pub(crate) proof fn at_times(self, i: int, bound: int)
        requires
            self.orderly(bound),
            0 <= i < self.trace.len(),
        ensures
            self.start().units <= self.trace[i].time_hours.units <= self.end().units,
    {
        assert(self.trace[0].time_hours.units <= self.trace[i].time_hours.units);
        assert(self.trace[i].time_hours.units <= self.trace[self.trace.len()
            - 1].time_hours.units);
    }

    /// A request that writes its prefix.
    #[verifier::rlimit(60)]
    proof fn miss_is_in_books(self, ttl: Option<Fixed>, k: nat, id: NodeId, bound: int)
        requires
            self.orderly(bound),
            k < self.trace.len(),
            self.family(self.trace[k as int]) == Some(id),
            !holds(self.static_ready(ttl, k).0, id),
            self.in_books(ttl, self.static_ready(ttl, k).0, self.static_ready(ttl, k).1, k),
        ensures
            self.in_books(ttl, self.static_run(ttl, k + 1).0, self.static_run(ttl, k + 1).1, k + 1),
    {
        let (live, r) = self.static_ready(ttl, k);
        let (out, s) = self.static_run(ttl, k + 1);
        let e = self.trace[k as int];
        let now = e.time_hours;
        place_finds(live, id);
        let stay = Stay { opened: now, last: now };
        assert((out, s) == self.static_step(live, r, e));
        assert(out == live.push((id, stay)));
        self.family_is_a_node(k as int, bound);
        self.member_is_next(id, k as int);
        self.plan_is_sound(ttl, id, k);
        let w = r.written(self.prices, self.tokens(id));
        self.writing_pays(r, self.tokens(id));
        self.serving_pays(w, e.total_tokens, 0);
        self.owed_of_push(live, (id, stay));
        self.plans_grow(ttl, k, bound);
        let n = self.count(id, k) as int;
        let t = self.terms(id);
        parts_cost_no_more(
            self.tokens(id),
            self.suffix(e, id),
            self.prices.cached_read_per_mtok,
            self.prices.input_per_mtok,
        );
        priced(0, self.prices.cached_read_per_mtok);
        assert(t.read * 1 == t.read);
        assert(self.plan_of(ttl, id, k + 1).cost(t) == self.plan_of(ttl, id, k).cost(t) + t.input
            + t.read);
        assert(self.planned(ttl, id as int, k + 1) == self.planned(ttl, id as int, k)
            + self.input_cost(self.suffix(e, id)) + t.input + t.read);
        assert((k + 1) * self.stay_slack() == k * self.stay_slack() + self.stay_slack())
            by (nonlinear_arith);
        self.at_times(k as int, bound);
        assert(self.is_current(ttl, (id, stay), k + 1));
        assert forall|i: int| 0 <= i < out.len() implies self.is_current(
            ttl,
            #[trigger] out[i],
            k + 1,
        ) by {
            if i < live.len() {
                assert(out[i] == live[i]);
                assert(live[i].0 != id);
                self.others_stay_current(ttl, live[i], k);
            }
        }
        assert(each_once(out)) by {
            assert forall|i: int, j: int| 0 <= i < j < out.len() implies (#[trigger] out[i]).0
                != (#[trigger] out[j]).0 by {
                assert(out[i] == live[i]);
                assert(live[i].0 != id);
                if j < live.len() {
                    assert(out[j] == live[j]);
                }
            }
        }
    }

    /// The books are kept throughout a replay.
    #[verifier::rlimit(60)]
    proof fn run_is_in_books(self, ttl: Option<Fixed>, upto: nat, bound: int)
        requires
            self.orderly(bound),
            upto <= self.trace.len(),
            ttl is Some ==> ttl->0.units >= 0,
        ensures
            self.in_books(ttl, self.static_run(ttl, upto).0, self.static_run(ttl, upto).1, upto),
        decreases upto,
    {
        self.nodes_fit(bound);
        if upto == 0 {
            let n = self.trie().nodes.len();
            let f = |node: int| self.planned(ttl, node, 0);
            total_of_nothing(n, f);
            assert(0 * self.stay_slack() == 0) by (nonlinear_arith);
        } else {
            let k = (upto - 1) as nat;
            self.run_is_in_books(ttl, k, bound);
            self.ready_is_in_books(ttl, k, bound);
            let (live, r) = self.static_ready(ttl, k);
            let e = self.trace[k as int];
            match self.family(e) {
                Some(id) => {
                    if holds(live, id) {
                        self.hit_is_in_books(ttl, k, id, bound);
                    } else {
                        self.miss_is_in_books(ttl, k, id, bound);
                    }
                },
                None => {
                    self.serving_pays(r, e.total_tokens, 0);
                    priced(0, self.prices.cached_read_per_mtok);
                    self.plans_grow(ttl, k, bound);
                    assert((k + 1) * self.stay_slack() == k * self.stay_slack()
                        + self.stay_slack()) by (nonlinear_arith);
                    assert forall|i: int| 0 <= i < live.len() implies self.is_current(
                        ttl,
                        #[trigger] live[i],
                        upto,
                    ) by {
                        self.others_stay_current(ttl, live[i], k);
                    }
                },
            }
        }
    }

    /// Caching by an idle time spends no less than hindsight.
    proof fn static_spends_no_less(self, ttl: Option<Fixed>, bound: int)
        requires
            self.orderly(bound),
            ttl is Some ==> ttl->0.units >= 0,
        ensures
            self.oracle_report().total_cost.units <= self.static_report(ttl).total_cost.units
                + self.trace.len() * self.stay_slack(),
    {
        self.nodes_fit(bound);
        let n = self.trace.len();
        let (live, r) = self.static_run(ttl, n);
        self.run_is_in_books(ttl, n, bound);
        self.closing_pays(ttl, live, live.len(), r, n, bound);
        assert(live.take(live.len() as int) =~= live);
        let f = |node: int| self.planned(ttl, node, n);
        assert forall|node: NodeId| node < self.trie().nodes.len() implies #[trigger] self.terms(
            node,
        ).least(self.all_members(node).len()) + self.suffixes(node, self.all_members(node).len())
            <= f(node as int) by {
            self.plan_is_sound(ttl, node, n);
            self.terms(node).no_schedule_is_cheaper(self.plan_of(ttl, node, n));
        }
        self.loose_is_close(n, bound);
        self.oracle_is_below(self.trie().nodes.len(), self.loose_cost(n), f, bound);
        assert(n * self.stay_slack() >= 0) by (nonlinear_arith)
            requires
                self.stay_slack() >= 0,
        ;
    }
}

/// Hindsight is a benchmark for every fixed rule: over a whole replay, neither no
/// caching, nor caching everything, nor any idle time spends less, but for what
/// rounding may take from the storage of each stay.
pub proof fn hindsight_spends_no_more(c: Case<Fixed>, policy: Policy<Fixed>, bound: int)
    requires
        c.orderly(bound),
        match policy {
            Policy::NoCache | Policy::CacheEverything => true,
            Policy::StaticTtl(ttl) => ttl.units >= 0,
            _ => false,
        },
    ensures
        c.report(Policy::ReferenceOracle).total_cost.units <= c.report(policy).total_cost.units
            + c.trace.len() * c.stay_slack(),
        policy == Policy::<Fixed>::NoCache ==> c.report(
            Policy::ReferenceOracle,
        ).total_cost.units <= c.report(policy).total_cost.units,
{
    c.nodes_fit(bound);
    match policy {
        Policy::CacheEverything => c.static_spends_no_less(None, bound),
        Policy::StaticTtl(ttl) => c.static_spends_no_less(Some(ttl), bound),
        _ => {
            let n = c.trace.len();
            c.uncached_is_missed(n, bound);
            let f = |node: int| c.missed(node, n);
            assert forall|node: NodeId| node < c.trie().nodes.len() implies #[trigger] c.terms(
                node,
            ).least(c.all_members(node).len()) + c.suffixes(node, c.all_members(node).len()) <= f(
                node as int,
            ) by {
                c.terms(node).least_is_below_input(c.all_members(node).len());
            }
            c.loose_is_close(n, bound);
            c.oracle_is_below(c.trie().nodes.len(), c.loose_cost(n), f, bound);
            assert(n * c.stay_slack() >= 0) by (nonlinear_arith)
                requires
                    c.stay_slack() >= 0,
            ;
        },
    }
}

} // verus!
