//! Provider price sheets: the cost model every decision rule is written against.
//!
//! Two pricing regimes exist in the wild:
//!
//! - **Storage-metered** (Gemini explicit caching): a live cache is billed per
//!   token-hour; creation bills the tokens once at the input rate. The core
//!   decision is *when to create / extend / delete*: a ski-rental problem.
//! - **Write-premium** (Anthropic prompt caching): writes cost a TTL-tiered
//!   premium, holding is free (reads refresh the TTL). The core decision is
//!   *where to place at most K breakpoints and which tier to buy*.
use vstd::prelude::*;

use crate::fixed::Fixed;
use crate::number::{ratio, Real};

verus! {

/// One TTL tier of a write-premium provider (e.g. Anthropic 5-minute / 1-hour).
#[derive(Clone, Copy, Debug, PartialEq)]
pub struct TtlTier<R> {
    /// Cache lifetime bought by a write at this tier, in hours.
    pub ttl_hours: R,
    /// Write price as a multiple of the base input price (e.g. 1.25, 2.0).
    pub write_multiplier: R,
}

/// Which optimization problem a price sheet induces.
#[derive(Clone, Copy, Debug, PartialEq, Eq, Structural)]
pub enum Regime {
    /// Per-token-hour storage billing (Gemini-style): ski-rental lifecycle.
    StorageMetered,
    /// TTL-tiered write premiums (Anthropic-style): breakpoint placement + tier choice.
    WritePremium,
    /// No developer-controlled cache (OpenAI-style): only request shaping applies.
    ShapeOnly,
}

/// A provider's cache-relevant prices and constraints.
#[derive(Debug)]
pub struct PriceSheet<R> {
    /// Base input token price, $/MTok.
    pub input_per_mtok: R,
    /// Cached-token read price, $/MTok.
    pub cached_read_per_mtok: R,
    /// Storage price, $/MTok/hour. `Some` selects the storage-metered regime.
    pub storage_per_mtok_hour: Option<R>,
    /// Available write tiers. Non-empty (with no storage price) selects the
    /// write-premium regime.
    pub write_tiers: Vec<TtlTier<R>>,
    /// Minimum cacheable prefix size in tokens; smaller prefixes silently
    /// don't cache on real providers.
    pub min_cacheable_tokens: u64,
    /// Maximum simultaneous cache points per request; Anthropic: 4, Gemini: 1
    /// (one `CachedContent` reference per request).
    pub max_breakpoints: usize,
}

/// What a price sheet says.
#[verifier::ext_equal]
pub struct Prices<R> {
    pub input_per_mtok: R,
    pub cached_read_per_mtok: R,
    pub storage_per_mtok_hour: Option<R>,
    pub write_tiers: Seq<TtlTier<R>>,
    pub min_cacheable_tokens: u64,
    pub max_breakpoints: usize,
}

impl<R: Real> Prices<R> {
    pub open spec fn regime(self) -> Regime {
        if self.storage_per_mtok_hour is Some {
            Regime::StorageMetered
        } else if self.write_tiers.len() > 0 {
            Regime::WritePremium
        } else {
            Regime::ShapeOnly
        }
    }

    /// The hold time after the last hit: input price over storage price.
    pub open spec fn tau_hold(self) -> Option<R> {
        match self.storage_per_mtok_hour {
            Some(s) => Some(self.input_per_mtok.quot(s)),
            None => None,
        }
    }

    /// The longest hold worth paying for: twice the input price less the read
    /// price, over the storage price.
    pub open spec fn tau_effective(self) -> Option<R> {
        match self.storage_per_mtok_hour {
            Some(s) => Some(
                R::int_of(2).prod(self.input_per_mtok).diff(self.cached_read_per_mtok).quot(s),
            ),
            None => None,
        }
    }

    /// The storage price, zero where there is none.
    pub open spec fn storage(self) -> R {
        match self.storage_per_mtok_hour {
            Some(s) => s,
            None => R::int_of(0),
        }
    }
}

impl<R: Real> PriceSheet<R> {
    pub open spec fn view(&self) -> Prices<R> {
        Prices {
            input_per_mtok: self.input_per_mtok,
            cached_read_per_mtok: self.cached_read_per_mtok,
            storage_per_mtok_hour: self.storage_per_mtok_hour,
            write_tiers: self.write_tiers@,
            min_cacheable_tokens: self.min_cacheable_tokens,
            max_breakpoints: self.max_breakpoints,
        }
    }

    /// Which regime this sheet induces.
    pub fn regime(&self) -> (r: Regime)
        ensures
            r == self@.regime(),
    {
        if self.storage_per_mtok_hour.is_some() {
            Regime::StorageMetered
        } else if self.write_tiers.len() > 0 {
            Regime::WritePremium
        } else {
            Regime::ShapeOnly
        }
    }

    /// The ski-rental hold time after the last hit, in hours (storage regime).
    ///
    /// `tau = p_in / p_store`, independent of cache size, with the classical
    /// 2-competitive worst-case guarantee ([`tau_hold_is_two_competitive`]).
    /// This is the default and the floor of the hold: ticks end an idle cache by
    /// then, within one interval between them
    /// ([`ticks_keep_the_hold_rule`](crate::engine::model::EngineModel::ticks_keep_the_hold_rule)).
    pub fn tau_hold_hours(&self) -> (r: Option<R>)
        ensures
            r == self@.tau_hold(),
    {
        match self.storage_per_mtok_hour {
            Some(s) => Some(self.input_per_mtok.over(s)),
            None => None,
        }
    }

    /// The upper bound on adaptive holding, in hours (storage regime).
    ///
    /// Losing a warm cache costs recreation (`p_in`) **and** a miss on the
    /// request that finds it cold (`p_in - p_read` extra), so the true
    /// ski-rental *buy* cost is `2 p_in - p_read` and holding can be worth it
    /// up to `tau = (2 p_in - p_read) / p_store`. The controller only holds
    /// this long for a node whose traffic has *demonstrated* it recurs after a
    /// lull (see the learned per-node hold in the engine); the common case
    /// stays at [`Self::tau_hold_hours`]. Still cache-size-independent.
    pub fn tau_effective_hours(&self) -> (r: Option<R>)
        ensures
            r == self@.tau_effective(),
    {
        match self.storage_per_mtok_hour {
            Some(s) => Some(
                R::from_int(2).times(self.input_per_mtok).minus(self.cached_read_per_mtok).over(s),
            ),
            None => None,
        }
    }

    /// Gemini-Pro-like storage-metered sheet ($2.00 in / $0.20 cached read per
    /// MTok, $4.50/MTok/h storage). Figures from secondary sources as of
    /// 2026-07-13; re-verify before production use.
    pub fn gemini_pro_like() -> (r: Self)
        ensures
            r@ == gemini_prices::<R>(),
    {
        let sheet = PriceSheet {
            input_per_mtok: ratio(2, 1),
            cached_read_per_mtok: ratio(20, 100),
            storage_per_mtok_hour: Some(ratio(450, 100)),
            write_tiers: Vec::new(),
            min_cacheable_tokens: 4096,
            max_breakpoints: 1,
        };
        assert(sheet@.write_tiers =~= gemini_prices::<R>().write_tiers);
        sheet
    }

    /// Anthropic-Sonnet-4.6-like write-premium sheet ($3.00 in / $0.30 cached
    /// read per MTok; 1.25x write for 5-minute TTL, 2x for 1-hour; 4 breakpoints;
    /// 2048-token minimum). Verified against Anthropic docs 2026-07-13.
    pub fn anthropic_sonnet_like() -> (r: Self)
        ensures
            r@ == anthropic_prices::<R>(),
    {
        let mut tiers: Vec<TtlTier<R>> = Vec::new();
        tiers.push(TtlTier { ttl_hours: ratio(5, 60), write_multiplier: ratio(125, 100) });
        tiers.push(TtlTier { ttl_hours: ratio(1, 1), write_multiplier: ratio(2, 1) });
        let sheet = PriceSheet {
            input_per_mtok: ratio(3, 1),
            cached_read_per_mtok: ratio(30, 100),
            storage_per_mtok_hour: None,
            write_tiers: tiers,
            min_cacheable_tokens: 2048,
            max_breakpoints: 4,
        };
        assert(sheet@.write_tiers =~= anthropic_prices::<R>().write_tiers);
        sheet
    }
}

impl<R: Real> Clone for PriceSheet<R> {
    fn clone(&self) -> (r: Self)
        ensures
            r@ == self@,
    {
        let mut tiers: Vec<TtlTier<R>> = Vec::new();
        let mut i: usize = 0;
        while i < self.write_tiers.len()
            invariant
                i <= self.write_tiers@.len(),
                tiers@ == self.write_tiers@.take(i as int),
            decreases self.write_tiers@.len() - i,
        {
            tiers.push(self.write_tiers[i]);
            i = i + 1;
            assert(tiers@ =~= self.write_tiers@.take(i as int));
        }
        assert(tiers@ =~= self.write_tiers@);
        PriceSheet {
            input_per_mtok: self.input_per_mtok,
            cached_read_per_mtok: self.cached_read_per_mtok,
            storage_per_mtok_hour: self.storage_per_mtok_hour,
            write_tiers: tiers,
            min_cacheable_tokens: self.min_cacheable_tokens,
            max_breakpoints: self.max_breakpoints,
        }
    }
}

/// $2.00 in, $0.20 read, $4.50 an hour of storage.
pub open spec fn gemini_prices<R: Real>() -> Prices<R> {
    Prices {
        input_per_mtok: crate::number::frac(2, 1),
        cached_read_per_mtok: crate::number::frac(20, 100),
        storage_per_mtok_hour: Some(crate::number::frac(450, 100)),
        write_tiers: Seq::empty(),
        min_cacheable_tokens: 4096,
        max_breakpoints: 1,
    }
}

/// $3.00 in, $0.30 read, writes at 1.25 times for five minutes and twice for an
/// hour.
pub open spec fn anthropic_prices<R: Real>() -> Prices<R> {
    Prices {
        input_per_mtok: crate::number::frac(3, 1),
        cached_read_per_mtok: crate::number::frac(30, 100),
        storage_per_mtok_hour: None,
        write_tiers: seq![
            TtlTier {
                ttl_hours: crate::number::frac(5, 60),
                write_multiplier: crate::number::frac(125, 100),
            },
            TtlTier {
                ttl_hours: crate::number::frac(1, 1),
                write_multiplier: crate::number::frac(2, 1),
            },
        ],
        min_cacheable_tokens: 2048,
        max_breakpoints: 4,
    }
}

/// What an idle gap costs under the hold rule: storage up to the hold time, and
/// a recreation where the gap outlasts it.
pub open spec fn hold_rule_cost(gap: nat, hold: nat, rent: nat, buy: nat) -> nat {
    if gap <= hold {
        gap * rent
    } else {
        hold * rent + buy
    }
}

/// What the gap costs with hindsight: storage throughout, or a recreation,
/// whichever is cheaper.
pub open spec fn hindsight_cost(gap: nat, rent: nat, buy: nat) -> nat {
    if gap * rent <= buy {
        gap * rent
    } else {
        buy
    }
}

/// Holding for as long as the storage paid stays within the price of recreation
/// costs at most twice what hindsight would have paid, whatever the gap turns
/// out to be.
pub proof fn hold_rule_is_two_competitive(gap: nat, hold: nat, rent: nat, buy: nat)
    requires
        hold * rent <= buy < (hold + 1) * rent,
    ensures
        hold_rule_cost(gap, hold, rent, buy) <= 2 * hindsight_cost(gap, rent, buy),
{
    if gap <= hold {
        assert(gap * rent <= hold * rent) by (nonlinear_arith)
            requires
                gap <= hold,
        ;
    } else {
        assert(gap * rent >= (hold + 1) * rent) by (nonlinear_arith)
            requires
                gap >= hold + 1,
        ;
    }
}

/// The hold time of a price sheet, in the steps of the clock, is how long the
/// storage of a token stays within the price of sending it again.
proof fn tau_hold_breaks_even(p: Prices<Fixed>)
    requires
        p.storage_per_mtok_hour is Some,
        p.storage_per_mtok_hour->0.units > 0,
        p.input_per_mtok.units >= 0,
        p.tau_hold()->0.units < i64::MAX,
    ensures
        p.tau_hold()->0.units >= 0,
        ({
            let hold = p.tau_hold()->0.units as int;
            let rent = p.storage_per_mtok_hour->0.units as int;
            let buy = p.input_per_mtok.units * 1_000_000_000;
            hold * rent <= buy < (hold + 1) * rent
        }),
{
    let rent = p.storage_per_mtok_hour->0.units as int;
    let buy = p.input_per_mtok.units * 1_000_000_000;
    let hold = buy / rent;
    vstd::arithmetic::div_mod::lemma_fundamental_div_mod(buy, rent);
    vstd::arithmetic::div_mod::lemma_mod_bound(buy, rent);
    vstd::arithmetic::div_mod::lemma_div_pos_is_pos(buy, rent);
    assert(rent * hold == hold * rent) by (nonlinear_arith);
    assert((hold + 1) * rent == hold * rent + rent) by (nonlinear_arith);
}

/// The hold rule of a price sheet is 2-competitive: an idle gap, in the steps of
/// the clock, costs under it at most twice what hindsight would have paid,
/// storage throughout or one recreation at the input price.
pub proof fn tau_hold_is_two_competitive(p: Prices<Fixed>, gap: int)
    requires
        p.storage_per_mtok_hour is Some,
        p.storage_per_mtok_hour->0.units > 0,
        p.input_per_mtok.units >= 0,
        p.tau_hold()->0.units < i64::MAX,
        gap >= 0,
    ensures
        ({
            let tau = p.tau_hold()->0.units as int;
            let rent = p.storage_per_mtok_hour->0.units as int;
            let buy = p.input_per_mtok.units * 1_000_000_000;
            (if gap <= tau {
                gap * rent
            } else {
                tau * rent + buy
            }) <= 2 * (if gap * rent <= buy {
                gap * rent
            } else {
                buy
            })
        }),
{
    tau_hold_breaks_even(p);
    hold_rule_is_two_competitive(
        gap as nat,
        p.tau_hold()->0.units as nat,
        p.storage_per_mtok_hour->0.units as nat,
        (p.input_per_mtok.units * 1_000_000_000) as nat,
    );
}

/// What a whole series of idle gaps costs under the hold rule.
pub open spec fn hold_rule_total(gaps: Seq<nat>, hold: nat, rent: nat, buy: nat) -> nat
    decreases gaps.len(),
{
    if gaps.len() == 0 {
        0
    } else {
        hold_rule_total(gaps.drop_last(), hold, rent, buy) + hold_rule_cost(
            gaps.last(),
            hold,
            rent,
            buy,
        )
    }
}

/// What a whole series of idle gaps costs with hindsight.
pub open spec fn hindsight_total(gaps: Seq<nat>, rent: nat, buy: nat) -> nat
    decreases gaps.len(),
{
    if gaps.len() == 0 {
        0
    } else {
        hindsight_total(gaps.drop_last(), rent, buy) + hindsight_cost(gaps.last(), rent, buy)
    }
}

/// Over any series of gaps, however adversarial, the hold rule of a price sheet
/// costs at most twice what hindsight would have paid.
pub proof fn tau_hold_is_two_competitive_throughout(p: Prices<Fixed>, gaps: Seq<nat>)
    requires
        p.storage_per_mtok_hour is Some,
        p.storage_per_mtok_hour->0.units > 0,
        p.input_per_mtok.units >= 0,
        p.tau_hold()->0.units < i64::MAX,
    ensures
        ({
            let tau = p.tau_hold()->0.units as nat;
            let rent = p.storage_per_mtok_hour->0.units as nat;
            let buy = (p.input_per_mtok.units * 1_000_000_000) as nat;
            hold_rule_total(gaps, tau, rent, buy) <= 2 * hindsight_total(gaps, rent, buy)
        }),
    decreases gaps.len(),
{
    if gaps.len() > 0 {
        tau_hold_is_two_competitive_throughout(p, gaps.drop_last());
        tau_hold_breaks_even(p);
        hold_rule_is_two_competitive(
            gaps.last(),
            p.tau_hold()->0.units as nat,
            p.storage_per_mtok_hour->0.units as nat,
            (p.input_per_mtok.units * 1_000_000_000) as nat,
        );
    }
}

/// Where reads are no dearer than input and storage has a price, the longest
/// hold is no shorter than the default one.
pub proof fn effective_hold_is_no_shorter(p: Prices<Fixed>)
    requires
        p.storage_per_mtok_hour is Some,
        p.storage_per_mtok_hour->0.units > 0,
        p.cached_read_per_mtok.units <= p.input_per_mtok.units,
        0 <= 2 * p.input_per_mtok.units <= i64::MAX,
    ensures
        p.tau_hold()->0.units <= p.tau_effective()->0.units,
{
    let s = p.storage_per_mtok_hour->0.units as int;
    let a = p.input_per_mtok.units as int;
    let b = Fixed::int_of(2).prod(p.input_per_mtok).diff(p.cached_read_per_mtok).units as int;
    let two = Fixed::int_of(2);
    assert(two.units == 2_000_000_000);
    assert(two.units * p.input_per_mtok.units == 1_000_000_000 * (2 * a)) by (nonlinear_arith)
        requires
            two.units == 2_000_000_000,
            p.input_per_mtok.units == a,
    ;
    assert((1_000_000_000 * (2 * a)) / 1_000_000_000 == 2 * a);
    assert(two.prod(p.input_per_mtok).units == 2 * a);
    assert(a <= b);
    assert(a * 1_000_000_000 <= b * 1_000_000_000);
    vstd::arithmetic::div_mod::lemma_div_is_ordered(a * 1_000_000_000, b * 1_000_000_000, s);
}

/// The longest hold, in the steps of the clock, is how long the storage of a token
/// stays within what losing its cache costs: to send it once more, and for the
/// request that finds it gone to pay the input price and not the read price.
pub proof fn effective_hold_breaks_even(p: Prices<Fixed>)
    requires
        p.storage_per_mtok_hour is Some,
        p.storage_per_mtok_hour->0.units > 0,
        0 <= p.cached_read_per_mtok.units <= p.input_per_mtok.units,
        2 * p.input_per_mtok.units <= i64::MAX,
        p.tau_effective()->0.units < i64::MAX,
    ensures
        ({
            let hold = p.tau_effective()->0.units as int;
            let rent = p.storage_per_mtok_hour->0.units as int;
            let a = p.input_per_mtok.units as int;
            let lost = (a + (a - p.cached_read_per_mtok.units)) * 1_000_000_000;
            &&& 0 <= hold
            &&& hold * rent <= lost < (hold + 1) * rent
        }),
{
    let rent = p.storage_per_mtok_hour->0.units as int;
    let a = p.input_per_mtok.units as int;
    let two = Fixed::int_of(2);
    assert(two.units == 2_000_000_000);
    assert(two.units * p.input_per_mtok.units == 1_000_000_000 * (2 * a)) by (nonlinear_arith)
        requires
            two.units == 2_000_000_000,
            p.input_per_mtok.units == a,
    ;
    assert((1_000_000_000 * (2 * a)) / 1_000_000_000 == 2 * a);
    assert(two.prod(p.input_per_mtok).units == 2 * a);
    let b = 2 * a - p.cached_read_per_mtok.units;
    let lost = b * 1_000_000_000;
    let hold = lost / rent;
    vstd::arithmetic::div_mod::lemma_fundamental_div_mod(lost, rent);
    vstd::arithmetic::div_mod::lemma_mod_bound(lost, rent);
    vstd::arithmetic::div_mod::lemma_div_pos_is_pos(lost, rent);
    assert(rent * hold == hold * rent) by (nonlinear_arith);
    assert((hold + 1) * rent == hold * rent + rent) by (nonlinear_arith);
}

} // verus!
