//! The traffic model, the plans and the lifecycle controller on
//! double-precision numbers.
use llm_cache::adapter::anthropic::{breakpoints_for, TtlLabel};
use llm_cache::adapter::gemini::{GeminiAdapter, GeminiCall};
use llm_cache::number::Real;
use llm_cache::plan::{cost_rate, plan_breakpoints};
use llm_cache::router::{cheapest_route, RouteCandidate};
use llm_cache::shape::stable_boundary;
use llm_cache::trie::NodeStats;
use llm_cache::{Action, CacheState, Config, Engine, NodeId, PrefixTrie, PriceSheet, Regime};

/// Double-precision numbers.
#[derive(Clone, Copy, Debug, PartialEq)]
struct F(f64);

impl Real for F {
    fn from_int(n: u64) -> F {
        F(n as f64)
    }
    fn infinity() -> F {
        F(f64::INFINITY)
    }
    fn neg_infinity() -> F {
        F(f64::NEG_INFINITY)
    }
    fn plus(self, o: F) -> F {
        F(self.0 + o.0)
    }
    fn minus(self, o: F) -> F {
        F(self.0 - o.0)
    }
    fn times(self, o: F) -> F {
        F(self.0 * o.0)
    }
    fn over(self, o: F) -> F {
        F(self.0 / o.0)
    }
    fn modulo(self, o: F) -> F {
        F(self.0 % o.0)
    }
    fn neg(self) -> F {
        F(-self.0)
    }
    fn max_with(self, o: F) -> F {
        F(self.0.max(o.0))
    }
    fn min_with(self, o: F) -> F {
        F(self.0.min(o.0))
    }
    fn exp(self) -> F {
        F(self.0.exp())
    }
    fn ln(self) -> F {
        F(self.0.ln())
    }
    fn is_lt(self, o: F) -> bool {
        self.0 < o.0
    }
    fn is_le(self, o: F) -> bool {
        self.0 <= o.0
    }
    fn is_same(self, o: F) -> bool {
        self.0 == o.0
    }
    fn ranks_before(self, o: F) -> bool {
        self.0.total_cmp(&o.0).is_lt()
    }
    fn ceil_u64(self) -> u64 {
        self.0.ceil() as u64
    }
    fn write(self, out: &mut String) {
        out.push_str(&format!("{}", self.0));
    }
    fn read(text: &str) -> Result<F, String> {
        text.parse::<f64>().map(F).map_err(|e| format!("{e}"))
    }
    fn below_ranks_before(_a: F, _b: F) {}
    fn text_reads_back(_a: F) {}
    fn text_is_word(_a: F) {}
}

fn gemini() -> PriceSheet<F> {
    PriceSheet::gemini_pro_like()
}

fn anthropic() -> PriceSheet<F> {
    PriceSheet::anthropic_sonnet_like()
}

// Prices.

#[test]
fn tau_hold_is_price_ratio() {
    let p = gemini();
    let tau = p.tau_hold_hours().unwrap().0;
    assert!((tau - 2.0 / 4.5).abs() < 1e-12);
    // ~26.7 minutes at reported Gemini Pro prices.
    assert!((tau * 60.0 - 26.666).abs() < 0.1);
}

#[test]
fn tau_effective_includes_miss_and_exceeds_tau_hold() {
    let p = gemini();
    let eff = p.tau_effective_hours().unwrap().0;
    // (2*2.00 - 0.20)/4.50 hours, about 50.7 minutes.
    assert!((eff - (2.0 * 2.0 - 0.2) / 4.5).abs() < 1e-12);
    assert!((eff * 60.0 - 50.666).abs() < 0.1);
    assert!(eff > p.tau_hold_hours().unwrap().0);
}

#[test]
fn regimes() {
    assert_eq!(gemini().regime(), Regime::StorageMetered);
    assert_eq!(anthropic().regime(), Regime::WritePremium);
}

#[test]
fn price_sheets_hold_the_listed_prices() {
    let g = gemini();
    assert_eq!(g.input_per_mtok, F(2.00));
    assert_eq!(g.cached_read_per_mtok, F(0.20));
    assert_eq!(g.storage_per_mtok_hour, Some(F(4.50)));
    assert!(g.write_tiers.is_empty());
    assert_eq!((g.min_cacheable_tokens, g.max_breakpoints), (4096, 1));
    let a = anthropic();
    assert_eq!(a.input_per_mtok, F(3.00));
    assert_eq!(a.cached_read_per_mtok, F(0.30));
    assert_eq!(a.storage_per_mtok_hour, None);
    assert_eq!(a.write_tiers.len(), 2);
    assert_eq!(a.write_tiers[0].ttl_hours, F(5.0 / 60.0));
    assert_eq!(a.write_tiers[0].write_multiplier, F(1.25));
    assert_eq!(a.write_tiers[1].ttl_hours, F(1.0));
    assert_eq!(a.write_tiers[1].write_multiplier, F(2.0));
    assert_eq!((a.min_cacheable_tokens, a.max_breakpoints), (2048, 4));
    assert_eq!(a.tau_hold_hours(), None);
    assert_eq!(a.tau_effective_hours(), None);
    let bare = PriceSheet { write_tiers: Vec::new(), ..anthropic() };
    assert_eq!(bare.regime(), Regime::ShapeOnly);
}

// The trie.

#[test]
fn ewma_rate_converges_toward_inverse_gap() {
    // Requests every 5 minutes with tau = 1h: lambda_1 = 1, lambda_2 = e^{-1/12} + 1 ...
    let mut s = NodeStats::new();
    let gap: f64 = 5.0 / 60.0;
    s.observe(F(0.0), F(1.0));
    assert!((s.lambda.0 - 1.0).abs() < 1e-12);
    s.observe(F(gap), F(1.0));
    assert!((s.lambda.0 - (1.0f64 * (-gap).exp() + 1.0)).abs() < 1e-9);
    for i in 2..200 {
        s.observe(F(i as f64 * gap), F(1.0));
    }
    // Steady state (1/tau)/(1 - e^{-g/tau}) ~= 12.5 for g = 1/12.
    let steady = 1.0 / (1.0 - (-gap).exp());
    assert!((s.lambda.0 - steady).abs() / steady < 0.01);
}

#[test]
fn gap_histogram_buckets_and_fractions() {
    let mut s = NodeStats::new();
    s.observe(F(0.0), F(1000.0)); // huge tau: negligible decay for this test
    s.observe(F(0.02), F(1000.0)); // ~1.2 min gap -> bucket 0
    s.observe(F(0.52), F(1000.0)); // 30 min gap  -> bucket 1
    s.observe(F(2.52), F(1000.0)); // 2 h gap     -> bucket 2
    assert!(s.gap_fraction_gt(F(5.0 / 60.0)).0 > 0.6); // 2 of 3 gaps above 5 min
    assert!(s.gap_fraction_gt(F(1.0)).0 > 0.3 && s.gap_fraction_gt(F(1.0)).0 < 0.4);
}

#[test]
fn statistics_of_an_unseen_prefix_are_zero() {
    let s: NodeStats<F> = NodeStats::new();
    assert_eq!(s.decayed_lambda(F(3.0), F(1.0)), F(0.0));
    assert_eq!(s.gap_fraction_gt(F(0.5)), F(0.0));
}

#[test]
fn rate_decays_between_requests_and_not_back_in_time() {
    let mut s = NodeStats::new();
    s.observe(F(2.0), F(1.0));
    assert_eq!(s.decayed_lambda(F(3.0), F(1.0)), F((-1.0f64).exp()));
    assert_eq!(s.decayed_lambda(F(1.0), F(1.0)), F(1.0));
    assert_eq!(s.raw_count, 1);
}

#[test]
fn paths_share_prefix_nodes() {
    let mut t = PrefixTrie::new(256, F(1.0), 1000);
    let a = t.observe_path(&[1, 2, 3], F(0.0));
    let b = t.observe_path(&[1, 2, 9], F(0.1));
    assert_eq!(a[0], b[0]);
    assert_eq!(a[1], b[1]);
    assert_ne!(a[2], b[2]);
    assert_eq!(t.tokens(a[1]), 512);
    // Shared node saw both traversals.
    assert!(t.node(a[1]).stats.samples.0 > t.node(a[2]).stats.samples.0);
}

#[test]
fn gc_unwinds_cold_chains_but_keeps_hot_and_cached() {
    let mut t = PrefixTrie::new(256, F(1.0), 1000);
    let cold = t.observe_path(&[7, 8, 9], F(0.0));
    let hot = t.observe_path(&[1, 2], F(100.0));
    t.node_mut(hot[1]).state = CacheState::Cached {
        expires_at_hours: F(200.0),
        ttl_hours: F(1.0),
    };
    let removed = t.gc(F(100.0), F(0.5), F(24.0));
    assert_eq!(removed, cold.len());
    assert_eq!(t.len(), 1 + 2); // root + hot chain
}

#[test]
fn node_budget_truncates_paths() {
    let mut t = PrefixTrie::new(256, F(1.0), 3); // root + 2 nodes
    let p = t.observe_path(&[1, 2, 3, 4], F(0.0));
    assert_eq!(p.len(), 2);
}

#[test]
fn lookups_find_what_was_observed_and_record_nothing() {
    let mut t = PrefixTrie::new(256, F(1.0), 1000);
    assert!(t.is_empty());
    assert_eq!(t.peek_path(&[1, 2]), Vec::<NodeId>::new());
    let p = t.observe_path(&[1, 2, 3], F(0.0));
    assert_eq!(t.peek_path(&[1, 2, 3, 4]), p);
    assert_eq!(t.peek_path(&[1, 2, 9]), p[..2].to_vec());
    assert_eq!(t.node(p[0]).stats.raw_count, 1);
    assert!(!t.is_empty());
}

#[test]
fn counts_never_grow_downward() {
    let mut t = PrefixTrie::new(256, F(1.0), 1000);
    t.observe_path(&[1, 2], F(0.0));
    let p = t.observe_path(&[1, 2, 3], F(0.5));
    t.observe_path(&[1], F(0.7));
    let counts: Vec<u64> = p.iter().map(|&id| t.node(id).stats.raw_count).collect();
    assert_eq!(counts, vec![3, 2, 1]);
}

#[test]
fn rates_never_grow_downward() {
    let mut t = PrefixTrie::new(256, F(1.0), 1000);
    let p = t.observe_path(&[1, 2, 3], F(0.0));
    t.observe_path(&[1, 2], F(0.3));
    t.observe_path(&[1], F(0.4));
    t.observe_path(&[1, 2, 3], F(1.1));
    let rate = |id: NodeId| t.node(id).stats.decayed_lambda(F(1.5), F(1.0)).0;
    assert!(rate(p[0]) > rate(p[1]) && rate(p[1]) > rate(p[2]));
}

#[test]
fn children_are_listed_by_edge() {
    let mut t = PrefixTrie::new(256, F(1.0), 1000);
    let c = t.observe_path(&[30], F(0.0))[0];
    let a = t.observe_path(&[10], F(0.0))[0];
    let b = t.observe_path(&[20], F(0.0))[0];
    assert_eq!(t.children_sorted(PrefixTrie::<F>::ROOT), vec![a, b, c]);
    assert_eq!(t.children_sorted(a), Vec::<NodeId>::new());
}

#[test]
fn collected_slots_are_reused_and_survivors_keep_their_edges() {
    let mut t = PrefixTrie::new(256, F(1.0), 1000);
    let cold = t.observe_path(&[7, 8], F(0.0));
    t.observe_path(&[1], F(100.0));
    assert_eq!(t.gc(F(100.0), F(0.5), F(24.0)), 2);
    assert_eq!(t.gc(F(100.0), F(0.5), F(24.0)), 0);
    assert_eq!(t.peek_path(&[7]), Vec::<NodeId>::new());
    // The chain unwound from its leaf, so the parent's slot is taken first.
    assert_eq!(t.observe_path(&[5], F(100.0)), vec![cold[0]]);
    assert_eq!(t.len(), 3);
    assert_eq!(t.peek_path(&[1]).len(), 1);
}

// Plans.

/// A trie with a shared 8-block prefix A, a hot 16-block branch A+B, and a cold
/// branch A+C.
fn hot_cold_trie() -> (PrefixTrie<F>, Vec<NodeId>, Vec<NodeId>, F) {
    let mut t = PrefixTrie::new(256, F(1.0), 100_000);
    let a: Vec<u64> = (0..8).collect();
    let ab: Vec<u64> = a.iter().copied().chain(100..108).collect();
    let ac: Vec<u64> = a.iter().copied().chain(200..208).collect();
    let mut ab_path = Vec::new();
    for i in 0..30 {
        ab_path = t.observe_path(&ab, F(i as f64 * (2.0 / 60.0)));
    }
    t.observe_path(&ac, F(0.5));
    let ac_path = t.observe_path(&ac, F(0.9));
    (t, ab_path, ac_path, F(1.0))
}

#[test]
fn dp_places_deepest_hot_node_and_picks_cheap_tier() {
    let (t, ab_path, _, now) = hot_cold_trie();
    let prices = anthropic();
    let picks = plan_breakpoints(&t, &prices, now, F(1.2), F(0.8));
    assert!(!picks.is_empty() && picks.len() <= prices.max_breakpoints);
    let deep = *ab_path.last().unwrap();
    let deep_pick = picks
        .iter()
        .find(|p| p.node == deep)
        .expect("deepest hot node must be placed");
    assert_eq!(deep_pick.tokens, 16 * 256);
    // All observed gaps are 2 minutes < 5 min, so no cold rewrites are
    // expected on the 5-minute tier: it must win over the 1-hour tier.
    assert_eq!(deep_pick.ttl_hours, Some(F(5.0 / 60.0)));
    assert!(deep_pick.net_per_hour.0 > 0.0);
}

#[test]
fn exclusive_coverage_prevents_double_counting_along_a_chain() {
    let (t, ab_path, ac_path, now) = hot_cold_trie();
    let prices = anthropic();
    let picks = plan_breakpoints(&t, &prices, now, F(1.2), F(0.8));
    // Legitimate placements are branch endpoints (deep AB, deep AC) and the
    // fork point (end of A). Intermediate chain nodes carry the same
    // traffic as their deeper endpoint (zero exclusive rate) and must
    // never be selected.
    let legit = [
        *ab_path.last().unwrap(),
        *ac_path.last().unwrap(),
        ab_path[7],
    ];
    for p in &picks {
        assert!(
            legit.contains(&p.node),
            "unexpected placement at node {} ({} tokens)",
            p.node,
            p.tokens
        );
    }
}

#[test]
fn tier_choice_flips_on_gap_histogram() {
    // A node whose gaps all fall between 5 minutes and 1 hour: the 5-minute
    // tier pays a rewrite premium on ~every arrival, the 1-hour tier never
    // does, so the 1-hour tier must be chosen.
    let mut t = PrefixTrie::new(256, F(1000.0), 1000);
    let blocks: Vec<u64> = (0..8).collect();
    let mut path = Vec::new();
    for i in 0..20 {
        path = t.observe_path(&blocks, F(i as f64 * 0.5)); // 30-minute gaps
    }
    let prices = anthropic();
    let node = *path.last().unwrap();
    let (cost, ttl) = cost_rate(
        &prices,
        t.tokens(node),
        &t.node(node).stats,
        F(10.0),
        t.tau_decay,
    );
    assert_eq!(ttl, Some(F(1.0)));
    assert!(cost.0 < 1e-9); // no gaps above 1 hour -> no expected rewrites
}

#[test]
fn storage_regime_respects_single_breakpoint_budget() {
    let (t, _, _, now) = hot_cold_trie();
    let prices = gemini(); // K_max = 1
    let picks = plan_breakpoints(&t, &prices, now, F(1.2), F(0.8));
    assert!(picks.len() <= 1);
}

#[test]
fn no_budget_or_no_regime_means_no_plan() {
    let (t, _, _, now) = hot_cold_trie();
    let none = PriceSheet { max_breakpoints: 0, ..anthropic() };
    assert!(plan_breakpoints(&t, &none, now, F(1.2), F(0.8)).is_empty());
    let bare = PriceSheet { write_tiers: Vec::new(), ..anthropic() };
    assert!(plan_breakpoints(&t, &bare, now, F(1.2), F(0.8)).is_empty());
}

#[test]
fn plans_place_each_node_once_and_only_long_prefixes() {
    let (t, _, _, now) = hot_cold_trie();
    let prices = anthropic();
    let picks = plan_breakpoints(&t, &prices, now, F(1.2), F(0.8));
    let mut nodes: Vec<NodeId> = picks.iter().map(|p| p.node).collect();
    nodes.sort();
    nodes.dedup();
    assert_eq!(nodes.len(), picks.len());
    for p in &picks {
        assert_eq!(p.tokens, t.tokens(p.node));
        assert!(p.tokens >= prices.min_cacheable_tokens);
        assert!(p.net_per_hour.0 > 0.0);
    }
}

#[test]
fn storage_cost_is_the_meter() {
    let (t, ab_path, _, now) = hot_cold_trie();
    let id = ab_path[15];
    let (c, ttl) = cost_rate(&gemini(), t.tokens(id), &t.node(id).stats, now, t.tau_decay);
    assert_eq!(c, F(4096.0 / 1e6 * 4.5));
    assert_eq!(ttl, None);
}

// The engine.

fn prefix(n: u64) -> Vec<u64> {
    (0..n).map(|i| 0x1000 + i).collect()
}

/// An instantly-successful adapter: confirms every Create.
fn confirm_creates(eng: &mut Engine<F>, actions: &[Action<F>], now: F) {
    for a in actions {
        if let Action::Create { node, .. } = a {
            eng.confirm_create(*node, now);
        }
    }
}

#[test]
fn asks_for_a_cache_once_traffic_clears_breakeven() {
    let mut engine = Engine::new(gemini(), Config::default());
    // 20 blocks x 256 tokens = 5120 tokens of stable shared prefix.
    let blocks: Vec<u64> = (0..20).collect();
    let mut created = false;
    for i in 0..10 {
        let now = F(i as f64 * (5.0 / 60.0)); // a request every 5 minutes
        let obs = engine.observe(&blocks, now);
        created |= !obs.actions.is_empty();
    }
    assert!(created);
}

#[test]
fn creates_once_rate_clears_breakeven_and_reads_after() {
    let mut eng = Engine::new(gemini(), Config::default());
    let blocks = prefix(20); // 5120 tokens >= 4096 minimum
    let mut creates = 0;
    let mut cached_reads = 0;
    // 45 minutes of 5-minute traffic, ticking every minute so extensions
    // keep the entry alive.
    for m in 0..=45u32 {
        let now = F(m as f64 / 60.0);
        if m % 5 == 0 {
            let obs = eng.observe(&blocks, now);
            creates += obs
                .actions
                .iter()
                .filter(|a| matches!(a, Action::Create { .. }))
                .count();
            if obs.deepest_cached.is_some() {
                cached_reads += 1;
                assert_eq!(obs.cached_tokens, 5120);
            }
            confirm_creates(&mut eng, &obs.actions, now);
        }
        eng.tick(now);
    }
    assert_eq!(creates, 1, "hysteresis must prevent repeated creation");
    assert!(cached_reads >= 5, "cached reads: {cached_reads}");
}

#[test]
fn ski_rental_deletes_tau_hold_after_last_hit() {
    let prices = gemini();
    let tau_hold = prices.tau_hold_hours().unwrap().0;
    let mut eng = Engine::new(prices, Config::default());
    let blocks = prefix(20);
    let mut last_hit = 0.0;
    let mut deleted_at = None;
    // Traffic every 5 minutes until minute 45, then silence; 1-minute ticks.
    for m in 0..=120u32 {
        let now = m as f64 / 60.0;
        if m % 5 == 0 && m <= 45 {
            let obs = eng.observe(&blocks, F(now));
            confirm_creates(&mut eng, &obs.actions, F(now));
            last_hit = now;
        }
        for a in eng.tick(F(now)) {
            if matches!(a, Action::Delete { .. }) {
                assert!(deleted_at.is_none(), "must delete exactly once");
                deleted_at = Some(now);
            }
        }
    }
    let deleted_at = deleted_at.expect("idle cache must be deleted");
    assert!(deleted_at >= last_hit + tau_hold - 1e-9);
    assert!(deleted_at <= last_hit + tau_hold + 2.0 / 60.0);
    assert_eq!(eng.cached_nodes().len(), 0);
}

#[test]
fn extends_before_expiry_while_traffic_flows() {
    let mut eng = Engine::new(gemini(), Config::default());
    let blocks = prefix(20);
    let mut extends = 0;
    // 2 hours of steady 5-minute traffic with 1-minute ticks.
    for m in 0..120u32 {
        let now = F(m as f64 / 60.0);
        if m % 5 == 0 {
            let obs = eng.observe(&blocks, now);
            confirm_creates(&mut eng, &obs.actions, now);
        }
        for a in eng.tick(now) {
            match a {
                Action::Extend { .. } => extends += 1,
                Action::Delete { .. } => panic!("must not delete under steady traffic"),
                Action::Create { .. } => unreachable!("tick never creates"),
                Action::PreCreate { .. } => unreachable!("nothing to predict"),
            }
        }
    }
    assert!(extends > 0, "expiry must be pushed out while traffic flows");
}

#[test]
fn deeper_create_retires_dominated_ancestor() {
    let prices = gemini();
    let mut eng = Engine::new(prices, Config::default());
    let short = prefix(20); // 5120 tokens
    let long: Vec<u64> = prefix(20).into_iter().chain(200..216).collect(); // 9216 tokens

    let mut shallow = None;
    let mut deep_created = false;
    let mut shallow_deleted = false;
    for m in 0..=300u32 {
        let now = F(m as f64 / 60.0);
        if m % 5 == 0 {
            // First half hour: short-prefix traffic; then the workload
            // switches to a longer shared prefix.
            let obs = if m < 30 {
                eng.observe(&short, now)
            } else {
                eng.observe(&long, now)
            };
            for a in &obs.actions {
                match a {
                    Action::Create {
                        node, tokens: 5120, ..
                    } => shallow = Some(*node),
                    Action::Create { tokens: 9216, .. } => deep_created = true,
                    _ => {}
                }
            }
            confirm_creates(&mut eng, &obs.actions, now);
        }
        for a in eng.tick(now) {
            if let Action::Delete { node } = a {
                if Some(node) == shallow {
                    shallow_deleted = true;
                }
            }
        }
    }
    assert!(shallow.is_some() && deep_created);
    assert!(
        shallow_deleted,
        "shallow cache with no exclusive traffic must be retired"
    );
    // Exactly the deep node remains cached (the covered-prefix guard must
    // prevent re-creating the dominated shallow node).
    let cached: Vec<_> = eng.cached_nodes();
    assert_eq!(cached.len(), 1);
    assert_eq!(eng.trie().tokens(cached[0]), 9216);
}

#[test]
fn micro_batch_defers_followers_until_create_confirms() {
    let cfg = Config {
        enable_micro_batch: true,
        ..Config::default()
    };
    let mut eng = Engine::new(gemini(), cfg);
    let blocks = prefix(20);

    // Warm until a create fires; the leader itself gets no defer.
    let mut created = None;
    let mut t = 0.0;
    for i in 0..8 {
        t = i as f64 * (5.0 / 60.0);
        let obs = eng.observe(&blocks, F(t));
        assert!(
            obs.defer.is_none(),
            "leader must not defer on its own write"
        );
        for a in &obs.actions {
            if let Action::Create { node, .. } = a {
                created = Some(*node);
            }
        }
        if created.is_some() {
            break;
        }
    }
    let node = created.expect("creation must fire");

    // A follower 0.5s later sees the write in flight and is told to wait.
    let obs = eng.observe(&blocks, F(t + 0.5 / 3600.0));
    let defer = obs.defer.expect("follower must be deferred");
    assert_eq!(defer.node, node);
    assert!(obs.deepest_cached.is_none());
    assert!(defer.until_hours.0 > t && defer.until_hours.0 <= t + 2.1 / 3600.0);

    // The adapter confirms 1s after the create; the follower retries at
    // the advised deadline and reads the cache.
    eng.confirm_create(node, F(t + 1.0 / 3600.0));
    let obs = eng.observe(&blocks, defer.until_hours);
    assert!(obs.defer.is_none());
    assert_eq!(obs.deepest_cached, Some(node));
}

#[test]
fn unconfirmed_create_times_out_and_retries_later() {
    let mut eng = Engine::new(gemini(), Config::default());
    let blocks = prefix(20);
    let mut creates = 0;
    // Never confirm: the adapter is "down". The engine must revert the
    // pending node after the timeout and try again after the dwell.
    for m in 0..=60u32 {
        let now = F(m as f64 / 60.0);
        if m % 5 == 0 {
            let obs = eng.observe(&blocks, now);
            creates += obs
                .actions
                .iter()
                .filter(|a| matches!(a, Action::Create { .. }))
                .count();
        }
        eng.tick(now);
    }
    assert!(creates >= 2, "creation must be retried, got {creates}");
    assert_eq!(
        eng.cached_nodes().len(),
        0,
        "nothing confirmed, nothing cached"
    );
}

#[test]
fn write_premium_plan_commits_and_observe_reports_marker() {
    let mut eng = Engine::new(anthropic(), Config::default());
    let blocks = prefix(10); // 2560 tokens >= 2048 minimum
    for i in 0..30 {
        eng.observe(&blocks, F(i as f64 * (2.0 / 60.0)));
    }
    let placements = eng.plan(F(1.0));
    assert!(!placements.is_empty());
    let obs = eng.observe(&blocks, F(1.01));
    assert_eq!(obs.deepest_cached, Some(placements[0].node));
}

/// Five requests 5 minutes apart, each create confirmed, from `t`; the node that
/// was created, if any.
fn burst(eng: &mut Engine<F>, blocks: &[u64], t: f64) -> Option<NodeId> {
    let mut created = None;
    for i in 0..5 {
        let now = F(t + i as f64 * (5.0 / 60.0));
        let obs = eng.observe(blocks, now);
        for a in &obs.actions {
            if let Action::Create { node, .. } = a {
                created = Some(*node);
            }
        }
        confirm_creates(eng, &obs.actions, now);
        eng.tick(now);
    }
    created
}

/// Ticks every minute from `from` to `to`, both in minutes; what was said, and
/// when.
fn ticks(eng: &mut Engine<F>, from: u32, to: u32) -> Vec<(f64, Action<F>)> {
    let mut out = Vec::new();
    for m in from..to {
        let now = m as f64 / 60.0;
        for a in eng.tick(F(now)) {
            out.push((now, a));
        }
    }
    out
}

#[test]
fn a_failed_create_is_reverted_and_given_a_rest() {
    let mut eng = Engine::new(gemini(), Config::default());
    let blocks = prefix(20);
    let mut at = None;
    for i in 0..8 {
        let t = i as f64 * (5.0 / 60.0);
        let obs = eng.observe(&blocks, F(t));
        if let Some(Action::Create { node, .. }) = obs.actions.first() {
            at = Some((*node, t));
            break;
        }
    }
    let (node, t) = at.unwrap();
    assert!(matches!(eng.trie().node(node).state, CacheState::Pending { .. }));
    eng.mark_failed(node, F(t));
    assert_eq!(eng.trie().node(node).state, CacheState::Uncached);
    // The dwell has not passed at four minutes, so a shallower node is tried.
    match eng.observe(&blocks, F(t + 4.0 / 60.0)).actions[0] {
        Action::Create { node: other, tokens, .. } => {
            assert_ne!(other, node);
            assert_eq!(tokens, 19 * 256);
            eng.mark_failed(other, F(t + 4.0 / 60.0));
        }
        _ => panic!("must create"),
    }
    // It has passed at six.
    match eng.observe(&blocks, F(t + 6.0 / 60.0)).actions[0] {
        Action::Create { node: again, tokens, .. } => {
            assert_eq!(again, node);
            assert_eq!(tokens, 5120);
        }
        _ => panic!("must create"),
    }
}

#[test]
fn confirming_what_is_not_pending_changes_nothing() {
    let mut eng = Engine::new(gemini(), Config::default());
    let p = eng.observe(&prefix(3), F(0.0)).path;
    eng.confirm_create(p[2], F(0.0));
    assert!(eng.cached_nodes().is_empty());
}

#[test]
fn a_cache_that_lapsed_is_forgotten_by_the_next_request() {
    let mut eng = Engine::new(gemini(), Config::default());
    let blocks = prefix(20);
    let node = burst(&mut eng, &blocks, 0.0).unwrap();
    assert_eq!(eng.cached_nodes(), vec![node]);
    // No tick for three hours: the provider has let the entry expire.
    let obs = eng.observe(&blocks, F(3.0));
    assert_eq!(obs.deepest_cached, None);
    assert_eq!(obs.cached_tokens, 0);
    assert!(eng.cached_nodes().is_empty());
}

#[test]
fn a_cache_that_lapsed_is_given_up_without_a_delete() {
    let mut eng = Engine::new(gemini(), Config::default());
    let blocks = prefix(20);
    let node = burst(&mut eng, &blocks, 0.0).unwrap();
    let state = eng.trie().node(node).state;
    let expires = match state {
        CacheState::Cached { expires_at_hours, .. } => expires_at_hours,
        _ => panic!("must be cached"),
    };
    // A last request just before the expiry, then no tick until just after it.
    eng.observe(&blocks, F(expires.0 - 0.01));
    assert!(eng.tick(F(expires.0 + 0.01)).is_empty());
    assert!(eng.cached_nodes().is_empty());
}

#[test]
fn a_return_right_after_a_delete_grows_the_hold_up_to_its_bound() {
    let mut eng = Engine::new(gemini(), Config::default());
    let tau = 2.0 / 4.5;
    let eff = (2.0 * 2.0 - 0.2) / 4.5;
    let blocks = prefix(20);
    let node = burst(&mut eng, &blocks, 0.0).unwrap();
    assert_eq!(eng.trie().node(node).hold_hint, F(0.0));
    let said = ticks(&mut eng, 21, 60);
    let (gone, last) = *said.last().unwrap();
    assert_eq!(last, Action::Delete { node });
    // Back within the bound of the delete: the hold grows by half.
    eng.observe(&blocks, F(gone + 0.1));
    let grown = eng.trie().node(node).hold_hint.0;
    assert!((grown - tau * 1.5).abs() < 1e-12, "{grown}");
    // It never exceeds the longest hold worth paying for.
    let mut t = 60;
    for _ in 0..4 {
        burst(&mut eng, &blocks, t as f64 / 60.0);
        ticks(&mut eng, t + 21, t + 100);
        eng.observe(&blocks, F((t + 100) as f64 / 60.0));
        t += 120;
        let hint = eng.trie().node(node).hold_hint.0;
        assert!(hint <= eff);
    }
}

#[test]
fn a_late_return_brings_the_hold_half_the_way_back() {
    let mut eng = Engine::new(gemini(), Config::default());
    let tau = 2.0 / 4.5;
    let blocks = prefix(20);
    let node = burst(&mut eng, &blocks, 0.0).unwrap();
    let gone = ticks(&mut eng, 21, 60).last().unwrap().0;
    eng.observe(&blocks, F(gone + 0.1));
    assert!((eng.trie().node(node).hold_hint.0 - tau * 1.5).abs() < 1e-12);
    burst(&mut eng, &blocks, 2.0);
    let gone = ticks(&mut eng, 141, 240).last().unwrap().0;
    eng.observe(&blocks, F(gone + 5.0));
    let hint = eng.trie().node(node).hold_hint.0;
    assert!((hint - tau * 1.25).abs() < 1e-9, "{hint}");
}

#[test]
fn regular_returns_are_met_by_a_cache_made_ahead() {
    let mut eng = Engine::new(gemini(), Config::default());
    let blocks = prefix(20);
    let mut ahead = Vec::new();
    // A burst every eight hours.
    for day in 0..6u32 {
        let start = day * 480;
        burst(&mut eng, &blocks, start as f64 / 60.0);
        for (t, a) in ticks(&mut eng, start + 21, start + 480) {
            if let Action::PreCreate { node, tokens, ttl_hours } = a {
                assert_eq!(tokens, 5120);
                assert_eq!(ttl_hours, F(2.0 / 4.5));
                eng.confirm_create(node, F(t));
                ahead.push((day, t));
            }
        }
    }
    // Three lulls are seen at the start of the fourth burst, so the first cache
    // made ahead meets the fifth.
    assert_eq!(ahead[0].0, 3);
    let back = 4.0 * 8.0;
    assert!(ahead[0].1 < back && ahead[0].1 >= back - 6.0 / 60.0, "{:?}", ahead);
    assert_eq!(ahead.len(), 3);
}

#[test]
fn irregular_returns_are_not_predicted() {
    let mut eng = Engine::new(gemini(), Config::default());
    let blocks = prefix(20);
    let mut start = 0;
    for gap in [300u32, 700, 400, 900, 350, 800] {
        burst(&mut eng, &blocks, start as f64 / 60.0);
        for (_, a) in ticks(&mut eng, start + 21, start + gap) {
            assert!(!matches!(a, Action::PreCreate { .. }));
        }
        start += gap;
    }
}

#[test]
fn a_cache_point_that_left_the_plan_is_given_up_after_its_dwell() {
    let mut eng = Engine::new(anthropic(), Config::default());
    let blocks = prefix(10);
    for i in 0..30 {
        eng.observe(&blocks, F(i as f64 * (2.0 / 60.0)));
    }
    let node = eng.plan(F(1.0))[0].node;
    assert_eq!(eng.cached_nodes(), vec![node]);
    match eng.trie().node(node).state {
        CacheState::Cached { expires_at_hours, ttl_hours } => {
            assert_eq!(expires_at_hours, F(f64::INFINITY));
            assert_eq!(ttl_hours, F(5.0 / 60.0));
        }
        _ => panic!("must be cached"),
    }
    // Days later nothing earns its keep.
    assert!(eng.plan(F(800.0)).is_empty());
    assert!(eng.cached_nodes().is_empty());
}

#[test]
fn a_plan_on_the_storage_regime_is_advice_only() {
    let mut eng = Engine::new(gemini(), Config::default());
    let blocks = prefix(20);
    for i in 0..30 {
        eng.observe(&blocks, F(i as f64 * (2.0 / 60.0)));
    }
    let picks = eng.plan(F(1.0));
    assert_eq!(picks.len(), 1);
    assert_eq!(picks[0].ttl_hours, None);
    assert!(eng.cached_nodes().is_empty());
}

#[test]
fn ticks_collect_what_has_gone_cold() {
    let mut eng = Engine::new(gemini(), Config::default());
    eng.observe(&prefix(3), F(0.0));
    assert_eq!(eng.trie().len(), 4);
    eng.tick(F(10.0));
    assert_eq!(eng.trie().len(), 4);
    eng.tick(F(25.0));
    assert!(eng.trie().is_empty());
}

// Routing.

#[test]
fn warm_cache_beats_cheaper_list_price() {
    let blocks: Vec<u64> = (0..20).collect(); // 5120-token shared prefix
    let total_tokens = 6000;

    // Warm a Gemini-like engine until the prefix caches (and confirm).
    let mut warm = Engine::new(gemini(), Config::default());
    for i in 0..8 {
        let now = F(i as f64 * (5.0 / 60.0));
        let obs = warm.observe(&blocks, now);
        for a in &obs.actions {
            if let Action::Create { node, .. } = a {
                warm.confirm_create(*node, now);
            }
        }
    }
    assert_eq!(warm.cached_nodes().len(), 1);

    // A cold engine on a *cheaper* list price ($2 vs $3 would flip it, so
    // make the cold one cheaper at $2 uncached... it still loses).
    let cold = Engine::new(gemini(), Config::default());

    let now = F(0.6);
    let candidates = [
        RouteCandidate {
            engine: &cold,
            blocks: &blocks,
            total_tokens,
        },
        RouteCandidate {
            engine: &warm,
            blocks: &blocks,
            total_tokens,
        },
    ];
    let (idx, cost) = cheapest_route(&candidates, now).unwrap();
    assert_eq!(idx, 1, "warm cache must win");
    // 5120 cached @ $0.20 + 880 uncached @ $2.00 per MTok.
    let expected = 5120.0 / 1e6 * 0.20 + 880.0 / 1e6 * 2.00;
    assert!((cost.0 - expected).abs() < 1e-12);

    // And the cold quote is the full input price.
    let cold_cost = cold.quote_input_cost(&blocks, total_tokens, now);
    assert!((cold_cost.0 - 6000.0 / 1e6 * 2.00).abs() < 1e-12);

    // Quoting must not have polluted the cold engine's trie.
    assert!(cold.trie().is_empty());
}

#[test]
fn ties_go_to_the_first_candidate_and_none_to_nobody() {
    let a = Engine::new(gemini(), Config::default());
    let b = Engine::new(gemini(), Config::default());
    let blocks = prefix(2);
    let one = RouteCandidate { engine: &a, blocks: &blocks, total_tokens: 600 };
    let two = RouteCandidate { engine: &b, blocks: &blocks, total_tokens: 600 };
    let three = RouteCandidate { engine: &b, blocks: &blocks, total_tokens: 500 };
    assert_eq!(cheapest_route(&[one, two], F(0.0)).unwrap().0, 0);
    let one = RouteCandidate { engine: &a, blocks: &blocks, total_tokens: 600 };
    assert_eq!(cheapest_route(&[one, three], F(0.0)), Some((1, F(500.0 / 1e6 * 2.0))));
    assert_eq!(cheapest_route::<F>(&[], F(0.0)), None);
}

#[test]
fn a_quote_is_what_the_request_is_charged() {
    let mut eng = Engine::new(gemini(), Config::default());
    let blocks = prefix(20);
    burst(&mut eng, &blocks, 0.0);
    let mut longer = blocks.clone();
    longer.push(99);
    let now = F(0.4);
    let quote = eng.quote_input_cost(&longer, 5376, now);
    let ct = eng.observe(&longer, now).cached_tokens;
    assert_eq!(ct, 5120);
    let charged = ct as f64 / 1e6 * 0.2 + (5376 - ct) as f64 / 1e6 * 2.0;
    assert_eq!(quote, F(charged));
}

// Shaping.

#[test]
fn boundary_lands_where_traffic_fans_out() {
    let mut t = PrefixTrie::new(256, F(1.0), 100_000);
    let prefix: Vec<u64> = (0..20).collect(); // 5120 stable tokens
    let mut path = Vec::new();
    for i in 0..6u64 {
        let mut blocks = prefix.clone();
        blocks.push(0xAAAA + i); // unique volatile continuation
        path = t.observe_path(&blocks, F(i as f64 * (5.0 / 60.0)));
    }
    let prices = gemini();
    let hint =
        stable_boundary(&t, &prices, &path, F(0.5), 3).expect("boundary must be found");
    assert_eq!(hint.stable_tokens, 5120);
    assert_eq!(hint.fanout, 6);
    assert!(
        hint.net_savings_per_hour.0 > 0.0,
        "hot stable prefix must be worth caching: {}",
        hint.net_savings_per_hour.0
    );
}

#[test]
fn no_boundary_without_fanout() {
    let mut t = PrefixTrie::new(256, F(1.0), 100_000);
    let blocks: Vec<u64> = (0..20).collect();
    let mut path = Vec::new();
    for i in 0..6 {
        path = t.observe_path(&blocks, F(i as f64 * (5.0 / 60.0)));
    }
    let prices = gemini();
    assert!(stable_boundary(&t, &prices, &path, F(0.5), 3).is_none());
}

// Adapters.

#[test]
fn gemini_adapter_translates_lifecycle_with_handle_registry() {
    let mut ad = GeminiAdapter::new();

    let calls = ad.translate(
        &[Action::Create {
            node: 7,
            tokens: 5120,
            ttl_hours: F(2.0 / 4.5),
        }],
        F(0.0),
    );
    assert_eq!(
        calls,
        vec![GeminiCall::CreateCachedContent {
            node: 7,
            prefix_tokens: 5120,
            ttl_seconds: 1600, // ceil(2/4.5 * 3600)
        }]
    );

    // Extend before registration is dropped (no handle to patch).
    let calls = ad.translate(
        &[Action::Extend {
            node: 7,
            expires_at_hours: F(1.0),
        }],
        F(0.5),
    );
    assert!(calls.is_empty());

    ad.register(7, "cachedContents/abc".into());
    let calls = ad.translate(
        &[Action::Extend {
            node: 7,
            expires_at_hours: F(1.0),
        }],
        F(0.5),
    );
    assert_eq!(
        calls,
        vec![GeminiCall::UpdateExpiry {
            node: 7,
            cache_name: "cachedContents/abc".into(),
            ttl_seconds: 1800,
        }]
    );

    let calls = ad.translate::<F>(&[Action::Delete { node: 7 }], F(1.0));
    assert_eq!(
        calls,
        vec![GeminiCall::DeleteCachedContent {
            node: 7,
            cache_name: "cachedContents/abc".into(),
        }]
    );
    assert!(ad.handle(7).is_none(), "delete must drop the handle");
}

#[test]
fn gemini_adapter_creates_ahead_and_clips_a_past_expiry() {
    let mut ad = GeminiAdapter::default();
    ad.register(3, "cachedContents/xyz".into());
    let calls = ad.translate(
        &[
            Action::PreCreate { node: 9, tokens: 4096, ttl_hours: F(0.5) },
            Action::Extend { node: 3, expires_at_hours: F(1.0) },
            Action::Delete { node: 3 },
            Action::Delete { node: 3 },
        ],
        F(2.0),
    );
    assert_eq!(
        calls,
        vec![
            GeminiCall::PreCreateCachedContent {
                node: 9,
                prefix_tokens: 4096,
                ttl_seconds: 1800,
            },
            GeminiCall::UpdateExpiry {
                node: 3,
                cache_name: "cachedContents/xyz".into(),
                ttl_seconds: 0,
            },
            GeminiCall::DeleteCachedContent {
                node: 3,
                cache_name: "cachedContents/xyz".into(),
            },
        ]
    );
}

#[test]
fn requests_refer_to_registered_caches_only() {
    let mut eng = Engine::new(gemini(), Config::default());
    let blocks = prefix(20);
    let node = burst(&mut eng, &blocks, 0.0).unwrap();
    let obs = eng.observe(&blocks, F(0.4));
    let mut ad = GeminiAdapter::new();
    assert_eq!(ad.reference_for(&obs), None);
    ad.register(node, "cachedContents/one".into());
    assert_eq!(ad.reference_for(&obs), Some("cachedContents/one"));
    let cold = Engine::new(gemini(), Config::default()).observe(&blocks, F(0.4));
    assert_eq!(ad.reference_for(&cold), None);
}

#[test]
fn anthropic_breakpoints_follow_committed_plan() {
    let mut eng = Engine::new(anthropic(), Config::default());
    let blocks: Vec<u64> = (0..10).collect(); // 2560 tokens
    for i in 0..30 {
        eng.observe(&blocks, F(i as f64 * (2.0 / 60.0)));
    }
    let placements = eng.plan(F(1.0));
    assert!(!placements.is_empty());

    let obs = eng.observe(&blocks, F(1.01));
    let bps = breakpoints_for(&eng, &obs);
    assert_eq!(bps.len(), 1);
    assert_eq!(bps[0].token_offset, 2560);
    // 2-minute gaps -> the cheap 5-minute tier, which omits the ttl field.
    assert_eq!(bps[0].ttl, TtlLabel::FiveMinutes);
    assert_eq!(bps[0].ttl.wire_value(), None);
    assert!(bps.len() <= eng.prices().max_breakpoints);
}

#[test]
fn hour_long_gaps_buy_the_hour_tier() {
    let mut eng = Engine::new(anthropic(), Config { tau_decay_hours: F(1000.0), ..Config::default() });
    let blocks: Vec<u64> = (0..10).collect();
    for i in 0..20 {
        eng.observe(&blocks, F(i as f64 * 0.5));
    }
    eng.plan(F(10.0));
    let obs = eng.observe(&blocks, F(10.0));
    let bps = breakpoints_for(&eng, &obs);
    assert_eq!(bps.len(), 1);
    assert_eq!(bps[0].ttl, TtlLabel::OneHour);
    assert_eq!(bps[0].ttl.wire_value(), Some("1h"));
}

#[test]
fn a_plan_looks_past_the_best_single_addition() {
    // Prefixes of one, two and three million tokens at nine, five and three
    // requests an hour, free to hold.
    let mut t = PrefixTrie::new(1_000_000, F(1.0), 1000);
    let mut path = Vec::new();
    for depth in [3usize, 3, 3, 2, 2, 1, 1, 1, 1] {
        let p = t.observe_path(&[1, 2, 3][..depth], F(0.0));
        if depth == 3 {
            path = p;
        }
    }
    let prices = PriceSheet {
        input_per_mtok: F(1.0),
        cached_read_per_mtok: F(0.0),
        storage_per_mtok_hour: Some(F(0.0)),
        write_tiers: Vec::new(),
        min_cacheable_tokens: 1,
        max_breakpoints: 2,
    };
    let picks = plan_breakpoints(&t, &prices, F(0.0), F(1.0), F(1.0));
    let mut nodes: Vec<NodeId> = picks.iter().map(|p| p.node).collect();
    nodes.sort();
    assert_eq!(nodes, vec![path[0], path[2]]);
    let nets: Vec<f64> = picks.iter().map(|p| p.net_per_hour.0).collect();
    assert_eq!(nets, vec![9.0, 6.0]);
    // One cache point goes where it nets the most, and a third between the two.
    let one = PriceSheet { max_breakpoints: 1, ..prices.clone() };
    let picks = plan_breakpoints(&t, &one, F(0.0), F(1.0), F(1.0));
    assert_eq!(picks.len(), 1);
    assert_eq!(picks[0].net_per_hour, F(10.0));
    assert_eq!(picks[0].node, path[1]);
    let three = PriceSheet { max_breakpoints: 3, ..prices };
    let picks = plan_breakpoints(&t, &three, F(0.0), F(1.0), F(1.0));
    let sum: f64 = picks.iter().map(|p| p.net_per_hour.0).sum();
    assert_eq!(sum, 9.0 + 4.0 + 4.0);
}

#[test]
fn the_hold_counts_from_the_last_request() {
    // A cache made for a request and confirmed late is held from the request.
    let mut eng = Engine::new(gemini(), Config::default());
    let blocks = prefix(20);
    let node = burst(&mut eng, &blocks, 0.0).unwrap();
    let n = eng.trie().node(node);
    assert!(!n.ahead);
    let last = n.stats.t_last.0;
    let gone = ticks(&mut eng, 21, 90).last().unwrap().0;
    assert!(gone >= last + 2.0 / 4.5 - 1e-9 && gone < last + 2.0 / 4.5 + 1.0 / 60.0 + 1e-9);
    // So too where the clock steps back behind the create.
    let mut eng = Engine::new(gemini(), Config::default());
    let node = burst(&mut eng, &blocks, 0.0).unwrap();
    assert!(eng.trie().node(node).last_flip.0 > 0.1);
    eng.observe(&blocks, F(0.1));
    assert!(!eng.tick(F(0.54)).contains(&Action::Delete { node }));
    assert!(eng.tick(F(0.55)).contains(&Action::Delete { node }));
}

#[test]
fn no_node_is_given_up_and_warmed_in_one_tick() {
    let cfg = Config { min_dwell_hours: F(0.0), ..Config::default() };
    let mut eng = Engine::new(gemini(), cfg);
    let blocks = prefix(20);
    for day in 0..8u32 {
        let start = day * 480;
        burst(&mut eng, &blocks, start as f64 / 60.0);
        for m in start + 21..start + 480 {
            let now = F(m as f64 / 60.0);
            let said = eng.tick(now);
            let ends = said.iter().filter(|a| matches!(a, Action::Delete { .. })).count();
            let made = said.iter().filter(|a| matches!(a, Action::PreCreate { .. })).count();
            assert!(ends == 0 || made == 0);
            confirm_creates(&mut eng, &said, now);
        }
    }
}

#[test]
fn cold_subtrees_go_at_once_and_nothing_is_left_to_collect() {
    let mut t = PrefixTrie::new(256, F(1.0), 1000);
    t.observe_path(&[1, 2, 3], F(0.0));
    t.observe_path(&[1, 2, 4], F(0.0));
    let kept = t.observe_path(&[1, 5], F(99.0));
    let before = t.len();
    assert_eq!(t.gc(F(100.0), F(0.5), F(24.0)), 3);
    assert_eq!(t.len(), before - 3);
    // The parent of what stays stays.
    assert_eq!(t.peek_path(&[1, 5]), kept);
    assert_eq!(t.gc(F(100.0), F(0.5), F(24.0)), 0);
}

#[test]
fn a_tick_names_each_node_once() {
    let mut eng = Engine::new(gemini(), Config::default());
    let blocks = prefix(20);
    for day in 0..6u32 {
        let start = day * 480;
        burst(&mut eng, &blocks, start as f64 / 60.0);
        for m in start + 21..start + 480 {
            let now = F(m as f64 / 60.0);
            let uncached: Vec<bool> = (0..eng.trie().len())
                .map(|id| matches!(eng.trie().node(id).state, CacheState::Uncached))
                .collect();
            let said = eng.tick(now);
            let mut named: Vec<NodeId> = said
                .iter()
                .map(|a| match *a {
                    Action::Create { node, .. } => node,
                    Action::PreCreate { node, .. } => {
                        assert!(uncached[node]);
                        node
                    }
                    Action::Extend { node, .. } => node,
                    Action::Delete { node } => node,
                })
                .collect();
            let count = named.len();
            named.sort();
            named.dedup();
            assert_eq!(named.len(), count);
            confirm_creates(&mut eng, &said, now);
        }
    }
}
