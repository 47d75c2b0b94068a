//! Traces, replays and reports on double-precision numbers.
use llm_cache::cli::{
    check_events, command, gen_scenario, generate, parse_opts, policy_name, price_sheet, report,
    run_label, run_source, split_savings, Command, Opts, PolicyName, Source,
};
use llm_cache::number::Real;
use llm_cache::sim::{compare, replay, try_compare, try_replay, Comparison, Policy, Report};
use llm_cache::trace::{
    business_hours, from_str, multi_tenant, poisson_bursty, to_string, Event, Rng,
};
use llm_cache::{Action, Config, Engine, PriceSheet};

/// Double-precision numbers.
#[derive(Clone, Copy, Debug, PartialEq)]
struct F(f64);

impl Real for F {
    fn from_int(n: u64) -> F {
        F(n as f64)
    }
    fn infinity() -> F {
        F(f64::INFINITY)
    }
    fn neg_infinity() -> F {
        F(f64::NEG_INFINITY)
    }
    fn plus(self, o: F) -> F {
        F(self.0 + o.0)
    }
    fn minus(self, o: F) -> F {
        F(self.0 - o.0)
    }
    fn times(self, o: F) -> F {
        F(self.0 * o.0)
    }
    fn over(self, o: F) -> F {
        F(self.0 / o.0)
    }
    fn modulo(self, o: F) -> F {
        F(self.0 % o.0)
    }
    fn neg(self) -> F {
        F(-self.0)
    }
    fn max_with(self, o: F) -> F {
        F(self.0.max(o.0))
    }
    fn min_with(self, o: F) -> F {
        F(self.0.min(o.0))
    }
    fn exp(self) -> F {
        F(self.0.exp())
    }
    fn ln(self) -> F {
        F(self.0.ln())
    }
    fn is_lt(self, o: F) -> bool {
        self.0 < o.0
    }
    fn is_le(self, o: F) -> bool {
        self.0 <= o.0
    }
    fn is_same(self, o: F) -> bool {
        self.0 == o.0
    }
    fn ranks_before(self, o: F) -> bool {
        self.0.total_cmp(&o.0).is_lt()
    }
    fn ceil_u64(self) -> u64 {
        self.0.ceil() as u64
    }
    fn write(self, out: &mut String) {
        out.push_str(&format!("{}", self.0));
    }
    fn read(text: &str) -> Result<F, String> {
        text.parse::<f64>().map(F).map_err(|e| format!("{e}"))
    }
    fn below_ranks_before(_a: F, _b: F) {}
    fn text_reads_back(_a: F) {}
    fn text_is_word(_a: F) {}
}

fn gemini() -> PriceSheet<F> {
    PriceSheet::gemini_pro_like()
}

fn mtok(tokens: u64) -> f64 {
    tokens as f64 / 1e6
}

// Traces.

#[test]
fn line_round_trips() {
    let e = Event {
        time_hours: F(1.25),
        total_tokens: 5120,
        blocks: vec![1, 2, 3],
    };
    let parsed = Event::parse_line(&e.to_line()).unwrap().unwrap();
    assert_eq!(parsed, e);
}

#[test]
fn trace_round_trips_and_skips_comments() {
    let events = vec![
        Event {
            time_hours: F(0.0),
            total_tokens: 100,
            blocks: vec![7],
        },
        Event {
            time_hours: F(0.5),
            total_tokens: 200,
            blocks: vec![],
        },
    ];
    let text = to_string(&events);
    assert!(text.lines().next().unwrap().starts_with('#'));
    assert_eq!(from_str(&text).unwrap(), events);
}

#[test]
fn lines_are_written_as_documented() {
    let e = Event { time_hours: F(1.25), total_tokens: 5120, blocks: vec![1, 20, 300] };
    assert_eq!(e.to_line(), "1.25\t5120\t1,20,300");
    let none = Event { time_hours: F(0.5), total_tokens: 200, blocks: vec![] };
    assert_eq!(none.to_line(), "0.5\t200\t");
    assert_eq!(
        to_string(&[none]),
        "# pcoe trace v1: time_hours<TAB>total_tokens<TAB>block_hashes\n0.5\t200\t\n"
    );
}

#[test]
fn quiet_lines_say_nothing() {
    assert_eq!(Event::<F>::parse_line(""), Ok(None));
    assert_eq!(Event::<F>::parse_line("   \t \r"), Ok(None));
    assert_eq!(Event::<F>::parse_line("# comment\t1"), Ok(None));
    let text = "\n# x\r\n1\t2\t3\r\n\n2\t3\t";
    let events = from_str::<F>(text).unwrap();
    assert_eq!(events.len(), 2);
    assert_eq!(events[0].blocks, vec![3]);
    assert_eq!(events[1], Event { time_hours: F(2.0), total_tokens: 3, blocks: vec![] });
    assert_eq!(from_str::<F>("").unwrap(), vec![]);
}

#[test]
fn malformed_lines_say_what_is_wrong() {
    let wrong = |line: &str| Event::<F>::parse_line(line).unwrap_err();
    assert_eq!(wrong("abc\t1\t2"), "bad time: invalid float literal");
    assert_eq!(wrong("1.5"), "missing total_tokens");
    assert_eq!(wrong("1.5\tx\t1"), "bad total_tokens: invalid digit found in string");
    assert_eq!(wrong("1.5\t\t1"), "bad total_tokens: cannot parse integer from empty string");
    assert_eq!(
        wrong("1.5\t99999999999999999999\t1"),
        "bad total_tokens: number too large to fit in target type"
    );
    assert_eq!(wrong("1.5\t10\t1,,2"), "bad block hash: cannot parse integer from empty string");
    assert_eq!(wrong("1.5\t10\t1,z"), "bad block hash: invalid digit found in string");
    assert_eq!(
        from_str::<F>("# x\n1\t2\t3\n1.5\n").unwrap_err(),
        "line 3: missing total_tokens"
    );
}

#[test]
fn what_follows_the_third_field_is_ignored() {
    let e = Event::<F>::parse_line("1\t2\t3,4\tmore").unwrap().unwrap();
    assert_eq!(e.blocks, vec![3, 4]);
    let e = Event::<F>::parse_line("1\t+2\t\tmore").unwrap().unwrap();
    assert_eq!((e.total_tokens, e.blocks.len()), (2, 0));
}

#[test]
fn business_hours_confined_to_open_window() {
    let ev = business_hours(20, F(12.0), F(9.0), F(17.0), 2, 256, 42);
    assert!(!ev.is_empty());
    for e in &ev {
        let hod = e.time_hours.0 % 24.0;
        assert!((9.0..17.0).contains(&hod), "event at hour-of-day {hod}");
    }
    // Deterministic under a fixed seed.
    assert_eq!(business_hours(20, F(12.0), F(9.0), F(17.0), 2, 256, 42), ev);
}

#[test]
fn multi_tenant_uses_distinct_prefixes() {
    let ev = multi_tenant(3, 10, F(20.0), F(8.0), 1, 256, 1);
    assert!(ev.len() > 10);
    // Sorted by time.
    for w in ev.windows(2) {
        assert!(w[0].time_hours.0 <= w[1].time_hours.0);
    }
    // Prefixes differ across tenants (first block distinguishes them).
    let firsts: std::collections::HashSet<u64> = ev
        .iter()
        .filter_map(|e| e.blocks.first().copied())
        .collect();
    assert!(firsts.len() >= 3);
}

#[test]
fn rng_exp_gap_mean_is_reasonable() {
    let mut rng = Rng::new(7);
    let n = 20_000;
    let rate = F(5.0);
    let mean: f64 = (0..n).map(|_| rng.exp_gap(rate).0).sum::<f64>() / n as f64;
    // E[gap] = 1/rate = 0.2h; allow 5% slack.
    assert!((mean - 0.2).abs() / 0.2 < 0.05, "mean gap {mean}");
}

#[test]
fn the_generator_is_splitmix() {
    // The published outputs for the seed 1234567.
    let mut rng = Rng::new(1234567);
    assert_eq!(rng.next_u64(), 6457827717110365317);
    assert_eq!(rng.next_u64(), 3203168211198807973);
    let mut rng = Rng::new(1234567);
    let unit: F = rng.unit();
    assert_eq!(unit, F((6457827717110365317u64 >> 11) as f64 / (1u64 << 53) as f64));
    let mut rng = Rng::new(1234567);
    assert_eq!(rng.exp_gap(F(2.0)), F(-(1.0 - unit.0).ln() / 2.0));
}

#[test]
fn requests_carry_their_family_and_one_suffix() {
    let ev = business_hours(3, F(12.0), F(9.0), F(17.0), 1, 256, 42);
    assert_eq!(ev[0].blocks[..3], [0x1_0000_0000, 0x1_0000_0001, 0x1_0000_0002]);
    assert_eq!(ev[0].blocks[3], 0xFFFF_0000_0000_0000);
    assert_eq!(ev[1].blocks[3], 0xFFFF_0000_0000_0001);
    assert_eq!(ev[0].total_tokens, 4 * 256);
    let mut rng = Rng::new(42);
    assert_eq!(ev[0].time_hours, F(9.0 + rng.exp_gap(F(12.0)).0));
}

#[test]
fn bursts_end_with_the_trace() {
    let ev = poisson_bursty(3, F(60.0), F(2.0), F(1.0), F(24.0), 256, 42);
    assert!(ev.len() > 200);
    assert!(ev.last().unwrap().time_hours.0 < 24.0);
    let hot = ev.iter().filter(|e| e.time_hours.0 % 2.0 < 1.0).count();
    assert!(hot * 5 > ev.len() * 4);
}

// Replays.

#[test]
fn policies_order_as_expected_over_a_week() {
    // 200K-token prefix, 8h business day, silence overnight, several days.
    // The engine's win requires multiple periods: a single day ending at close
    // has no overnight idle *in the trace* for cache-everything to leak
    // into, so the gap only opens once nights are present.
    let trace = business_hours(782, F(12.0), F(9.0), F(17.0), 5, 256, 99);
    let cfg = Config::default();
    let cmp = compare(&trace, &gemini(), &cfg);

    let no = cmp.get(Policy::NoCache).unwrap().total_cost.0;
    let every = cmp.get(Policy::CacheEverything).unwrap().total_cost.0;
    let pcoe = cmp.get(Policy::Pcoe).unwrap().total_cost.0;
    let oracle = cmp.get(Policy::ReferenceOracle).unwrap().total_cost.0;

    // The engine beats naive caching, which beats no caching.
    assert!(pcoe < every, "pcoe {pcoe} !< cache-everything {every}");
    assert!(every < no, "cache-everything {every} !< no-cache {no}");
    // It saves a large fraction versus no caching.
    assert!(
        cmp.get(Policy::Pcoe)
            .unwrap()
            .savings_vs(cmp.get(Policy::NoCache).unwrap())
            .0
            > 60.0
    );
    // And it's near the offline oracle.
    let ratio = cmp.competitive_ratio().unwrap().0;
    assert!((0.95..1.6).contains(&ratio), "competitive ratio {ratio}");
    assert!(
        oracle <= pcoe + 1e-9,
        "oracle {oracle} should be <= pcoe {pcoe}"
    );
}

#[test]
fn oracle_dp_matches_hand_computation_single_hit() {
    // One request, single cacheable prefix: never cache (create+read > input).
    let prices = gemini();
    let t_tokens = 5120u64;
    let ev = vec![Event {
        time_hours: F(0.0),
        total_tokens: t_tokens,
        blocks: (0..20u64).collect(),
    }];
    let cfg = Config::default();
    let r = replay(&ev, &prices, &cfg, Policy::ReferenceOracle);
    let expected = mtok(t_tokens) * prices.input_per_mtok.0;
    assert!((r.total_cost.0 - expected).abs() < 1e-12, "{}", r.total_cost.0);
}

#[test]
fn oracle_caches_a_tight_cluster() {
    // Many requests 1 minute apart: the oracle caches once (create + reads +
    // tiny storage) rather than paying full input each time.
    let prices = gemini();
    let t_tokens = 5120u64;
    let blocks: Vec<u64> = (0..20u64).collect();
    let ev: Vec<Event<F>> = (0..30)
        .map(|i| Event {
            time_hours: F(i as f64 / 60.0),
            total_tokens: t_tokens,
            blocks: blocks.clone(),
        })
        .collect();
    let cfg = Config::default();
    let r = replay(&ev, &prices, &cfg, Policy::ReferenceOracle);
    let no_cache = 30.0 * mtok(t_tokens) * prices.input_per_mtok.0;
    // Cached: create + 30 reads + ~29min storage.
    let cached_est = mtok(t_tokens) * prices.input_per_mtok.0
        + 30.0 * mtok(t_tokens) * prices.cached_read_per_mtok.0
        + (29.0 / 60.0) * mtok(t_tokens) * prices.storage_per_mtok_hour.unwrap().0;
    assert!((r.total_cost.0 - cached_est).abs() < 1e-9, "{}", r.total_cost.0);
    assert!(r.total_cost.0 < no_cache);
}

#[test]
fn static_ttl_and_pcoe_beat_cache_everything_overnight() {
    // A prefix hit during the day then idle overnight: both a fixed idle-TTL
    // and the engine stop paying storage after the last hit; cache-everything
    // doesn't. Needs multiple days so the overnight idle is in the trace.
    let trace = business_hours(782, F(12.0), F(9.0), F(17.0), 7, 256, 3);
    let cfg = Config::default();
    let every = replay(&trace, &gemini(), &cfg, Policy::CacheEverything);
    let static_1h = replay(&trace, &gemini(), &cfg, Policy::StaticTtl(F(1.0)));
    let pcoe = replay(&trace, &gemini(), &cfg, Policy::Pcoe);
    assert!(static_1h.total_cost.0 < every.total_cost.0);
    assert!(pcoe.total_cost.0 < every.total_cost.0);
    // On a clean single-prefix metronome workload a *well-chosen* fixed TTL
    // is hard to beat: it deletes promptly after the day and re-creates each
    // morning, which is nearly optimal when the idle pattern never varies.
    // The engine lands ~5-6% above it: the online ski-rental tax (the tau_hold
    // hold after each last hit, plus the morning rate re-warmup) against a
    // hindsight-perfect hand-tune. Its value is adapting when no single TTL
    // fits (multi-tenant, bursty), not winning this metronome; assert it
    // stays in the same ballpark, not that it strictly wins.
    assert!(
        pcoe.total_cost.0 < static_1h.total_cost.0 * 1.07,
        "pcoe {} should be within 7% of static-1h {}",
        pcoe.total_cost.0,
        static_1h.total_cost.0
    );
}

#[test]
fn bursty_learned_hold_improves_but_headroom_remains() {
    // Bimodal bursty traffic (hot phases separated by cold lulls whose gaps
    // straddle tau_hold) is the engine's hardest case: a greedy per-gap
    // ski-rental would delete during a lull right before the next burst.
    // The learned per-node hold recovers most of that: a prefix that keeps
    // getting hit right after a delete grows its hold and rides through the
    // lulls. Averaged over seeds the competitive ratio is well below the
    // ~1.29 a purely greedy controller gives, but real headroom remains
    // (the hot-to-cold transitions and the growth ramp can't be won online;
    // that needs burst prediction). Averaged over seeds so the assertion
    // doesn't ride on one worst-case instance.
    let cfg = Config::default();
    let ratios: Vec<f64> = (1..=8u64)
        .map(|seed| {
            let trace = poisson_bursty(390, F(60.0), F(2.0), F(1.0), F(168.0), 256, seed);
            let cmp = compare(&trace, &gemini(), &cfg);
            let pcoe = cmp.get(Policy::Pcoe).unwrap();
            let no = cmp.get(Policy::NoCache).unwrap();
            assert!(pcoe.total_cost.0 < no.total_cost.0); // caching always beats not
            pcoe.total_cost.0 / cmp.get(Policy::ReferenceOracle).unwrap().total_cost.0
        })
        .collect();
    let mean = ratios.iter().sum::<f64>() / ratios.len() as f64;
    assert!(
        mean < 1.28,
        "learned-hold should pull the mean ratio below the greedy ~1.29: {mean}"
    );
    assert!(
        mean > 1.05,
        "but bursty headroom remains (needs burst prediction): {mean}"
    );
}

#[test]
fn multi_tenant_fleet_pcoe_wins_big() {
    // 12 tenants, staggered around the clock: no human can hand-tune this.
    let trace = multi_tenant(12, 400, F(15.0), F(8.0), 1, 256, 5);
    let cfg = Config::default();
    let cmp = compare(&trace, &gemini(), &cfg);
    let pcoe = cmp.get(Policy::Pcoe).unwrap();
    let no = cmp.get(Policy::NoCache).unwrap();
    let every = cmp.get(Policy::CacheEverything).unwrap();
    assert!(
        pcoe.savings_vs(no).0 > 50.0,
        "savings {}",
        pcoe.savings_vs(no).0
    );
    assert!(pcoe.total_cost.0 < every.total_cost.0);
    assert!(pcoe.hit_rate().0 > 0.5, "hit rate {}", pcoe.hit_rate().0);
}

/// Requests of 5120 tokens for one prefix of 20 blocks, at the given hours.
fn at(hours: &[f64]) -> Vec<Event<F>> {
    hours
        .iter()
        .map(|&t| Event {
            time_hours: F(t),
            total_tokens: 5120,
            blocks: (0..20u64).collect(),
        })
        .collect()
}

#[test]
fn no_caching_pays_the_input_price_every_time() {
    let r = replay(&at(&[0.0, 1.0]), &gemini(), &Config::default(), Policy::NoCache);
    let once = 5120.0 / 1e6 * 2.0;
    assert_eq!(r.request_cost, F(0.0 + once + once));
    assert_eq!(r.total_cost, r.request_cost);
    assert_eq!((r.requests, r.cached_requests), (2, 0));
    assert_eq!(r.hit_rate(), F(0.0));
}

#[test]
fn a_static_cache_is_billed_until_it_lapses_or_the_trace_ends() {
    let prices = gemini();
    let cfg = Config::default();
    let m = 5120.0 / 1e6;
    // Created at 0, read at 0.5, lapsed at 1.5, created again at 3.
    let trace = at(&[0.0, 0.5, 3.0]);
    let r = replay(&trace, &prices, &cfg, Policy::StaticTtl(F(1.0)));
    assert_eq!((r.creates, r.deletes, r.cached_requests, r.requests), (2, 1, 1, 3));
    assert!((r.storage_cost.0 - 1.5 * m * 4.5).abs() < 1e-12);
    assert!((r.token_hours.0 - 1.5 * m).abs() < 1e-12);
    assert!((r.create_cost.0 - 2.0 * m * 2.0).abs() < 1e-12);
    assert!((r.request_cost.0 - (2.0 * m * 2.0 + m * 0.2)).abs() < 1e-12);
    assert_eq!(r.total_cost, F(r.create_cost.0 + r.storage_cost.0 + r.request_cost.0));
    // Held forever: one creation, stored to the end.
    let r = replay(&trace, &prices, &cfg, Policy::CacheEverything);
    assert_eq!((r.creates, r.deletes, r.cached_requests), (1, 0, 2));
    assert!((r.storage_cost.0 - 3.0 * m * 4.5).abs() < 1e-12);
}

#[test]
fn a_cache_that_covers_more_than_the_request_cannot_be_replayed() {
    let mut trace = at(&[0.0, 0.5]);
    trace[1].total_tokens = 5000;
    let prices = gemini();
    let cfg = Config::default();
    assert!(try_replay(&trace, &prices, &cfg, Policy::CacheEverything).is_none());
    assert!(try_replay(&trace, &prices, &cfg, Policy::StaticTtl(F(1.0))).is_none());
    // Where the entry has lapsed by then, nothing is read from it.
    assert!(try_replay(&trace, &prices, &cfg, Policy::StaticTtl(F(0.25))).is_some());
    assert!(try_replay(&trace, &prices, &cfg, Policy::Pcoe).is_some());
    assert!(try_compare(&trace, &prices, &cfg).is_none());
    assert!(try_compare(&at(&[0.0, 0.5]), &prices, &cfg).is_some());
}

#[test]
fn lengths_that_do_not_fit_cannot_be_replayed() {
    let trace = at(&[0.0]);
    let cfg = Config { block_tokens: u64::MAX / 10, ..Config::default() };
    assert!(try_replay(&trace, &gemini(), &cfg, Policy::NoCache).is_some());
    for p in [Policy::CacheEverything, Policy::Pcoe, Policy::ReferenceOracle] {
        assert!(try_replay(&trace, &gemini(), &cfg, p).is_none());
    }
}

#[test]
fn an_empty_trace_costs_nothing() {
    let cmp = compare(&[], &gemini(), &Config::default());
    for (_, r) in &cmp.reports {
        assert_eq!(r.total_cost, F(0.0));
        assert_eq!(r.requests, 0);
    }
    assert_eq!(cmp.competitive_ratio(), None);
    let r: Report<F> = Report::default();
    assert_eq!(r.hit_rate(), F(0.0));
    assert_eq!(r.savings_vs(&r), F(0.0));
}

#[test]
fn the_engine_is_billed_for_creation_storage_and_reads() {
    // A request every five minutes for an hour: one creation, deleted at the
    // first tick past the hold.
    let hours: Vec<f64> = (0..=12).map(|i| i as f64 * 5.0 / 60.0).collect();
    let trace = at(&hours);
    let r = replay(&trace, &gemini(), &Config::default(), Policy::Pcoe);
    assert_eq!((r.creates, r.deletes, r.requests), (1, 1, 13));
    assert!(r.extends > 0);
    let m = 5120.0 / 1e6;
    assert!((r.create_cost.0 - m * 2.0).abs() < 1e-12);
    let hits = r.cached_requests as f64;
    assert!((r.request_cost.0 - (hits * m * 0.2 + (13.0 - hits) * m * 2.0)).abs() < 1e-9);
    assert_eq!(r.total_cost, F(r.create_cost.0 + r.storage_cost.0 + r.request_cost.0));
    assert!((r.storage_cost.0 - r.token_hours.0 * 4.5).abs() < 1e-9);
}

#[test]
fn a_week_of_business_days_costs_what_the_report_says() {
    let trace = generate::<F>("business-day", 42, 7).unwrap();
    assert_eq!(trace.len(), 670);
    let cmp = compare(&trace, &gemini(), &Config::default());
    let cost = |p| cmp.get(p).unwrap().total_cost.0;
    assert_eq!(format!("{:.2}", cost(Policy::NoCache)), "268.60");
    assert_eq!(format!("{:.2}", cost(Policy::CacheEverything)), "164.73");
    assert_eq!(format!("{:.2}", cost(Policy::StaticTtl(F(1.0)))), "87.34");
    assert_eq!(format!("{:.2}", cost(Policy::ReferenceOracle)), "79.32");
    let ratio = cmp.competitive_ratio().unwrap().0;
    assert_eq!(format!("{ratio:.2}"), "1.10");
    let s = cmp.get(Policy::StaticTtl(F(1.0))).unwrap();
    assert_eq!((s.creates, s.extends, s.deletes), (7, 0, 6));
}

#[test]
fn a_fleet_is_met_ahead_of_its_returns() {
    let trace = generate::<F>("multi-tenant", 42, 7).unwrap();
    let cmp = compare(&trace, &gemini(), &Config::default());
    let ratio = cmp.competitive_ratio().unwrap().0;
    assert_eq!(format!("{ratio:.2}"), "1.11");
    let saved = cmp.get(Policy::Pcoe).unwrap().savings_vs(cmp.get(Policy::NoCache).unwrap()).0;
    assert_eq!(format!("{saved:.0}"), "71");
}

#[test]
fn bursty_traffic_costs_little_more_than_caching_everything() {
    let trace = generate::<F>("bursty", 42, 7).unwrap();
    let cmp = compare(&trace, &gemini(), &Config::default());
    let pcoe = cmp.get(Policy::Pcoe).unwrap();
    let saved = pcoe.savings_vs(cmp.get(Policy::NoCache).unwrap()).0;
    assert_eq!(format!("{saved:.0}"), "77");
    let dearer = -pcoe.savings_vs(cmp.get(Policy::CacheEverything).unwrap()).0;
    assert_eq!(format!("{dearer:.0}"), "3");
}

#[test]
fn business_day_costs_match_design_doc() {
    let prices = gemini();
    let p_in = prices.input_per_mtok.0;
    let p_read = prices.cached_read_per_mtok.0;
    let p_store = prices.storage_per_mtok_hour.unwrap().0;
    let tau_hold = prices.tau_hold_hours().unwrap().0;

    let mut eng = Engine::new(prices.clone(), Config::default());

    // 782 blocks x 256 tokens = 200_192 tokens of shared prefix.
    let prefix: Vec<u64> = (0..782u64).map(|i| 0x9000_0000 + i).collect();
    let prefix_tokens: u64 = 782 * 256;
    let mtok = prefix_tokens as f64 / 1e6;

    let mut cost = 0.0;
    let mut cached_reads = 0u32;
    let mut creates = 0u32;
    let mut deletes = 0u32;
    let mut storage_open: Option<(f64, u64)> = None;
    let mut delete_time: Option<f64> = None;

    let handle_action = |a: &Action<F>,
                         now: f64,
                         cost: &mut f64,
                         creates: &mut u32,
                         deletes: &mut u32,
                         storage_open: &mut Option<(f64, u64)>,
                         delete_time: &mut Option<f64>| {
        match *a {
            Action::Create { tokens, .. } | Action::PreCreate { tokens, .. } => {
                *creates += 1;
                *cost += tokens as f64 / 1e6 * p_in; // creation bills tokens once
                *storage_open = Some((now, tokens));
            }
            Action::Delete { .. } => {
                *deletes += 1;
                if let Some((t0, tokens)) = storage_open.take() {
                    *cost += (now - t0) * (tokens as f64 / 1e6) * p_store;
                }
                *delete_time = Some(now);
            }
            Action::Extend { .. } => {} // storage accrues create -> delete
        }
    };

    // 10 hours in 1-minute ticks; a request every 5 minutes during the first 8.
    for m in 0..=600u32 {
        let now = m as f64 / 60.0;
        if m % 5 == 0 && m < 480 {
            let mut blocks = prefix.clone();
            blocks.push(0xdead_beef + m as u64); // unique per-request suffix
            let obs = eng.observe(&blocks, F(now));
            let ct = obs.cached_tokens.min(prefix_tokens);
            if ct > 0 {
                cached_reads += 1;
            }
            cost += ct as f64 / 1e6 * p_read + (prefix_tokens - ct) as f64 / 1e6 * p_in;
            for a in &obs.actions {
                if let Action::Create { node, .. } = a {
                    eng.confirm_create(*node, F(now)); // instantly-successful adapter
                }
                handle_action(
                    a,
                    now,
                    &mut cost,
                    &mut creates,
                    &mut deletes,
                    &mut storage_open,
                    &mut delete_time,
                );
            }
        }
        for a in eng.tick(F(now)) {
            handle_action(
                &a,
                now,
                &mut cost,
                &mut creates,
                &mut deletes,
                &mut storage_open,
                &mut delete_time,
            );
        }
    }

    assert_eq!(creates, 1, "one cache creation for the day");
    assert_eq!(deletes, 1, "one end-of-day deletion");
    assert!(cached_reads >= 90, "cached reads: {cached_reads}");

    // Ski-rental exit: deletion lands within a tick of tau_hold after the last
    // hit (last request at minute 475).
    let last_hit = 475.0 / 60.0;
    let dt = delete_time.unwrap();
    assert!(
        dt >= last_hit + tau_hold - 1e-9 && dt <= last_hit + tau_hold + 2.0 / 60.0,
        "deleted at {dt:.4}h, expected ~{:.4}h",
        last_hit + tau_hold
    );

    // Cost comparison against the reference policies.
    let no_cache = 96.0 * mtok * p_in; // about $38.44
    let hold_24h = mtok * p_in + 96.0 * mtok * p_read + 24.0 * mtok * p_store; // about $25.86
    assert!(
        cost < 14.0,
        "PCOE day cost ${cost:.2} should be near the doc's $11.84 (+ warmup)"
    );
    assert!(
        cost < hold_24h,
        "must beat cache-everything (${hold_24h:.2})"
    );
    assert!(
        cost < 0.4 * no_cache,
        "must save >60% vs no caching (${no_cache:.2})"
    );
}

// The command line.

fn args(words: &[&str]) -> Vec<String> {
    words.iter().map(|w| w.to_string()).collect()
}

#[test]
fn commands_are_named() {
    assert_eq!(command("gen"), Ok(Command::Gen));
    assert_eq!(command("run"), Ok(Command::Run));
    assert_eq!(command("scenarios"), Ok(Command::Scenarios));
    for h in ["-h", "--help", "help"] {
        assert_eq!(command(h), Ok(Command::Help));
    }
    assert_eq!(command("go"), Err("unknown command 'go'".to_string()));
}

#[test]
fn options_have_defaults_and_take_values() {
    let o = parse_opts(&[]).unwrap();
    let defaults = Opts {
        trace: None,
        scenario: None,
        out: None,
        provider: "gemini".to_string(),
        seed: 42,
        days: 7,
    };
    assert_eq!(o, defaults);
    let o = parse_opts(&args(&[
        "bursty", "--seed", "9", "--days", "3", "--out", "f", "--trace", "t", "--provider", "x",
    ]))
    .unwrap();
    assert_eq!(
        o,
        Opts {
            trace: Some("t".to_string()),
            scenario: Some("bursty".to_string()),
            out: Some("f".to_string()),
            provider: "x".to_string(),
            seed: 9,
            days: 3,
        }
    );
    let o = parse_opts(&args(&["--scenario", "a", "--scenario", "b"])).unwrap();
    assert_eq!(o.scenario.as_deref(), Some("b"));
}

#[test]
fn faulty_options_are_refused() {
    let wrong = |words: &[&str]| parse_opts(&args(words)).unwrap_err();
    assert_eq!(wrong(&["--seed"]), "--seed requires a value");
    assert_eq!(wrong(&["--seed", "x"]), "bad --seed: invalid digit found in string");
    assert_eq!(wrong(&["--days", ""]), "bad --days: cannot parse integer from empty string");
    assert_eq!(wrong(&["a", "b"]), "unknown option 'b'");
    assert_eq!(wrong(&["--what"]), "unknown option '--what'");
}

#[test]
fn providers_and_scenarios_are_named() {
    assert_eq!(price_sheet::<F>("gemini").unwrap().input_per_mtok, F(2.0));
    assert_eq!(
        price_sheet::<F>("acme").unwrap_err(),
        "unknown provider 'acme' (only 'gemini' has a storage-metered simulation; Anthropic \
         caching is write-premium — use the library's plan() API)"
    );
    for s in ["business-day", "bursty", "multi-tenant"] {
        assert!(!generate::<F>(s, 1, 1).unwrap().is_empty());
    }
    assert_eq!(
        generate::<F>("nightly", 1, 1).unwrap_err(),
        "unknown scenario 'nightly' (see `pcoe-sim scenarios`)"
    );
}

#[test]
fn a_run_reads_a_trace_before_a_scenario() {
    let o = parse_opts(&args(&["--trace", "t", "--scenario", "s"])).unwrap();
    let source = run_source(&o).unwrap();
    assert_eq!(source, Source::Trace("t".to_string()));
    assert_eq!(run_label(&source, 7, 42), "trace t");
    let o = parse_opts(&args(&["bursty", "--days", "3"])).unwrap();
    let source = run_source(&o).unwrap();
    assert_eq!(run_label(&source, o.days, o.seed), "scenario bursty (3 days, seed 42)");
    assert_eq!(gen_scenario(&o).unwrap(), "bursty");
    let o = parse_opts(&[]).unwrap();
    assert_eq!(run_source(&o).unwrap_err(), "run requires --trace FILE or --scenario NAME");
    assert_eq!(
        gen_scenario(&o).unwrap_err(),
        "gen requires a scenario name (see `pcoe-sim scenarios`)"
    );
    assert_eq!(check_events::<F>(&Vec::new()).unwrap_err(), "trace is empty");
    assert_eq!(check_events(&at(&[0.0])), Ok(()));
}

#[test]
fn the_report_leaves_out_what_does_not_apply() {
    let trace = at(&[0.0, 0.1, 0.2, 0.3, 0.4]);
    let cmp = compare(&trace, &gemini(), &Config::default());
    let (rows, verdict) = report(&cmp).unwrap();
    assert_eq!(rows.len(), 5);
    assert_eq!(rows[0].saved, None);
    assert_eq!(rows[0].ops, None);
    assert_eq!(rows[0].hits, Some(F(0.0)));
    assert_eq!(rows[1].ops, Some((1, 0, 0)));
    assert_eq!(rows[1].hits, Some(F(0.8 * 100.0)));
    assert!(rows[3].marked && !rows[4].marked);
    assert_eq!(rows[4].hits, None);
    assert_eq!(rows[4].ops, None);
    assert_eq!(verdict.no_cache, rows[0].cost);
    assert_eq!(verdict.every, rows[1].cost);
    assert_eq!(verdict.pcoe, rows[3].cost);
    assert_eq!(Some(verdict.vs_no_cache), rows[3].saved);
    assert_eq!(verdict.ratio, cmp.competitive_ratio());
    assert!(report::<F>(&Comparison { reports: Vec::new() }).is_none());
}

#[test]
fn policies_and_savings_are_named() {
    assert_eq!(policy_name(Policy::<F>::NoCache), PolicyName::Plain("no caching"));
    assert_eq!(policy_name(Policy::<F>::CacheEverything), PolicyName::Plain("cache-everything"));
    assert_eq!(policy_name(Policy::<F>::Pcoe), PolicyName::Plain("PCOE"));
    assert_eq!(policy_name(Policy::<F>::ReferenceOracle), PolicyName::Plain("offline oracle"));
    assert_eq!(policy_name(Policy::StaticTtl(F(0.5))), PolicyName::StaticTtl { minutes: F(30.0) });
    assert_eq!(split_savings(F(69.0)), (true, F(69.0)));
    assert_eq!(split_savings(F(-8.0)), (false, F(8.0)));
}
