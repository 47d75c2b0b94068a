//! The decimal numbers that come with the library.
use llm_cache::fixed::Fixed;
use llm_cache::number::Real;
use llm_cache::plan::{cost_rate, plan_breakpoints, savings_rate};
use llm_cache::sim::{replay, Policy};
use llm_cache::trace::{business_hours, Event, Rng};
use llm_cache::trie::NodeStats;
use llm_cache::{Action, Config, Engine, NodeId, PrefixTrie, PriceSheet};

fn n(units: i64) -> Fixed {
    Fixed { units }
}

#[test]
fn arithmetic_is_decimal() {
    let half = Fixed::from_int(1).over(Fixed::from_int(2));
    assert_eq!(half, n(500_000_000));
    assert_eq!(half.plus(half), Fixed::from_int(1));
    assert_eq!(half.times(half), n(250_000_000));
    assert_eq!(Fixed::from_int(7).modulo(Fixed::from_int(4)), Fixed::from_int(3));
    assert_eq!(half.minus(Fixed::from_int(1)), half.neg());
    assert_eq!(n(1_500_000_001).ceil_u64(), 2);
    assert_eq!(half.neg().ceil_u64(), 0);
    assert_eq!(Fixed::infinity().plus(half), Fixed::infinity());
}

#[test]
fn exponential_and_logarithm_agree_with_the_tables() {
    assert_eq!(n(-1_000_000_000).exp(), n(367_879_441));
    let y = n(500_000_000).ln();
    assert!((y.units + 693_147_181).abs() < 5, "{:?}", y);
}

#[test]
fn numbers_read_back_from_their_text() {
    for units in [0, 1, -1, 444_444_444, i64::MAX, i64::MIN] {
        let mut s = String::new();
        n(units).write(&mut s);
        assert_eq!(Fixed::read(&s), Ok(n(units)));
    }
}

#[test]
fn the_engine_runs_on_decimals() {
    let mut eng: Engine<Fixed> = Engine::new(PriceSheet::gemini_pro_like(), Config::default());
    let blocks: Vec<u64> = (0..20).collect();
    let mut created = Vec::new();
    for i in 0..7u64 {
        let now = Fixed::from_int(5 * i).over(Fixed::from_int(60));
        for a in eng.observe(&blocks, now).actions {
            if let Action::Create { node, tokens, ttl_hours } = a {
                eng.confirm_create(node, now);
                created.push((tokens, ttl_hours));
            }
        }
    }
    assert_eq!(created, vec![(5120, n(444_444_444))]);
    assert_eq!(eng.cached_nodes().len(), 1);
}

#[test]
fn events_round_trip_on_decimals() {
    let e = Event { time_hours: n(-250_000_000), total_tokens: 7, blocks: vec![u64::MAX, 0] };
    assert_eq!(Event::parse_line(&e.to_line()), Ok(Some(e)));
}

/// The least cost of the requests from `from` on, over every way to pay for each
/// or to hold a cache over a run of them.
fn least(times: &[i64], from: usize, input: i64, read: i64, rate: i64) -> i64 {
    if from == times.len() {
        return 0;
    }
    let stored = |t: i64| n(rate).times(n(t)).units;
    let mut best = input + least(times, from + 1, input, read, rate);
    for to in from..times.len() {
        let held = stored(times[to]) - stored(times[from]);
        let stay = input + read * (to - from + 1) as i64 + held;
        best = best.min(stay + least(times, to + 1, input, read, rate));
    }
    best
}

#[test]
fn hindsight_costs_the_least_of_all_ways() {
    let prices: PriceSheet<Fixed> = PriceSheet::gemini_pro_like();
    let m = n(5_120_000); // 5120 tokens in millions
    let minutes = [0u64, 2, 5, 31, 80, 84, 200, 201, 260, 262];
    let times: Vec<i64> = minutes
        .iter()
        .map(|&t| Fixed::from_int(t).over(Fixed::from_int(60)).units)
        .collect();
    let trace: Vec<Event<Fixed>> = times
        .iter()
        .map(|&t| Event { time_hours: n(t), total_tokens: 5120, blocks: (0..20).collect() })
        .collect();
    let r = replay(&trace, &prices, &Config::default(), Policy::ReferenceOracle);
    let input = m.times(prices.input_per_mtok).units;
    let read = m.times(prices.cached_read_per_mtok).units;
    let rate = m.times(prices.storage_per_mtok_hour.unwrap()).units;
    assert_eq!(r.total_cost.units, least(&times, 0, input, read, rate));
    assert!(r.total_cost.units < input * times.len() as i64);
}

#[test]
fn the_hold_grows_by_half_and_stays_within_its_bounds() {
    let mut eng: Engine<Fixed> = Engine::new(PriceSheet::gemini_pro_like(), Config::default());
    let blocks: Vec<u64> = (0..20).collect();
    let at = |m: u64| Fixed::from_int(m).over(Fixed::from_int(60));
    let mut node = None;
    for m in 0..60u64 {
        if m % 5 == 0 && m <= 20 {
            for a in eng.observe(&blocks, at(m)).actions {
                if let Action::Create { node: id, .. } = a {
                    eng.confirm_create(id, at(m));
                    node = Some(id);
                }
            }
        }
        eng.tick(at(m));
    }
    let id = node.unwrap();
    assert!(eng.cached_nodes().is_empty());
    eng.observe(&blocks, at(61));
    assert_eq!(eng.trie().node(id).hold_hint, n(666_666_666));
    assert!(eng.trie().node(id).hold_hint.units <= 844_444_444);
}

#[test]
fn the_hold_rule_costs_at_most_twice_hindsight() {
    let prices: PriceSheet<Fixed> = PriceSheet::gemini_pro_like();
    let tau = prices.tau_hold_hours().unwrap().units as i128;
    let rent = prices.storage_per_mtok_hour.unwrap().units as i128;
    let buy = prices.input_per_mtok.units as i128 * 1_000_000_000;
    assert_eq!(tau, 444_444_444);
    for gap in [0, 1, tau - 1, tau, tau + 1, 2 * tau, 1_000_000_000_000] {
        let paid = if gap <= tau { gap * rent } else { tau * rent + buy };
        assert!(paid <= 2 * (gap * rent).min(buy), "{gap}");
    }
    // The bound is met just past the hold.
    let paid = tau * rent + buy;
    assert!(paid > 2 * buy - rent);
}

/// What a set of cache points nets below `id`, and the rate that its highest
/// members cover.
fn worth(
    t: &PrefixTrie<Fixed>,
    prices: &PriceSheet<Fixed>,
    set: &[NodeId],
    id: NodeId,
    now: Fixed,
) -> (i64, Fixed) {
    let mut net = 0;
    let mut cover = n(0);
    for kid in t.children_sorted(id) {
        let (w, c) = worth(t, prices, set, kid, now);
        net += w;
        cover = cover.plus(c);
    }
    if !set.contains(&id) {
        return (net, cover);
    }
    let stats = &t.node(id).stats;
    let rate = stats.decayed_lambda(now, t.tau_decay);
    let left = rate.minus(cover).max_with(n(0));
    let cost = cost_rate(prices, t.tokens(id), stats, now, t.tau_decay).0;
    (net + savings_rate(prices, t.tokens(id), left).units - cost.units, rate)
}

#[test]
fn no_set_of_cache_points_beats_the_plan() {
    let prices = PriceSheet {
        input_per_mtok: Fixed::from_int(3),
        cached_read_per_mtok: n(300_000_000),
        storage_per_mtok_hour: Some(Fixed::from_int(4)),
        write_tiers: Vec::new(),
        min_cacheable_tokens: 1000,
        max_breakpoints: 3,
    };
    let mut rng = Rng::new(11);
    for _ in 0..40 {
        let mut t = PrefixTrie::new(100_000, Fixed::from_int(1), 1000);
        let mut nodes: Vec<NodeId> = Vec::new();
        for _ in 0..12 {
            let len = 1 + rng.next_u64() % 3;
            let blocks: Vec<u64> = (0..len).map(|_| rng.next_u64() % 2).collect();
            for id in t.observe_path(&blocks, n(0)) {
                if !nodes.contains(&id) {
                    nodes.push(id);
                }
            }
        }
        let one = Fixed::from_int(1);
        let picks = plan_breakpoints(&t, &prices, n(0), one, one);
        let total: i64 = picks.iter().map(|p| p.net_per_hour.units).sum();
        let placed: Vec<NodeId> = picks.iter().map(|p| p.node).collect();
        let root = PrefixTrie::<Fixed>::ROOT;
        assert_eq!(worth(&t, &prices, &placed, root, n(0)).0, total);
        for mask in 0u32..1 << nodes.len() {
            if mask.count_ones() <= 3 {
                let set: Vec<NodeId> = (0..nodes.len())
                    .filter(|&i| mask >> i & 1 == 1)
                    .map(|i| nodes[i])
                    .collect();
                assert!(worth(&t, &prices, &set, root, n(0)).0 <= total + 15 * 4);
            }
        }
    }
}

#[test]
fn rates_and_times_nest_on_decimals() {
    let mut t = PrefixTrie::new(256, Fixed::from_int(2), 1000);
    let mut rng = Rng::new(5);
    let mut now = n(0);
    let mut path = Vec::new();
    for _ in 0..200 {
        now = now.plus(n((rng.next_u64() % 700_000_000) as i64));
        let depth = 1 + (rng.next_u64() % 4) as usize;
        let p = t.observe_path(&[1, 2, 3, 4][..depth], now);
        if p.len() > path.len() {
            path = p;
        }
    }
    assert_eq!(path.len(), 4);
    for w in path.windows(2) {
        let (up, down) = (&t.node(w[0]).stats, &t.node(w[1]).stats);
        assert!(down.t_last.units <= up.t_last.units);
        let (a, b) = (up.decayed_lambda(now, t.tau_decay), down.decayed_lambda(now, t.tau_decay));
        assert!(b.units <= a.units + 1_000, "{a:?} {b:?}");
    }
}

#[test]
fn gap_shares_fall_from_everything_to_nothing() {
    let mut s: NodeStats<Fixed> = NodeStats::new();
    assert_eq!(s.gap_fraction_gt(n(0)), n(0));
    s.gap_mass = [Fixed::from_int(2), Fixed::from_int(5), Fixed::from_int(1)];
    assert_eq!(s.gap_fraction_gt(n(0)), n(1_000_000_000));
    assert_eq!(s.gap_fraction_gt(n(1)), n(750_000_000));
    assert_eq!(s.gap_fraction_gt(n(83_333_333)), n(750_000_000));
    assert_eq!(s.gap_fraction_gt(n(83_333_334)), n(125_000_000));
    assert_eq!(s.gap_fraction_gt(n(1_000_000_000)), n(125_000_000));
    assert_eq!(s.gap_fraction_gt(n(1_000_000_001)), n(0));
}

#[test]
fn business_hours_are_kept_on_decimals() {
    let hour = |h: u64| Fixed::from_int(h);
    let ev = business_hours(3, hour(12), hour(9), hour(17), 4, 256, 42);
    assert!(ev.len() > 4 * 8 * 8);
    for e in &ev {
        let of_day = e.time_hours.modulo(hour(24));
        assert!(of_day.units >= hour(9).units && of_day.units < hour(17).units, "{e:?}");
    }
    // The same prefix begins a longer one.
    let longer = business_hours(5, hour(12), hour(9), hour(17), 1, 256, 42);
    assert_eq!(ev[0].blocks[..3], longer[0].blocks[..3]);
}

#[test]
fn hindsight_spends_no_more_than_fixed_rules() {
    let hour = |h: u64| Fixed::from_int(h);
    let prices: PriceSheet<Fixed> = PriceSheet::gemini_pro_like();
    let cfg = Config::default();
    for seed in [1, 2, 3] {
        let trace = business_hours(20, hour(6), hour(9), hour(17), 3, 256, seed);
        let least = replay(&trace, &prices, &cfg, Policy::ReferenceOracle).total_cost.units;
        let slack = trace.len() as i64 * (4 + 3);
        let mut rules = vec![Policy::NoCache, Policy::CacheEverything];
        for minutes in [0, 5, 20, 27, 60, 600] {
            rules.push(Policy::StaticTtl(hour(minutes).over(hour(60))));
        }
        for p in rules {
            let spent = replay(&trace, &prices, &cfg, p).total_cost.units;
            assert!(least <= spent + slack, "{p:?}");
        }
    }
}

#[test]
fn decay_in_two_steps_is_near_decay_at_once() {
    let mut rng = Rng::new(3);
    for _ in 0..2000 {
        let a = (rng.next_u64() % 3_000_000_000) as i64;
        let b = (rng.next_u64() % 3_000_000_000) as i64;
        let once = n(-(a + b)).exp().units;
        let twice = n(-a).exp().times(n(-b).exp()).units;
        assert!(once <= twice + 11, "{a} {b}");
    }
    assert_eq!(n(0).exp(), n(1_000_000_000));
    assert_eq!(n(-2_000_000_000).exp(), n(135_335_283));
    assert_eq!(n(i64::MIN).exp(), n(0));
    assert!(n(1_000_000_000).ln().units.abs() < 5);
    assert!(n(1_000_000_000).ln().units <= 0);
}

#[test]
fn plain_decimals_are_read() {
    let read = |s: &str| Fixed::read(s).map(|v| v.units);
    assert_eq!(read("1.25"), Ok(1_250_000_000));
    assert_eq!(read("-0.5"), Ok(-500_000_000));
    assert_eq!(read("+3"), Ok(3_000_000_000));
    assert_eq!(read(".5"), Ok(500_000_000));
    assert_eq!(read("7."), Ok(7_000_000_000));
    assert_eq!(read("2.5e2"), Ok(250_000_000_000));
    assert_eq!(read("25E-3"), Ok(25_000_000));
    assert_eq!(read("1e+1"), Ok(10_000_000_000));
    // Rounded down to a billionth, and held to the range.
    assert_eq!(read("0.0833333333333"), Ok(83_333_333));
    assert_eq!(read("-0.0000000001"), Ok(-1));
    assert_eq!(read("1e-99999999999999999999999999999999999999999"), Ok(0));
    assert_eq!(read("0e99999999999999999999999999999999999999999"), Ok(0));
    assert_eq!(read("1e400"), Ok(i64::MAX));
    assert_eq!(read("-99999999999999999999"), Ok(i64::MIN));
    assert_eq!(read("inf"), Ok(i64::MAX));
    assert_eq!(read("-Infinity"), Ok(i64::MIN));
    for bad in ["abc", ".", "-", "1.2.3", "1e", "1e+", "1 ", "--1", "e5", "0x1", "nan"] {
        assert_eq!(read(bad), Err("invalid float literal".to_string()), "{bad}");
    }
    assert_eq!(read(""), Err("cannot parse float from empty string".to_string()));
    let e = Event { time_hours: n(1_250_000_000), total_tokens: 7, blocks: vec![1, 2] };
    assert_eq!(Event::parse_line("1.25\t7\t1,2"), Ok(Some(e)));
    assert_eq!(
        Event::<Fixed>::parse_line("x\t7\t1,2"),
        Err("bad time: invalid float literal".to_string())
    );
}

#[test]
fn decimals_are_written_plainly() {
    let text = |units: i64| {
        let mut s = String::new();
        n(units).write(&mut s);
        s
    };
    assert_eq!(text(1_250_000_000), "1.25");
    assert_eq!(text(-500_000_000), "-0.5");
    assert_eq!(text(9_000_000_000), "9");
    assert_eq!(text(1), "0.000000001");
    assert_eq!(text(0), "0");
    assert_eq!(text(i64::MAX), "inf");
    assert_eq!(text(i64::MIN), "-inf");
}

#[test]
fn children_add_up_to_no_more_than_their_parent() {
    let mut t = PrefixTrie::new(256, Fixed::from_int(2), 1000);
    let mut rng = Rng::new(9);
    let mut now = n(0);
    for _ in 0..300 {
        now = now.plus(n((rng.next_u64() % 300_000_000) as i64));
        t.observe_path(&[1, rng.next_u64() % 5], now);
    }
    let top = t.peek_path(&[1])[0];
    let rate = |id: NodeId| t.node(id).stats.decayed_lambda(now, t.tau_decay).units;
    let kids: i64 = t.children_sorted(top).into_iter().map(rate).sum();
    assert_eq!(t.children_sorted(top).len(), 5);
    assert!(kids <= rate(top) + 1_000, "{kids} {}", rate(top));
    assert!(kids >= rate(top) - 10_000);
}
