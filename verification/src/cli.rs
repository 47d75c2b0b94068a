//! What the `pcoe-sim` command line means, and what its report holds.
//!
//! The program around this module reads files, prints, and turns numbers into
//! text; what is asked for, whether it makes sense and what goes where in the
//! report is decided here.
use vstd::prelude::*;

use crate::number::Real;
use crate::price::{gemini_prices, PriceSheet};
use crate::sim::{report_of, ratio_of, Comparison, Policy, Report};
use crate::text::{chars_of, joined, parse_u64, push_u64, same_text, u64_of, numeral, IntFault};
use crate::trace::workload::{
    business, bursty, family_base, family_fits, in_order, tenant_by_tenant,
};
use crate::trace::{arrivals, business_hours, multi_tenant, poisson_bursty, Arrival, Event};

pub mod laws;

verus! {

/// A command of the program.
#[derive(Clone, Copy, Debug, PartialEq, Eq, Structural)]
pub enum Command {
    /// Generate a trace.
    Gen,
    /// Replay a trace and report.
    Run,
    /// List the scenarios.
    Scenarios,
    /// Show the usage.
    Help,
}

/// The command that a word names.
pub open spec fn command_of(word: Seq<char>) -> Option<Command> {
    if word == "gen"@ {
        Some(Command::Gen)
    } else if word == "run"@ {
        Some(Command::Run)
    } else if word == "scenarios"@ {
        Some(Command::Scenarios)
    } else if word == "-h"@ || word == "--help"@ || word == "help"@ {
        Some(Command::Help)
    } else {
        None
    }
}

/// The command that a word names; the wording of the fault, without the usage,
/// where it names none.
pub fn command(word: &str) -> (r: Result<Command, String>)
    ensures
        match r {
            Ok(c) => command_of(word@) == Some(c),
            Err(m) => command_of(word@) is None && m@ == "unknown command '"@ + word@ + "'"@,
        },
{
    if same_text(word, "gen") {
        Ok(Command::Gen)
    } else if same_text(word, "run") {
        Ok(Command::Run)
    } else if same_text(word, "scenarios") {
        Ok(Command::Scenarios)
    } else if same_text(word, "-h") || same_text(word, "--help") || same_text(word, "help") {
        Ok(Command::Help)
    } else {
        Err(quoted("unknown command '", word, "'"))
    }
}

/// Three texts joined.
fn quoted(before: &str, word: &str, after: &str) -> (r: String)
    ensures
        r@ == before@ + word@ + after@,
{
    let mut out = joined(before, word);
    out.append(after);
    out
}

/// The options of a command.
#[derive(Clone, Debug, PartialEq)]
pub struct Opts {
    /// The captured trace to replay.
    pub trace: Option<String>,
    /// The synthetic scenario.
    pub scenario: Option<String>,
    /// Where to write a generated trace.
    pub out: Option<String>,
    /// The provider.
    pub provider: String,
    /// PRNG seed for synthetic generation.
    pub seed: u64,
    /// Number of days to simulate.
    pub days: u64,
}

/// What options say.
#[verifier::ext_equal]
pub struct Settings {
    pub trace: Option<Seq<char>>,
    pub scenario: Option<Seq<char>>,
    pub out: Option<Seq<char>>,
    pub provider: Seq<char>,
    pub seed: u64,
    pub days: u64,
}

/// What an optional text says.
pub open spec fn said(o: Option<String>) -> Option<Seq<char>> {
    match o {
        Some(s) => Some(s@),
        None => None,
    }
}

impl Opts {
    pub open spec fn view(&self) -> Settings {
        Settings {
            trace: said(self.trace),
            scenario: said(self.scenario),
            out: said(self.out),
            provider: self.provider@,
            seed: self.seed,
            days: self.days,
        }
    }
}

/// An option that takes a value.
#[derive(Clone, Copy, Debug, PartialEq, Eq, Structural)]
pub enum Flag {
    /// `--trace`
    Trace,
    /// `--scenario`
    Scenario,
    /// `--out`
    Out,
    /// `--provider`
    Provider,
    /// `--seed`
    Seed,
    /// `--days`
    Days,
}

/// The option that a word names.
pub open spec fn flag_of(word: Seq<char>) -> Option<Flag> {
    if word == "--trace"@ {
        Some(Flag::Trace)
    } else if word == "--scenario"@ {
        Some(Flag::Scenario)
    } else if word == "--out"@ {
        Some(Flag::Out)
    } else if word == "--provider"@ {
        Some(Flag::Provider)
    } else if word == "--seed"@ {
        Some(Flag::Seed)
    } else if word == "--days"@ {
        Some(Flag::Days)
    } else {
        None
    }
}

fn flag(word: &str) -> (r: Option<Flag>)
    ensures
        r == flag_of(word@),
{
    if same_text(word, "--trace") {
        Some(Flag::Trace)
    } else if same_text(word, "--scenario") {
        Some(Flag::Scenario)
    } else if same_text(word, "--out") {
        Some(Flag::Out)
    } else if same_text(word, "--provider") {
        Some(Flag::Provider)
    } else if same_text(word, "--seed") {
        Some(Flag::Seed)
    } else if same_text(word, "--days") {
        Some(Flag::Days)
    } else {
        None
    }
}

impl Settings {
    /// What holds where nothing is said.
    pub open spec fn defaults() -> Self {
        Settings {
            trace: None,
            scenario: None,
            out: None,
            provider: "gemini"@,
            seed: 42,
            days: 7,
        }
    }

    /// With an option set to a value.
    pub open spec fn set(self, flag: Flag, value: Seq<char>) -> Result<Self, Seq<char>> {
        match flag {
            Flag::Trace => Ok(Settings { trace: Some(value), ..self }),
            Flag::Scenario => Ok(Settings { scenario: Some(value), ..self }),
            Flag::Out => Ok(Settings { out: Some(value), ..self }),
            Flag::Provider => Ok(Settings { provider: value, ..self }),
            Flag::Seed => match u64_of(value) {
                Ok(n) => Ok(Settings { seed: n, ..self }),
                Err(f) => Err("bad --seed: "@ + f.wording()),
            },
            Flag::Days => match u64_of(value) {
                Ok(n) => Ok(Settings { days: n, ..self }),
                Err(f) => Err("bad --days: "@ + f.wording()),
            },
        }
    }

    /// With the options from the word `i` on; the first fault decides.
    pub open spec fn read(self, words: Seq<Seq<char>>, i: int) -> Result<Self, Seq<char>>
        decreases words.len() - i,
    {
        if i >= words.len() {
            Ok(self)
        } else {
            match flag_of(words[i]) {
                None => Err("unknown option '"@ + words[i] + "'"@),
                Some(flag) => if i + 1 >= words.len() {
                    Err(words[i] + " requires a value"@)
                } else {
                    match self.set(flag, words[i + 1]) {
                        Ok(s) => s.read(words, i + 2),
                        Err(e) => Err(e),
                    }
                },
            }
        }
    }
}

/// Whether a word is an option by its looks.
pub open spec fn dashed(word: Seq<char>) -> bool {
    word.len() >= 2 && word[0] == '-' && word[1] == '-'
}

/// What words say: a first one that is no option is the scenario.
pub open spec fn settings_of(words: Seq<Seq<char>>) -> Result<Settings, Seq<char>> {
    if words.len() > 0 && !dashed(words[0]) {
        (Settings { scenario: Some(words[0]), ..Settings::defaults() }).read(words, 1)
    } else {
        Settings::defaults().read(words, 0)
    }
}

/// What the arguments say.
pub open spec fn words_of(args: Seq<String>) -> Seq<Seq<char>> {
    args.map_values(|s: String| s@)
}

fn is_dashed(word: &str) -> (r: bool)
    ensures
        r == dashed(word@),
{
    let w = chars_of(word);
    w.len() >= 2 && w[0] == '-' && w[1] == '-'
}

/// Reads a number, or says what is wrong with it.
fn number(text: &str, fault: &str) -> (r: Result<u64, String>)
    ensures
        match r {
            Ok(n) => u64_of(text@) == Ok::<u64, IntFault>(n),
            Err(m) => u64_of(text@) is Err && m@ == fault@ + (u64_of(text@)->Err_0).wording(),
        },
{
    let w = chars_of(text);
    assert(w@.subrange(0, w@.len() as int) =~= text@);
    match parse_u64(&w, 0, w.len()) {
        Ok(n) => Ok(n),
        Err(f) => Err(joined(fault, f.message())),
    }
}

impl Opts {
    /// Sets an option.
    fn set(&mut self, flag: Flag, value: &String) -> (r: Result<(), String>)
        ensures
            match r {
                Ok(_) => old(self)@.set(flag, value@) == Ok::<Settings, Seq<char>>(final(self)@),
                Err(m) => old(self)@.set(flag, value@) == Err::<Settings, Seq<char>>(m@),
            },
    {
        match flag {
            Flag::Trace => {
                self.trace = Some(value.clone());
            },
            Flag::Scenario => {
                self.scenario = Some(value.clone());
            },
            Flag::Out => {
                self.out = Some(value.clone());
            },
            Flag::Provider => {
                self.provider = value.clone();
            },
            Flag::Seed => match number(value.as_str(), "bad --seed: ") {
                Ok(n) => {
                    self.seed = n;
                },
                Err(m) => {
                    return Err(m);
                },
            },
            Flag::Days => match number(value.as_str(), "bad --days: ") {
                Ok(n) => {
                    self.days = n;
                },
                Err(m) => {
                    return Err(m);
                },
            },
        }
        Ok(())
    }
}

/// Reads the options of a command.
pub fn parse_opts(args: &[String]) -> (r: Result<Opts, String>)
    ensures
        match r {
            Ok(o) => settings_of(words_of(args@)) == Ok::<Settings, Seq<char>>(o@),
            Err(m) => settings_of(words_of(args@)) == Err::<Settings, Seq<char>>(m@),
        },
{
    let ghost words = words_of(args@);
    let total: usize = args.len();
    let mut o = Opts {
        trace: None,
        scenario: None,
        out: None,
        provider: "gemini".to_string(),
        seed: 42,
        days: 7,
    };
    let mut i: usize = 0;
    // A bare first positional is a scenario name (for `gen <scenario>`).
    if i < total && !is_dashed(args[i].as_str()) {
        assert(words[0] == args@[0]@);
        o.scenario = Some(args[i].clone());
        i = i + 1;
    }
    assert(total > 0 ==> words[0] == args@[0]@);
    assert(settings_of(words) == o@.read(words, i as int));
    while i < total
        invariant
            i <= total,
            total == args@.len(),
            words == words_of(args@),
            settings_of(words) == o@.read(words, i as int),
        decreases total - i,
    {
        assert(words[i as int] == args@[i as int]@);
        match flag(args[i].as_str()) {
            None => {
                return Err(quoted("unknown option '", args[i].as_str(), "'"));
            },
            Some(f) => {
                if total - i < 2 {
                    return Err(joined(args[i].as_str(), " requires a value"));
                }
                assert(words[i + 1] == args@[i + 1]@);
                match o.set(f, &args[i + 1]) {
                    Ok(_) => {},
                    Err(m) => {
                        return Err(m);
                    },
                }
                i = i + 2;
            },
        }
    }
    Ok(o)
}

/// The price sheet of a provider with a storage-metered simulation.
pub fn price_sheet<R: Real>(provider: &str) -> (r: Result<PriceSheet<R>, String>)
    ensures
        match r {
            Ok(p) => provider@ == "gemini"@ && p@ == gemini_prices::<R>(),
            Err(m) => provider@ != "gemini"@ && m@ == "unknown provider '"@ + provider@
                + "' (only 'gemini' has a storage-metered simulation; Anthropic caching is write-premium — use the library's plan() API)"@,
        },
{
    if same_text(provider, "gemini") {
        Ok(PriceSheet::gemini_pro_like())
    } else {
        Err(
            quoted(
                "unknown provider '",
                provider,
                "' (only 'gemini' has a storage-metered simulation; Anthropic caching is write-premium — use the library's plan() API)",
            ),
        )
    }
}

/// The requests of a scenario.
pub open spec fn scenario_events<R: Real>(name: Seq<char>, seed: u64, days: u64) -> Option<
    Seq<Arrival<R>>,
> {
    if name == "business-day"@ {
        // A prefix of about 200K tokens, 12 requests an hour from 9 to 17.
        Some(business(782, R::int_of(12), R::int_of(9), R::int_of(17), days, 256, seed))
    } else if name == "bursty"@ {
        // A prefix of about 100K tokens, 60 or 2 requests an hour in phases of
        // an hour.
        Some(
            bursty(
                390,
                R::int_of(60),
                R::int_of(2),
                R::int_of(1),
                R::int_of(days).prod(R::int_of(24)),
                256,
                seed,
            ),
        )
    } else if name == "multi-tenant"@ {
        // Twelve tenants, prefixes of about 100K tokens, staggered days of 8
        // hours.
        Some(
            in_order(
                tenant_by_tenant(12, 12, 390, R::int_of(15), R::int_of(8), days, 256, seed),
            ),
        )
    } else {
        None
    }
}

/// The prefixes of the scenarios fit.
proof fn scenario_prefixes_fit()
    ensures
        family_fits(0, 782),
        family_fits(0, 390),
        forall|id: u64| 1 <= id <= 12 ==> #[trigger] family_fits(id, 390),
{
    assert(family_base(0) == 0x1_0000_0000);
    assert forall|id: u64| 1 <= id <= 12 implies #[trigger] family_fits(id, 390) by {
        assert(family_base(id) == 0x1_0000_0000 * (id + 1));
    }
}

/// Generates the trace of a scenario.
pub fn generate<R: Real>(scenario: &str, seed: u64, days: u64) -> (r: Result<
    Vec<Event<R>>,
    String,
>)
    ensures
        match r {
            Ok(events) => scenario_events::<R>(scenario@, seed, days) == Some(
                arrivals(events@),
            ),
            Err(m) => scenario_events::<R>(scenario@, seed, days) is None && m@
                == "unknown scenario '"@ + scenario@ + "' (see `pcoe-sim scenarios`)"@,
        },
{
    proof {
        scenario_prefixes_fit();
    }
    let block_tokens: u64 = 256;
    if same_text(scenario, "business-day") {
        Ok(
            business_hours(
                782,
                R::from_int(12),
                R::from_int(9),
                R::from_int(17),
                days,
                block_tokens,
                seed,
            ),
        )
    } else if same_text(scenario, "bursty") {
        Ok(
            poisson_bursty(
                390,
                R::from_int(60),
                R::from_int(2),
                R::from_int(1),
                R::from_int(days).times(R::from_int(24)),
                block_tokens,
                seed,
            ),
        )
    } else if same_text(scenario, "multi-tenant") {
        Ok(multi_tenant(12, 390, R::from_int(15), R::from_int(8), days, block_tokens, seed))
    } else {
        Err(quoted("unknown scenario '", scenario, "' (see `pcoe-sim scenarios`)"))
    }
}

/// Where the requests of a run come from.
#[derive(Clone, Debug, PartialEq)]
pub enum Source {
    /// A captured trace in a file.
    Trace(String),
    /// A synthetic scenario.
    Scenario(String),
}

/// Where the requests of a run come from: a captured trace before a scenario.
pub fn run_source(o: &Opts) -> (r: Result<Source, String>)
    ensures
        match r {
            Ok(Source::Trace(path)) => o@.trace == Some(path@),
            Ok(Source::Scenario(name)) => o@.trace is None && o@.scenario == Some(name@),
            Err(m) => o@.trace is None && o@.scenario is None && m@
                == "run requires --trace FILE or --scenario NAME"@,
        },
{
    match &o.trace {
        Some(path) => Ok(Source::Trace(path.clone())),
        None => match &o.scenario {
            Some(name) => Ok(Source::Scenario(name.clone())),
            None => Err("run requires --trace FILE or --scenario NAME".to_string()),
        },
    }
}

/// The scenario to generate.
pub fn gen_scenario(o: &Opts) -> (r: Result<String, String>)
    ensures
        match r {
            Ok(name) => o@.scenario == Some(name@),
            Err(m) => o@.scenario is None && m@
                == "gen requires a scenario name (see `pcoe-sim scenarios`)"@,
        },
{
    match &o.scenario {
        Some(name) => Ok(name.clone()),
        None => Err("gen requires a scenario name (see `pcoe-sim scenarios`)".to_string()),
    }
}

/// The heading of a run.
pub open spec fn label_of(source: Source, days: u64, seed: u64) -> Seq<char> {
    match source {
        Source::Trace(path) => "trace "@ + path@,
        Source::Scenario(name) => "scenario "@ + name@ + " ("@ + numeral(days as nat)
            + " days, seed "@ + numeral(seed as nat) + ")"@,
    }
}

/// The heading of a run.
pub fn run_label(source: &Source, days: u64, seed: u64) -> (r: String)
    ensures
        r@ == label_of(*source, days, seed),
{
    match source {
        Source::Trace(path) => joined("trace ", path.as_str()),
        Source::Scenario(name) => {
            let mut out = quoted("scenario ", name.as_str(), " (");
            push_u64(&mut out, days);
            out.append(" days, seed ");
            push_u64(&mut out, seed);
            out.append(")");
            out
        },
    }
}

/// A trace to replay holds a request.
pub fn check_events<R: Real>(events: &Vec<Event<R>>) -> (r: Result<(), String>)
    ensures
        match r {
            Ok(_) => events@.len() > 0,
            Err(m) => events@.len() == 0 && m@ == "trace is empty"@,
        },
{
    if events.len() == 0 {
        Err("trace is empty".to_string())
    } else {
        Ok(())
    }
}

/// A percentage saved, split for display: whether the policy is cheaper, and by
/// how much, so that one that costs *more* than the baseline reads clearly
/// instead of rendering a double-minus.
pub fn split_savings<R: Real>(pct: R) -> (r: (bool, R))
    ensures
        r == if R::int_of(0).at_most(pct) {
            (true, pct)
        } else {
            (false, pct.negated())
        },
{
    if R::from_int(0).is_le(pct) {
        (true, pct)
    } else {
        (false, pct.neg())
    }
}

/// The name of a policy; that of a static TTL has its minutes in it.
#[derive(Clone, Copy, Debug, PartialEq)]
pub enum PolicyName<R> {
    /// A name as it stands.
    Plain(&'static str),
    /// A static TTL of so many minutes.
    StaticTtl {
        /// The idle time in minutes.
        minutes: R,
    },
}

/// The name of a policy.
pub fn policy_name<R: Real>(p: Policy<R>) -> (r: PolicyName<R>)
    ensures
        match p {
            Policy::NoCache => r is Plain && r->Plain_0@ == "no caching"@,
            Policy::CacheEverything => r is Plain && r->Plain_0@ == "cache-everything"@,
            Policy::StaticTtl(h) => r == (PolicyName::StaticTtl {
                minutes: h.prod(R::int_of(60)),
            }),
            Policy::Pcoe => r is Plain && r->Plain_0@ == "PCOE"@,
            Policy::ReferenceOracle => r is Plain && r->Plain_0@ == "offline oracle"@,
        },
{
    match p {
        Policy::NoCache => PolicyName::Plain("no caching"),
        Policy::CacheEverything => PolicyName::Plain("cache-everything"),
        Policy::StaticTtl(h) => PolicyName::StaticTtl { minutes: h.times(R::from_int(60)) },
        Policy::Pcoe => PolicyName::Plain("PCOE"),
        Policy::ReferenceOracle => PolicyName::Plain("offline oracle"),
    }
}

/// One line of the report: the cells that do not apply to a policy are empty.
#[derive(Clone, Copy, Debug)]
pub struct Row<R> {
    /// The policy.
    pub policy: Policy<R>,
    /// What it spent.
    pub cost: R,
    /// What it saved against no caching, percent.
    pub saved: Option<R>,
    /// Its hit rate, percent.
    pub hits: Option<R>,
    /// How often it created, extended and deleted.
    pub ops: Option<(u64, u64, u64)>,
    /// Whether the line is marked.
    pub marked: bool,
}

/// The line of a policy's report.
pub open spec fn row_of<R: Real>(p: Policy<R>, r: Report<R>, no_cache: Report<R>) -> Row<R> {
    Row {
        policy: p,
        cost: r.total_cost,
        saved: if p is NoCache {
            None
        } else {
            Some(r.saved(no_cache))
        },
        hits: if p is ReferenceOracle {
            None
        } else {
            Some(r.hits().prod(R::int_of(100)))
        },
        ops: if p is NoCache || p is ReferenceOracle {
            None
        } else {
            Some((r.creates, r.extends, r.deletes))
        },
        marked: p is Pcoe,
    }
}

/// What the report closes with: the engine against no caching, caching
/// everything and hindsight.
#[derive(Clone, Copy, Debug)]
pub struct Verdict<R> {
    /// What no caching spent.
    pub no_cache: R,
    /// What caching everything spent.
    pub every: R,
    /// What the engine spent.
    pub pcoe: R,
    /// What the engine saved against no caching, percent.
    pub vs_no_cache: R,
    /// What the engine saved against caching everything, percent.
    pub vs_every: R,
    /// The competitive ratio.
    pub ratio: Option<R>,
}

/// The lines of a comparison, in its order.
pub open spec fn rows_of<R: Real>(reports: Seq<(Policy<R>, Report<R>)>, no_cache: Report<R>) -> Seq<
    Row<R>,
> {
    reports.map_values(|x: (Policy<R>, Report<R>)| row_of(x.0, x.1, no_cache))
}

/// Whether a comparison holds the policies that the report speaks of.
pub open spec fn reportable<R: Real>(reports: Seq<(Policy<R>, Report<R>)>) -> bool {
    &&& report_of(reports, Policy::NoCache) is Some
    &&& report_of(reports, Policy::CacheEverything) is Some
    &&& report_of(reports, Policy::Pcoe) is Some
}

/// The lines and the verdict of a comparison; `None` where it lacks a policy
/// that the report speaks of.
pub fn report<R: Real>(all: &Comparison<R>) -> (r: Option<(Vec<Row<R>>, Verdict<R>)>)
    ensures
        match r {
            Some((rows, v)) => {
                let no_cache = report_of(all.reports@, Policy::NoCache)->0;
                let every = report_of(all.reports@, Policy::CacheEverything)->0;
                let pcoe = report_of(all.reports@, Policy::Pcoe)->0;
                &&& reportable(all.reports@)
                &&& rows@ == rows_of(all.reports@, no_cache)
                &&& v == (Verdict {
                    no_cache: no_cache.total_cost,
                    every: every.total_cost,
                    pcoe: pcoe.total_cost,
                    vs_no_cache: pcoe.saved(no_cache),
                    vs_every: pcoe.saved(every),
                    ratio: ratio_of(all.reports@),
                })
            },
            None => !reportable(all.reports@),
        },
{
    let (no_cache, every, pcoe) = match (
        all.get(Policy::NoCache),
        all.get(Policy::CacheEverything),
        all.get(Policy::Pcoe),
    ) {
        (Some(a), Some(b), Some(c)) => (a, b, c),
        _ => {
            return None;
        },
    };
    let mut rows: Vec<Row<R>> = Vec::new();
    let mut i: usize = 0;
    while i < all.reports.len()
        invariant
            i <= all.reports.len(),
            rows@ == rows_of(all.reports@, *no_cache).take(i as int),
        decreases all.reports.len() - i,
    {
        let (p, r) = all.reports[i];
        let none = matches!(p, Policy::NoCache);
        let oracle = matches!(p, Policy::ReferenceOracle);
        rows.push(
            Row {
                policy: p,
                cost: r.total_cost,
                saved: if none {
                    None
                } else {
                    Some(r.savings_vs(no_cache))
                },
                hits: if oracle {
                    None
                } else {
                    Some(r.hit_rate().times(R::from_int(100)))
                },
                ops: if none || oracle {
                    None
                } else {
                    Some((r.creates, r.extends, r.deletes))
                },
                marked: matches!(p, Policy::Pcoe),
            },
        );
        i = i + 1;
        assert(rows@ =~= rows_of(all.reports@, *no_cache).take(i as int));
    }
    assert(rows@ =~= rows_of(all.reports@, *no_cache));
    let verdict = Verdict {
        no_cache: no_cache.total_cost,
        every: every.total_cost,
        pcoe: pcoe.total_cost,
        vs_no_cache: pcoe.savings_vs(no_cache),
        vs_every: pcoe.savings_vs(every),
        ratio: all.competitive_ratio(),
    };
    Some((rows, verdict))
}

} // verus!
