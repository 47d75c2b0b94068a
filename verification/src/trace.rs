//! Traffic traces: the input to the ROI simulator ([`crate::sim`]).
//!
//! A trace is a time-ordered list of [`Event`]s, each a request reduced to its
//! block-hash path plus token count: **no prompt content** (the same
//! privacy-safe telemetry the engine consumes, so a real trace can be captured
//! from production and replayed without exposing prompts).
//!
//! ## Wire format
//!
//! One event per line, tab-separated: `time_hours \t total_tokens \t h1,h2,...`
//! (block hashes comma-separated; empty block list allowed). Lines beginning
//! with `#` and blank lines are ignored. Parsing is dependency-free and
//! lossless round-trips via [`Event::to_line`] / [`Event::parse_line`]
//! ([`laws::line_reads_back`], [`laws::trace_reads_back`]).
//!
//! ## Synthetic workloads
//!
//! When you don't yet have a captured trace, the generators in [`workload`]
//! produce the canonical shapes the engine targets (a business-day office
//! pattern, bursty Poisson arrivals, and a multi-tenant fleet) with a
//! deterministic seeded PRNG so runs are reproducible.
use vstd::prelude::*;

use crate::number::Real;
use crate::text::{chars_of, joined, numeral, parse_u64, push_u64, string_of, white, IntFault};

pub mod format;
pub mod laws;
pub mod workload;

pub use crate::trace::workload::{business_hours, multi_tenant, poisson_bursty, Rng};
use crate::trace::format::{
    cut, hashes_of, hashes_text, line_of, lines_of, parsed_line, parsed_text, trimmed, with_note,
    HEADER,
};

verus! {

/// One request in a trace.
#[derive(Clone, Debug, PartialEq)]
pub struct Event<R> {
    /// Arrival time, hours on an arbitrary monotonic clock.
    pub time_hours: R,
    /// Total input tokens of the request (shared prefix + unique suffix).
    pub total_tokens: u64,
    /// Block-hash path of the prompt (see [`crate::chunk`]).
    pub blocks: Vec<u64>,
}

/// What an event says.
#[verifier::ext_equal]
pub struct Arrival<R> {
    pub time_hours: R,
    pub total_tokens: u64,
    pub blocks: Seq<u64>,
}

/// What the events of a trace say.
pub open spec fn arrivals<R: Real>(events: Seq<Event<R>>) -> Seq<Arrival<R>> {
    events.map_values(|e: Event<R>| e@)
}

impl<R: Real> Event<R> {
    pub open spec fn view(&self) -> Arrival<R> {
        Arrival {
            time_hours: self.time_hours,
            total_tokens: self.total_tokens,
            blocks: self.blocks@,
        }
    }

    /// Appends the wire line to `out`.
    fn push_line(&self, out: &mut String)
        ensures
            final(out)@ == old(out)@ + line_of(self@),
    {
        let ghost start = out@;
        self.time_hours.write(out);
        out.push('\t');
        push_u64(out, self.total_tokens);
        out.push('\t');
        let ghost head = out@;
        let mut i: usize = 0;
        assert(head + hashes_text(self.blocks@.take(0)) =~= head);
        while i < self.blocks.len()
            invariant
                i <= self.blocks.len(),
                out@ == head + hashes_text(self.blocks@.take(i as int)),
            decreases self.blocks.len() - i,
        {
            let ghost before = self.blocks@.take(i as int);
            if i > 0 {
                out.push(',');
            }
            push_u64(out, self.blocks[i]);
            assert(self.blocks@.take(i + 1).drop_last() =~= before);
            i = i + 1;
            assert(out@ =~= head + hashes_text(self.blocks@.take(i as int)));
        }
        assert(self.blocks@.take(i as int) =~= self.blocks@);
        assert(out@ =~= start + line_of(self@));
    }

    /// Serialize to one wire line (no trailing newline).
    pub fn to_line(&self) -> (r: String)
        ensures
            r@ == line_of(self@),
    {
        let mut out = String::new();
        self.push_line(&mut out);
        assert(out@ =~= line_of(self@));
        out
    }

    /// Parse one wire line. Returns `None` for blank/comment lines, `Err` for
    /// malformed data lines.
    pub fn parse_line(line: &str) -> (r: Result<Option<Event<R>>, String>)
        ensures
            match r {
                Ok(Some(e)) => parsed_line::<R>(line@) == Ok::<_, Seq<char>>(Some(e@)),
                Ok(None) => parsed_line::<R>(line@) == Ok::<Option<Arrival<R>>, Seq<char>>(None),
                Err(m) => parsed_line::<R>(line@) == Err::<Option<Arrival<R>>, _>(m@),
            },
    {
        let s = chars_of(line);
        let r = Self::parse_range(&s, 0, s.len());
        assert(s@.subrange(0, s@.len() as int) =~= line@);
        r
    }

    /// Parses the characters `from..to` of `s` as one wire line.
    fn parse_range(s: &Vec<char>, from: usize, to: usize) -> (r: Result<
        Option<Event<R>>,
        String,
    >)
        requires
            from <= to <= s@.len(),
        ensures
            ({
                let line = s@.subrange(from as int, to as int);
                match r {
                    Ok(Some(e)) => parsed_line::<R>(line) == Ok::<_, Seq<char>>(Some(e@)),
                    Ok(None) => parsed_line::<R>(line) == Ok::<Option<Arrival<R>>, Seq<char>>(
                        None,
                    ),
                    Err(m) => parsed_line::<R>(line) == Err::<Option<Arrival<R>>, _>(m@),
                }
            }),
    {
        let end: usize = trim_end(s, from, to);
        let ghost line = s@.subrange(from as int, end as int);
        if from == end || s[from] == '#' {
            return Ok(None);
        }
        let i: usize = find(s, from, end, '\t');
        assert(s@.subrange(from as int, i as int) =~= line.take(i - from));
        let time = match R::read(string_of(s, from, i).as_str()) {
            Ok(t) => t,
            Err(e) => {
                return Err(joined("bad time: ", e.as_str()));
            },
        };
        if i == end {
            return Err("missing total_tokens".to_string());
        }
        let ghost rest = line.skip(i - from + 1);
        assert(s@.subrange(i + 1, end as int) =~= rest);
        let j: usize = find(s, i + 1, end, '\t');
        assert(s@.subrange(i + 1, j as int) =~= rest.take(j - (i + 1)));
        let total: u64 = match parse_u64(s, i + 1, j) {
            Ok(n) => n,
            Err(f) => {
                return Err(joined("bad total_tokens: ", f.message()));
            },
        };
        if j == end {
            return Ok(
                Some(Event { time_hours: time, total_tokens: total, blocks: Vec::new() }),
            );
        }
        let ghost tail = rest.skip(j - (i + 1) + 1);
        assert(s@.subrange(j + 1, end as int) =~= tail);
        let k: usize = find(s, j + 1, end, '\t');
        assert(s@.subrange(j + 1, k as int) =~= tail.take(k - (j + 1)));
        if j + 1 == k {
            return Ok(
                Some(Event { time_hours: time, total_tokens: total, blocks: Vec::new() }),
            );
        }
        match parse_hashes(s, j + 1, k) {
            Ok(blocks) => Ok(Some(Event { time_hours: time, total_tokens: total, blocks })),
            Err(f) => Err(joined("bad block hash: ", f.message())),
        }
    }
}

/// The end of the characters `from..to` of `s` without trailing white space.
fn trim_end(s: &Vec<char>, from: usize, to: usize) -> (end: usize)
    requires
        from <= to <= s@.len(),
    ensures
        from <= end <= to,
        s@.subrange(from as int, end as int) == trimmed(s@.subrange(from as int, to as int)),
{
    let mut end: usize = to;
    while end > from && white(s[end - 1])
        invariant
            from <= end <= to <= s@.len(),
            trimmed(s@.subrange(from as int, end as int)) == trimmed(
                s@.subrange(from as int, to as int),
            ),
        decreases end,
    {
        assert(s@.subrange(from as int, end as int).drop_last() =~= s@.subrange(
            from as int,
            end - 1,
        ));
        end = end - 1;
    }
    end
}

/// The place of the first `c` among the characters `from..to` of `s`; `to`
/// where there is none.
fn find(s: &Vec<char>, from: usize, to: usize, c: char) -> (at: usize)
    requires
        from <= to <= s@.len(),
    ensures
        from <= at <= to,
        at - from == cut(s@.subrange(from as int, to as int), c),
{
    let mut at: usize = from;
    while at < to && s[at] != c
        invariant
            from <= at <= to <= s@.len(),
            cut(s@.subrange(from as int, to as int), c) == at - from + cut(
                s@.subrange(at as int, to as int),
                c,
            ),
        decreases to - at,
    {
        assert(s@.subrange(at as int, to as int).drop_first() =~= s@.subrange(
            at + 1,
            to as int,
        ));
        at = at + 1;
    }
    at
}

/// Reads the comma-separated hashes `from..to` of `s`.
fn parse_hashes(s: &Vec<char>, from: usize, to: usize) -> (r: Result<Vec<u64>, IntFault>)
    requires
        from <= to <= s@.len(),
    ensures
        match r {
            Ok(v) => hashes_of(s@.subrange(from as int, to as int)) == Ok::<_, IntFault>(v@),
            Err(f) => hashes_of(s@.subrange(from as int, to as int)) == Err::<Seq<u64>, _>(f),
        },
{
    let ghost all = s@.subrange(from as int, to as int);
    let mut out: Vec<u64> = Vec::new();
    let mut at: usize = from;
    proof {
        match hashes_of(all) {
            Ok(v) => assert(Seq::<u64>::empty() + v =~= v),
            Err(f) => {},
        }
    }
    loop
        invariant
            from <= at <= to <= s@.len(),
            all == s@.subrange(from as int, to as int),
            hashes_of(all) == with_note(out@, hashes_of(s@.subrange(at as int, to as int))),
        decreases to - at,
    {
        let ghost rest = s@.subrange(at as int, to as int);
        let end: usize = find(s, at, to, ',');
        assert(s@.subrange(at as int, end as int) =~= rest.take(end - at));
        let ghost before = out@;
        match parse_u64(s, at, end) {
            Ok(h) => out.push(h),
            Err(f) => {
                return Err(f);
            },
        }
        if end == to {
            assert(before + seq![out@.last()] =~= out@);
            return Ok(out);
        }
        assert(rest.skip(end - at + 1) =~= s@.subrange(end + 1, to as int));
        at = end + 1;
        proof {
            match hashes_of(s@.subrange(at as int, to as int)) {
                Ok(v) => assert(before + (seq![out@.last()] + v) =~= out@ + v),
                Err(f) => {},
            }
        }
    }
}

/// Serialize a whole trace to the wire format (one event per line).
pub fn to_string<R: Real>(events: &[Event<R>]) -> (r: String)
    ensures
        r@ == HEADER@.push('\n') + lines_of(arrivals(events@)),
{
    let mut out = String::new();
    out.append(HEADER);
    out.push('\n');
    let ghost head = out@;
    assert(head =~= HEADER@.push('\n'));
    let mut i: usize = 0;
    assert(arrivals(events@).take(0) =~= Seq::empty());
    assert(head + lines_of(arrivals(events@).take(0)) =~= head);
    while i < events.len()
        invariant
            i <= events.len(),
            out@ == head + lines_of(arrivals(events@).take(i as int)),
        decreases events.len() - i,
    {
        assert(arrivals(events@).take(i + 1).drop_last() =~= arrivals(events@).take(i as int));
        assert(arrivals(events@)[i as int] == events@[i as int]@);
        events[i].push_line(&mut out);
        out.push('\n');
        i = i + 1;
        assert(out@ =~= head + lines_of(arrivals(events@).take(i as int)));
    }
    assert(arrivals(events@).take(i as int) =~= arrivals(events@));
    out
}

/// Parse a whole trace from the wire format.
pub fn from_str<R: Real>(text: &str) -> (r: Result<Vec<Event<R>>, String>)
    ensures
        match r {
            Ok(events) => parsed_text::<R>(text@, 1) == Ok::<_, Seq<char>>(arrivals(events@)),
            Err(m) => parsed_text::<R>(text@, 1) == Err::<Seq<Arrival<R>>, _>(m@),
        },
{
    let s = chars_of(text);
    let mut out: Vec<Event<R>> = Vec::new();
    let mut at: usize = 0;
    let mut n: u64 = 1;
    assert(s@.subrange(0, s@.len() as int) =~= text@);
    proof {
        match parsed_text::<R>(text@, 1) {
            Ok(v) => assert(arrivals(out@) + v =~= v),
            Err(m) => {},
        }
    }
    while at < s.len()
        invariant
            at <= s.len(),
            n <= at + 1,
            s@.len() <= usize::MAX,
            parsed_text::<R>(text@, 1) == with_note(
                arrivals(out@),
                parsed_text::<R>(s@.subrange(at as int, s@.len() as int), n as nat),
            ),
        decreases s.len() - at,
    {
        let ghost rest = s@.subrange(at as int, s@.len() as int);
        let end: usize = find(&s, at, s.len(), '\n');
        assert(s@.subrange(at as int, end as int) =~= rest.take(end - at));
        let ghost before = arrivals(out@);
        match Event::parse_range(&s, at, end) {
            Ok(Some(e)) => {
                out.push(e);
                assert(arrivals(out@) =~= before.push(e@));
            },
            Ok(None) => {},
            Err(e) => {
                let mut m = String::new();
                m.append("line ");
                push_u64(&mut m, n);
                m.append(": ");
                m.append(e.as_str());
                assert(m@ =~= "line "@ + numeral(n as nat) + ": "@ + e@);
                return Err(m);
            },
        }
        if end == s.len() {
            proof {
                assert(arrivals(out@) + Seq::<Arrival<R>>::empty() =~= arrivals(out@));
                assert(s@.subrange(end as int, s@.len() as int) =~= Seq::empty());
                if arrivals(out@).len() > before.len() {
                    assert(before + (seq![arrivals(out@).last()] + Seq::<Arrival<R>>::empty())
                        =~= arrivals(out@));
                }
            }
            at = end;
        } else {
            assert(rest.skip(end - at + 1) =~= s@.subrange(end + 1, s@.len() as int));
            at = end + 1;
            proof {
                match parsed_text::<R>(s@.subrange(at as int, s@.len() as int), (n + 1) as nat) {
                    Ok(v) => if arrivals(out@).len() > before.len() {
                        assert(before + (seq![arrivals(out@).last()] + v) =~= arrivals(out@) + v);
                    },
                    Err(m) => {},
                }
            }
        }
        if at < s.len() {
            n = n + 1;
        } else {
            return Ok(out);
        }
    }
    proof {
        assert(s@.subrange(at as int, s@.len() as int) =~= Seq::empty());
        assert(arrivals(out@) + Seq::<Arrival<R>>::empty() =~= arrivals(out@));
    }
    Ok(out)
}

} // verus!
