//! The wire format of traces: what is written, and what a text says.
use vstd::prelude::*;

use crate::number::Real;
use crate::text::{is_white, numeral, u64_of, IntFault};
use crate::trace::Arrival;

verus! {

/// The line that opens a trace, a comment.
pub const HEADER: &'static str = "# pcoe trace v1: time_hours<TAB>total_tokens<TAB>block_hashes";

/// Block hashes in decimal, with commas between.
pub open spec fn hashes_text(blocks: Seq<u64>) -> Seq<char>
    decreases blocks.len(),
{
    if blocks.len() == 0 {
        Seq::empty()
    } else {
        let before = hashes_text(blocks.drop_last());
        let last = numeral(blocks.last() as nat);
        if blocks.len() == 1 {
            last
        } else {
            before.push(',') + last
        }
    }
}

/// The line of an event.
pub open spec fn line_of<R: Real>(a: Arrival<R>) -> Seq<char> {
    a.time_hours.text_of().push('\t') + numeral(a.total_tokens as nat).push('\t') + hashes_text(
        a.blocks,
    )
}

/// The lines of events, each with its end.
pub open spec fn lines_of<R: Real>(events: Seq<Arrival<R>>) -> Seq<char>
    decreases events.len(),
{
    if events.len() == 0 {
        Seq::empty()
    } else {
        lines_of(events.drop_last()) + line_of(events.last()).push('\n')
    }
}

/// The place of the first `c` in a text; its length where there is none.
pub open spec fn cut(s: Seq<char>, c: char) -> int
    decreases s.len(),
{
    if s.len() == 0 || s[0] == c {
        0
    } else {
        1 + cut(s.drop_first(), c)
    }
}

/// A text without trailing white space.
pub open spec fn trimmed(s: Seq<char>) -> Seq<char>
    decreases s.len(),
{
    if s.len() > 0 && is_white(s.last()) {
        trimmed(s.drop_last())
    } else {
        s
    }
}

/// What was read before joined with what follows, unless that is at fault.
pub open spec fn with_note<A, E>(before: Seq<A>, after: Result<Seq<A>, E>) -> Result<Seq<A>, E> {
    match after {
        Ok(v) => Ok(before + v),
        Err(e) => Err(e),
    }
}

/// The hashes that a comma-separated text denotes; the first fault decides.
pub open spec fn hashes_of(s: Seq<char>) -> Result<Seq<u64>, IntFault>
    decreases s.len(),
{
    let i = cut(s, ',');
    match u64_of(s.take(i)) {
        Err(f) => Err(f),
        Ok(h) => if i < 0 || i >= s.len() {
            Ok(seq![h])
        } else {
            with_note(seq![h], hashes_of(s.skip(i + 1)))
        },
    }
}

/// What a line says: nothing where it is blank or a comment, an event where it
/// is well formed, or what is wrong with it.
pub open spec fn parsed_line<R: Real>(line: Seq<char>) -> Result<Option<Arrival<R>>, Seq<char>> {
    let s = trimmed(line);
    if s.len() == 0 || s[0] == '#' {
        Ok(None)
    } else {
        let i = cut(s, '\t');
        match R::read_of(s.take(i)) {
            Err(e) => Err("bad time: "@ + e),
            Ok(time) => if i >= s.len() {
                Err("missing total_tokens"@)
            } else {
                parsed_tail(time, s.skip(i + 1))
            },
        }
    }
}

/// What the rest of a line says behind its time.
pub open spec fn parsed_tail<R: Real>(time: R, s: Seq<char>) -> Result<
    Option<Arrival<R>>,
    Seq<char>,
> {
    let j = cut(s, '\t');
    match u64_of(s.take(j)) {
        Err(f) => Err("bad total_tokens: "@ + f.wording()),
        Ok(total) => {
            let rest = if j >= s.len() {
                Seq::empty()
            } else {
                s.skip(j + 1)
            };
            let field = rest.take(cut(rest, '\t'));
            if field.len() == 0 {
                Ok(
                    Some(
                        Arrival { time_hours: time, total_tokens: total, blocks: Seq::empty() },
                    ),
                )
            } else {
                match hashes_of(field) {
                    Err(f) => Err("bad block hash: "@ + f.wording()),
                    Ok(blocks) => Ok(
                        Some(Arrival { time_hours: time, total_tokens: total, blocks }),
                    ),
                }
            }
        },
    }
}

/// What a text says whose first line is the line `n`: the events of its lines,
/// or what is wrong with the first malformed one.
pub open spec fn parsed_text<R: Real>(s: Seq<char>, n: nat) -> Result<Seq<Arrival<R>>, Seq<char>>
    decreases s.len(),
{
    if s.len() == 0 {
        Ok(Seq::empty())
    } else {
        let i = cut(s, '\n');
        let rest = if i < 0 || i >= s.len() {
            Seq::empty()
        } else {
            s.skip(i + 1)
        };
        match parsed_line::<R>(s.take(i)) {
            Err(e) => Err("line "@ + numeral(n) + ": "@ + e),
            Ok(None) => parsed_text(rest, n + 1),
            Ok(Some(a)) => with_note(seq![a], parsed_text(rest, n + 1)),
        }
    }
}

} // verus!
