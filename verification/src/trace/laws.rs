//! What holds of every trace on the wire.
use vstd::prelude::*;

use crate::number::Real;
use crate::text::{
    is_digit, is_white, numeral, numeral_is_digits, numeral_reads_back, u64_of, IntFault,
};
use crate::trace::format::{
    cut, hashes_of, hashes_text, line_of, lines_of, parsed_line, parsed_tail, parsed_text, trimmed,
    HEADER,
};
use crate::trace::Arrival;

verus! {

/// Whether `c` does not occur in a text.
pub open spec fn lacks(s: Seq<char>, c: char) -> bool {
    forall|i: int| 0 <= i < s.len() ==> #[trigger] s[i] != c
}

/// A text is cut at its end where the character does not occur.
proof fn cut_nowhere(s: Seq<char>, c: char)
    requires
        lacks(s, c),
    ensures
        cut(s, c) == s.len(),
    decreases s.len(),
{
    if s.len() > 0 {
        assert forall|i: int| 0 <= i < s.drop_first().len() implies #[trigger] s.drop_first()[i]
            != c by {
            assert(s[i + 1] != c);
        }
        assert(s[0] != c);
        cut_nowhere(s.drop_first(), c);
    }
}

/// A text is cut at the first occurrence of the character.
proof fn cut_there(a: Seq<char>, c: char, b: Seq<char>)
    requires
        lacks(a, c),
    ensures
        cut(a.push(c) + b, c) == a.len(),
        (a.push(c) + b).take(a.len() as int) == a,
        (a.push(c) + b).skip((a.len() + 1) as int) == b,
    decreases a.len(),
{
    let s = a.push(c) + b;
    assert(s.take(a.len() as int) =~= a);
    assert(s.skip((a.len() + 1) as int) =~= b);
    if a.len() > 0 {
        let rest = a.drop_first();
        assert forall|i: int| 0 <= i < rest.len() implies #[trigger] rest[i] != c by {
            assert(a[i + 1] != c);
        }
        cut_there(rest, c, b);
        assert(s.drop_first() =~= rest.push(c) + b);
        assert(a[0] != c);
        assert(s[0] == a[0]);
    } else {
        assert(s[0] == c);
    }
}

/// What is left of a text that does not begin with white space begins the same.
proof fn trimmed_keeps_start(s: Seq<char>)
    requires
        s.len() > 0,
        !is_white(s[0]),
    ensures
        trimmed(s).len() > 0,
        trimmed(s)[0] == s[0],
    decreases s.len(),
{
    if is_white(s.last()) {
        assert(s.drop_last()[0] == s[0]);
        trimmed_keeps_start(s.drop_last());
    }
}

/// Hashes are written one after the other.
proof fn hashes_from_left(blocks: Seq<u64>)
    requires
        blocks.len() > 1,
    ensures
        hashes_text(blocks) == numeral(blocks[0] as nat).push(',') + hashes_text(
            blocks.drop_first(),
        ),
    decreases blocks.len(),
{
    let front = blocks.drop_last();
    let tail = blocks.drop_first();
    let last = numeral(blocks.last() as nat);
    assert(tail.last() == blocks.last());
    if blocks.len() == 2 {
        assert(hashes_text(front) == numeral(blocks[0] as nat));
        assert(hashes_text(tail) == last);
    } else {
        hashes_from_left(front);
        assert(front.drop_first() =~= tail.drop_last());
        assert(front[0] == blocks[0]);
        let head = numeral(blocks[0] as nat).push(',');
        let mid = hashes_text(front.drop_first());
        assert((head + mid).push(',') + last =~= head + (mid.push(',') + last));
    }
}

/// Hashes are written in digits and commas, and end in a digit.
proof fn hashes_are_plain(blocks: Seq<u64>)
    ensures
        forall|i: int|
            0 <= i < hashes_text(blocks).len() ==> is_digit(#[trigger] hashes_text(blocks)[i])
                || hashes_text(blocks)[i] == ',',
        blocks.len() > 0 ==> hashes_text(blocks).len() > 0 && is_digit(hashes_text(blocks).last()),
    decreases blocks.len(),
{
    if blocks.len() > 0 {
        hashes_are_plain(blocks.drop_last());
        numeral_is_digits(blocks.last() as nat);
        let last = numeral(blocks.last() as nat);
        let all = hashes_text(blocks);
        assert(is_digit(last[last.len() - 1]));
        assert(all[all.len() - 1] == last[last.len() - 1]);
        let before = hashes_text(blocks.drop_last());
        assert forall|i: int| 0 <= i < all.len() implies is_digit(#[trigger] all[i]) || all[i]
            == ',' by {
            if blocks.len() == 1 {
                assert(all[i] == last[i]);
            } else if i < before.len() {
                assert(all[i] == before[i]);
            } else if i > before.len() {
                assert(all[i] == last[i - before.len() - 1]);
            }
        }
    }
}

/// Hashes read back from their text.
proof fn hashes_read_back(blocks: Seq<u64>)
    requires
        blocks.len() > 0,
    ensures
        hashes_of(hashes_text(blocks)) == Ok::<Seq<u64>, crate::text::IntFault>(blocks),
    decreases blocks.len(),
{
    let first = numeral(blocks[0] as nat);
    numeral_is_digits(blocks[0] as nat);
    numeral_reads_back(blocks[0]);
    assert(lacks(first, ','));
    if blocks.len() == 1 {
        cut_nowhere(first, ',');
        assert(first.take(first.len() as int) =~= first);
        assert(seq![blocks[0]] =~= blocks);
    } else {
        let rest = blocks.drop_first();
        hashes_from_left(blocks);
        cut_there(first, ',', hashes_text(rest));
        hashes_read_back(rest);
        assert(seq![blocks[0]] + rest =~= blocks);
    }
}

/// An event reads back from its line: what is written says the same event,
/// whatever its time (that equals itself), token count and blocks.
pub proof fn line_reads_back<R: Real>(a: Arrival<R>)
    requires
        a.time_hours.same(a.time_hours),
    ensures
        parsed_line::<R>(line_of(a)) == Ok::<Option<Arrival<R>>, Seq<char>>(Some(a)),
{
    let time = a.time_hours.text_of();
    let total = numeral(a.total_tokens as nat);
    let hashes = hashes_text(a.blocks);
    R::text_reads_back(a.time_hours);
    R::text_is_word(a.time_hours);
    numeral_is_digits(a.total_tokens as nat);
    numeral_reads_back(a.total_tokens);
    hashes_are_plain(a.blocks);
    assert(lacks(time, '\t')) by {
        assert forall|i: int| 0 <= i < time.len() implies #[trigger] time[i] != '\t' by {
            assert(!is_white(time[i]));
        }
    }
    assert(lacks(total, '\t'));
    assert(lacks(hashes, '\t'));
    let line = line_of(a);
    let tail = total.push('\t') + hashes;
    assert(line =~= time.push('\t') + tail);
    assert(line[0] == time[0]);
    cut_there(time, '\t', tail);
    if a.blocks.len() > 0 {
        assert(line.last() == hashes.last());
        assert(trimmed(line) == line);
        cut_there(total, '\t', hashes);
        cut_nowhere(hashes, '\t');
        assert(hashes.take(hashes.len() as int) =~= hashes);
        hashes_read_back(a.blocks);
        assert(parsed_line::<R>(line) == parsed_tail(a.time_hours, tail));
    } else {
        let s = time.push('\t') + total;
        assert(hashes =~= Seq::empty());
        assert(line.drop_last() =~= s);
        assert(line.last() == '\t');
        assert(is_digit(total[total.len() - 1]));
        assert(s.last() == total[total.len() - 1]);
        assert(trimmed(s) == s);
        assert(trimmed(line) == s);
        cut_there(time, '\t', total);
        cut_nowhere(total, '\t');
        assert(total.take(total.len() as int) =~= total);
        assert(s[0] == time[0]);
        assert(parsed_line::<R>(line) == parsed_tail(a.time_hours, total));
        let none = Seq::<char>::empty();
        assert(none.take(cut(none, '\t')) =~= none);
        assert(a.blocks =~= Seq::empty());
    }
}

/// A line is one line.
proof fn line_has_no_end<R: Real>(a: Arrival<R>)
    ensures
        lacks(line_of(a), '\n'),
{
    let time = a.time_hours.text_of();
    let total = numeral(a.total_tokens as nat);
    let hashes = hashes_text(a.blocks);
    R::text_is_word(a.time_hours);
    numeral_is_digits(a.total_tokens as nat);
    hashes_are_plain(a.blocks);
    let line = line_of(a);
    assert forall|i: int| 0 <= i < line.len() implies #[trigger] line[i] != '\n' by {
        if i < time.len() {
            assert(line[i] == time[i]);
            assert(!is_white(time[i]));
        } else if i == time.len() {
        } else if i < time.len() + 1 + total.len() {
            assert(line[i] == total[i - time.len() - 1]);
        } else if i == time.len() + 1 + total.len() {
        } else {
            assert(line[i] == hashes[i - time.len() - total.len() - 2]);
        }
    }
}

/// Lines are written one after the other.
proof fn lines_from_left<R: Real>(events: Seq<Arrival<R>>)
    requires
        events.len() > 0,
    ensures
        lines_of(events) == line_of(events[0]).push('\n') + lines_of(events.drop_first()),
    decreases events.len(),
{
    let first = line_of(events[0]).push('\n');
    if events.len() == 1 {
        assert(lines_of(events.drop_last()) =~= Seq::empty());
        assert(lines_of(events.drop_first()) =~= Seq::empty());
        assert(lines_of(events) =~= first);
        assert(first + Seq::<char>::empty() =~= first);
    } else {
        let front = events.drop_last();
        let tail = events.drop_first();
        lines_from_left(front);
        assert(front.drop_first() =~= tail.drop_last());
        assert(tail.last() == events.last());
        let last = line_of(events.last()).push('\n');
        let mid = lines_of(tail.drop_last());
        assert((first + mid) + last =~= first + (mid + last));
    }
}

/// The lines of events say the events.
proof fn lines_read_back<R: Real>(events: Seq<Arrival<R>>, n: nat)
    requires
        forall|i: int|
            0 <= i < events.len() ==> (#[trigger] events[i]).time_hours.same(events[i].time_hours),
    ensures
        parsed_text::<R>(lines_of(events), n) == Ok::<Seq<Arrival<R>>, Seq<char>>(events),
    decreases events.len(),
{
    if events.len() == 0 {
        assert(events =~= Seq::empty());
    } else {
        let rest = events.drop_first();
        let line = line_of(events[0]);
        lines_from_left(events);
        line_has_no_end(events[0]);
        cut_there(line, '\n', lines_of(rest));
        line_reads_back(events[0]);
        assert forall|i: int| 0 <= i < rest.len() implies (#[trigger] rest[i]).time_hours.same(
            rest[i].time_hours,
        ) by {
            assert(rest[i] == events[i + 1]);
        }
        lines_read_back(rest, n + 1);
        assert(seq![events[0]] + rest =~= events);
    }
}

/// A line that is blank or a comment says nothing: what follows is read as if
/// the line were not there, but for the numbers of the lines.
pub proof fn quiet_lines_are_skipped<R: Real>(line: Seq<char>, rest: Seq<char>, n: nat)
    requires
        lacks(line, '\n'),
        trimmed(line).len() == 0 || trimmed(line)[0] == '#',
    ensures
        parsed_text::<R>(line.push('\n') + rest, n) == parsed_text::<R>(rest, n + 1),
{
    cut_there(line, '\n', rest);
}

/// A trace reads back from its text, whatever its events (whose times equal
/// themselves).
pub proof fn trace_reads_back<R: Real>(events: Seq<Arrival<R>>)
    requires
        forall|i: int|
            0 <= i < events.len() ==> (#[trigger] events[i]).time_hours.same(events[i].time_hours),
    ensures
        parsed_text::<R>(HEADER@.push('\n') + lines_of(events), 1) == Ok::<
            Seq<Arrival<R>>,
            Seq<char>,
        >(events),
{
    header_is_a_comment();
    trimmed_keeps_start(HEADER@);
    quiet_lines_are_skipped::<R>(HEADER@, lines_of(events), 1);
    lines_read_back(events, 2);
}

/// The header is one line, a comment.
proof fn header_is_a_comment()
    ensures
        HEADER@.len() > 0,
        HEADER@[0] == '#',
        lacks(HEADER@, '\n'),
{
    reveal_strlit("# pcoe trace v1: time_hours<TAB>total_tokens<TAB>block_hashes");
}

/// A line is read field by field, each up to a tab: the time as a number, the
/// tokens as an integer, and the hashes. A field that does not read decides, the
/// time before the tokens and these before the hashes, with the wording of what
/// is wrong with it. What follows a third tab is not read.
pub proof fn lines_are_read_by_field<R: Real>(
    time: Seq<char>,
    total: Seq<char>,
    hashes: Seq<char>,
    more: Seq<char>,
)
    requires
        lacks(time, '\t'),
        lacks(total, '\t'),
        lacks(hashes, '\t'),
        time.len() > 0,
        time[0] != '#',
        hashes.len() > 0,
        !is_white(hashes.last()),
        more.len() == 0 || more[0] == '\t' && !is_white(more.last()),
    ensures
        parsed_line::<R>(time.push('\t') + total.push('\t') + hashes + more) == match R::read_of(
            time,
        ) {
            Err(e) => Err::<Option<Arrival<R>>, Seq<char>>("bad time: "@ + e),
            Ok(t) => match u64_of(total) {
                Err(f) => Err("bad total_tokens: "@ + f.wording()),
                Ok(n) => match hashes_of(hashes) {
                    Err(f) => Err("bad block hash: "@ + f.wording()),
                    Ok(blocks) => Ok(
                        Some(Arrival { time_hours: t, total_tokens: n, blocks }),
                    ),
                },
            },
        },
{
    let rest = hashes + more;
    let tail = total.push('\t') + rest;
    let line = time.push('\t') + total.push('\t') + hashes + more;
    assert(line =~= time.push('\t') + tail);
    assert(!is_white(line.last())) by {
        if more.len() == 0 {
            assert(line.last() == hashes.last());
        } else {
            assert(line.last() == more.last());
        }
    }
    assert(trimmed(line) == line);
    assert(line[0] == time[0]);
    cut_there(time, '\t', tail);
    cut_there(total, '\t', rest);
    if more.len() == 0 {
        assert(rest =~= hashes);
        cut_nowhere(hashes, '\t');
    } else {
        assert(rest =~= hashes.push('\t') + more.drop_first());
        cut_there(hashes, '\t', more.drop_first());
    }
    assert(rest.take(hashes.len() as int) =~= hashes);
}

/// A line may end behind its tokens; it then has no hashes. One that ends behind
/// its time lacks its tokens.
pub proof fn lines_may_end_early<R: Real>(time: Seq<char>, total: Seq<char>)
    requires
        lacks(time, '\t'),
        lacks(total, '\t'),
        time.len() > 0,
        time[0] != '#',
        !is_white(time.last()),
        total.len() > 0,
        !is_white(total.last()),
    ensures
        parsed_line::<R>(time) == match R::read_of(time) {
            Err(e) => Err::<Option<Arrival<R>>, Seq<char>>("bad time: "@ + e),
            Ok(t) => Err("missing total_tokens"@),
        },
        parsed_line::<R>(time.push('\t') + total) == match R::read_of(time) {
            Err(e) => Err::<Option<Arrival<R>>, Seq<char>>("bad time: "@ + e),
            Ok(t) => match u64_of(total) {
                Err(f) => Err("bad total_tokens: "@ + f.wording()),
                Ok(n) => Ok(
                    Some(
                        Arrival { time_hours: t, total_tokens: n, blocks: Seq::empty() },
                    ),
                ),
            },
        },
{
    assert(trimmed(time) == time);
    cut_nowhere(time, '\t');
    assert(time.take(time.len() as int) =~= time);
    let line = time.push('\t') + total;
    assert(line.last() == total.last());
    assert(trimmed(line) == line);
    assert(line[0] == time[0]);
    cut_there(time, '\t', total);
    cut_nowhere(total, '\t');
    assert(total.take(total.len() as int) =~= total);
    let none = Seq::<char>::empty();
    assert(none.take(cut(none, '\t')) =~= none);
}

/// Hashes are read one by one, each up to a comma; the first that does not read
/// decides.
pub proof fn hashes_are_read_one_by_one(first: Seq<char>, rest: Seq<char>)
    requires
        lacks(first, ','),
    ensures
        hashes_of(first) == match u64_of(first) {
            Ok(h) => Ok::<Seq<u64>, IntFault>(seq![h]),
            Err(f) => Err(f),
        },
        hashes_of(first.push(',') + rest) == match u64_of(first) {
            Ok(h) => match hashes_of(rest) {
                Ok(more) => Ok::<Seq<u64>, IntFault>(seq![h] + more),
                Err(f) => Err(f),
            },
            Err(f) => Err(f),
        },
{
    cut_nowhere(first, ',');
    assert(first.take(first.len() as int) =~= first);
    cut_there(first, ',', rest);
}

} // verus!
