//! Characters and decimal numerals: the small text vocabulary of the trace
//! format and the command line.
use vstd::prelude::*;

verus! {

/// Appends one character to the end of a string, as `String::push` documents.
pub assume_specification[ String::push ](s: &mut String, ch: char)
    ensures
        final(s)@ == old(s)@.push(ch),
;

/// Why a decimal numeral does not denote a `u64`.
#[derive(Clone, Copy, Debug, PartialEq, Eq, Structural)]
pub enum IntFault {
    /// No characters at all.
    Empty,
    /// A character that is not a decimal digit.
    Digit,
    /// The value does not fit in 64 bits.
    Overflow,
}

impl IntFault {
    /// The wording of the fault.
    pub open spec fn wording(self) -> Seq<char> {
        match self {
            IntFault::Empty => "cannot parse integer from empty string"@,
            IntFault::Digit => "invalid digit found in string"@,
            IntFault::Overflow => "number too large to fit in target type"@,
        }
    }

    /// The wording of the fault, for messages.
    pub fn message(self) -> (r: &'static str)
        ensures
            r@ == self.wording(),
    {
        match self {
            IntFault::Empty => "cannot parse integer from empty string",
            IntFault::Digit => "invalid digit found in string",
            IntFault::Overflow => "number too large to fit in target type",
        }
    }
}

/// The decimal digit of value `d`.
pub open spec fn digit_char(d: int) -> char
    recommends
        0 <= d < 10,
{
    ('0' as int + d) as char
}

pub open spec fn is_digit(c: char) -> bool {
    '0' <= c <= '9'
}

pub open spec fn digit_value(c: char) -> int {
    c as int - '0' as int
}

/// The decimal numeral of `n`, without leading zeros.
pub open spec fn numeral(n: nat) -> Seq<char>
    decreases n,
{
    if n < 10 {
        seq![digit_char(n as int)]
    } else {
        numeral(n / 10).push(digit_char((n % 10) as int))
    }
}

/// What is left to read of a numeral, from position `i` on, with `acc` read so
/// far: the first character that is no digit, or that takes the value beyond
/// 64 bits, decides.
pub open spec fn digits_from(s: Seq<char>, i: int, acc: nat) -> Result<u64, IntFault>
    decreases s.len() - i,
{
    if i < 0 || i >= s.len() {
        Ok(acc as u64)
    } else if !is_digit(s[i]) {
        Err(IntFault::Digit)
    } else if acc * 10 + digit_value(s[i]) > u64::MAX {
        Err(IntFault::Overflow)
    } else {
        digits_from(s, i + 1, (acc * 10 + digit_value(s[i])) as nat)
    }
}

/// The value of a decimal numeral: digits, with at most one `+` in front.
pub open spec fn u64_of(s: Seq<char>) -> Result<u64, IntFault> {
    if s.len() == 0 {
        Err(IntFault::Empty)
    } else if s[0] == '+' && s.len() > 1 {
        digits_from(s, 1, 0)
    } else {
        digits_from(s, 0, 0)
    }
}

/// Reads the characters `from..to` of `s` as a decimal numeral.
pub fn parse_u64(s: &Vec<char>, from: usize, to: usize) -> (r: Result<u64, IntFault>)
    requires
        from <= to <= s@.len(),
    ensures
        r == u64_of(s@.subrange(from as int, to as int)),
{
    let ghost word = s@.subrange(from as int, to as int);
    if from == to {
        return Err(IntFault::Empty);
    }
    let mut i: usize = from;
    if s[from] == '+' && to - from > 1 {
        i = from + 1;
    }
    let mut acc: u64 = 0;
    while i < to
        invariant
            from <= i <= to <= s@.len(),
            word == s@.subrange(from as int, to as int),
            u64_of(word) == digits_from(word, i - from, acc as nat),
        decreases to - i,
    {
        let c = s[i];
        assert(word[i - from] == c);
        if c < '0' || c > '9' {
            return Err(IntFault::Digit);
        }
        let d: u64 = (c as u32 - '0' as u32) as u64;
        if acc > u64::MAX / 10 || acc * 10 > u64::MAX - d {
            return Err(IntFault::Overflow);
        }
        acc = acc * 10 + d;
        i = i + 1;
    }
    Ok(acc)
}

/// Appends the decimal numeral of `n` to `out`.
pub fn push_u64(out: &mut String, n: u64)
    ensures
        final(out)@ == old(out)@ + numeral(n as nat),
    decreases n,
{
    if n >= 10 {
        push_u64(out, n / 10);
    }
    let d: u8 = (n % 10) as u8;
    let ch: char = (48u8 + d) as char;
    assert(ch == digit_char((n % 10) as int));
    out.push(ch);
    assert(out@ =~= old(out)@ + numeral(n as nat));
}

/// Every character of a numeral is a digit, and there is at least one.
pub proof fn numeral_is_digits(n: nat)
    ensures
        numeral(n).len() > 0,
        forall|i: int| 0 <= i < numeral(n).len() ==> is_digit(#[trigger] numeral(n)[i]),
    decreases n,
{
    if n >= 10 {
        numeral_is_digits(n / 10);
    }
}

/// Reading over a prefix that is itself a numeral.
proof fn digits_over_numeral(s: Seq<char>, start: int, n: nat)
    requires
        0 <= start,
        n <= u64::MAX,
        start + numeral(n).len() <= s.len(),
        s.subrange(start, start + numeral(n).len()) == numeral(n),
    ensures
        digits_from(s, start, 0) == digits_from(s, start + numeral(n).len(), n),
    decreases n,
{
    let w = numeral(n);
    if n < 10 {
        assert(s[start] == w[0]);
        assert(digits_from(s, start, 0) == digits_from(s, start + 1, n));
    } else {
        let m = numeral(n / 10);
        assert(w.len() == m.len() + 1);
        assert(s.subrange(start, start + m.len()) =~= m) by {
            assert forall|i: int| 0 <= i < m.len() implies s[start + i] == m[i] by {
                assert(s.subrange(start, start + w.len())[i] == w[i]);
            }
        }
        digits_over_numeral(s, start, n / 10);
        assert(s.subrange(start, start + w.len())[m.len() as int] == w[m.len() as int]);
        assert(s[start + m.len()] == digit_char((n % 10) as int));
        assert((n / 10) * 10 + n % 10 == n);
    }
}

/// A numeral reads back as its value.
pub proof fn numeral_reads_back(n: u64)
    ensures
        u64_of(numeral(n as nat)) == Ok::<u64, IntFault>(n),
{
    let s = numeral(n as nat);
    numeral_is_digits(n as nat);
    assert(is_digit(s[0]));
    assert(s.subrange(0, s.len() as int) =~= s);
    digits_over_numeral(s, 0, n as nat);
}

/// Whether `c` has the Unicode property White_Space.
pub open spec fn is_white(c: char) -> bool {
    ||| 0x09 <= c as int <= 0x0D
    ||| c as int == 0x20
    ||| c as int == 0x85
    ||| c as int == 0xA0
    ||| c as int == 0x1680
    ||| 0x2000 <= c as int <= 0x200A
    ||| c as int == 0x2028
    ||| c as int == 0x2029
    ||| c as int == 0x202F
    ||| c as int == 0x205F
    ||| c as int == 0x3000
}

/// Decides [`is_white`].
pub fn white(c: char) -> (r: bool)
    ensures
        r == is_white(c),
{
    let v: u32 = c as u32;
    (0x09 <= v && v <= 0x0D) || v == 0x20 || v == 0x85 || v == 0xA0 || v == 0x1680 || (0x2000 <= v
        && v <= 0x200A) || v == 0x2028 || v == 0x2029 || v == 0x202F || v == 0x205F || v == 0x3000
}

/// The characters of a string, in order.
pub fn chars_of(s: &str) -> (r: Vec<char>)
    ensures
        r@ == s@,
{
    let mut out: Vec<char> = Vec::new();
    for c in it: s.chars()
        invariant
            out@.len() == it.index(),
            it.seq() == s@,
            out@ == s@.subrange(0, it.index() as int),
    {
        out.push(c);
        assert(out@ =~= s@.subrange(0, it.index() + 1));
    }
    assert(out@ =~= s@);
    out
}

/// The characters `from..to` of `s`, as a string.
pub fn string_of(s: &Vec<char>, from: usize, to: usize) -> (r: String)
    requires
        from <= to <= s@.len(),
    ensures
        r@ == s@.subrange(from as int, to as int),
{
    let mut out: String = String::new();
    let mut i: usize = from;
    while i < to
        invariant
            from <= i <= to <= s@.len(),
            out@ == s@.subrange(from as int, i as int),
        decreases to - i,
    {
        out.push(s[i]);
        i = i + 1;
        assert(out@ =~= s@.subrange(from as int, i as int));
    }
    out
}

/// Whether two strings hold the same characters.
pub fn same_text(a: &str, b: &str) -> (r: bool)
    ensures
        r == (a@ == b@),
{
    let x = chars_of(a);
    let y = chars_of(b);
    if x.len() != y.len() {
        return false;
    }
    let mut i: usize = 0;
    while i < x.len()
        invariant
            i <= x@.len(),
            x@.len() == y@.len(),
            x@ == a@,
            y@ == b@,
            forall|j: int| 0 <= j < i ==> x@[j] == y@[j],
        decreases x@.len() - i,
    {
        if x[i] != y[i] {
            assert(a@[i as int] != b@[i as int]);
            return false;
        }
        i = i + 1;
    }
    assert(a@ =~= b@);
    true
}

/// Joins two texts.
pub fn joined(a: &str, b: &str) -> (r: String)
    ensures
        r@ == a@ + b@,
{
    let mut out: String = String::new();
    out.append(a);
    out.append(b);
    assert(out@ =~= a@ + b@);
    out
}

} // verus!
