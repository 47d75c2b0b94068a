//! Numbers as text: an optional sign, digits with or without a point among them,
//! and an optional exponent of ten; or the word for an infinity.
use vstd::arithmetic::power::{lemma_pow_adds, lemma_pow_positive, pow};
use vstd::prelude::*;

use crate::fixed::Fixed;
use crate::text::{
    chars_of, digit_char, digit_value, is_digit, is_white, numeral, numeral_is_digits, push_u64,
};

verus! {

/// What is wrong with an empty text.
pub open spec fn empty_literal() -> Seq<char> {
    "cannot parse float from empty string"@
}

/// What is wrong with any other text that denotes no number.
pub open spec fn bad_literal() -> Seq<char> {
    "invalid float literal"@
}

/// The value of digits.
pub open spec fn value_of(digits: Seq<char>) -> nat
    decreases digits.len(),
{
    if digits.len() == 0 {
        0
    } else {
        (value_of(digits.drop_last()) * 10 + digit_value(digits.last())) as nat
    }
}

/// Where the digits end that begin at `i`.
pub open spec fn digits_end(s: Seq<char>, i: int) -> int
    decreases s.len() - i,
{
    if 0 <= i < s.len() && is_digit(s[i]) {
        digits_end(s, i + 1)
    } else {
        i
    }
}

/// Whether a text begins with a sign.
pub open spec fn signed(s: Seq<char>) -> bool {
    s.len() > 0 && (s[0] == '-' || s[0] == '+')
}

/// A text behind its sign.
pub open spec fn unsigned(s: Seq<char>) -> Seq<char> {
    if signed(s) {
        s.skip(1)
    } else {
        s
    }
}

pub open spec fn negative(s: Seq<char>) -> bool {
    s.len() > 0 && s[0] == '-'
}

/// An integer with or without a sign, `None` where a text is none.
pub open spec fn exponent_of(s: Seq<char>) -> Option<int> {
    let t = unsigned(s);
    if t.len() > 0 && digits_end(t, 0) == t.len() {
        Some(
            if negative(s) {
                -(value_of(t) as int)
            } else {
                value_of(t) as int
            },
        )
    } else {
        None
    }
}

/// The digits of a number, and the power of ten that they are multiplied by.
pub struct Decimal {
    pub digits: Seq<char>,
    pub exponent: int,
}

/// The number that an unsigned text denotes: digits, a point among them or not,
/// and an exponent or not.
pub open spec fn decimal_of(s: Seq<char>) -> Option<Decimal> {
    let i = digits_end(s, 0);
    let point = i < s.len() && s[i] == '.';
    let j = if point {
        digits_end(s, i + 1)
    } else {
        i
    };
    let places = if point {
        s.subrange(i + 1, j)
    } else {
        Seq::empty()
    };
    let digits = s.take(i) + places;
    if digits.len() == 0 {
        None
    } else if j == s.len() {
        Some(Decimal { digits, exponent: -(places.len() as int) })
    } else if s[j] == 'e' || s[j] == 'E' {
        match exponent_of(s.skip(j + 1)) {
            Some(x) => Some(Decimal { digits, exponent: x - places.len() }),
            None => None,
        }
    } else {
        None
    }
}

/// `a` times the power `x` of ten, rounded down.
pub open spec fn shifted(a: int, x: int) -> int {
    if x >= 0 {
        a * pow(10, x as nat)
    } else {
        a / pow(10, (-x) as nat)
    }
}

/// The letter `c` in lower case, or another character as it is.
pub open spec fn lower(c: char) -> char {
    if 'A' <= c <= 'Z' {
        (c as int + 32) as char
    } else {
        c
    }
}

/// Whether a text is a word for infinity, in letters of either case.
pub open spec fn says_infinity(s: Seq<char>) -> bool {
    let t = s.map_values(|c: char| lower(c));
    t == "inf"@ || t == "infinity"@
}

/// The count of billionths that a text denotes, beyond the range for an
/// infinity.
pub open spec fn units_of(s: Seq<char>) -> Option<int> {
    let t = unsigned(s);
    if says_infinity(t) {
        Some(
            if negative(s) {
                i64::MIN as int
            } else {
                i64::MAX as int
            },
        )
    } else {
        match decimal_of(t) {
            Some(d) => Some(
                shifted(
                    if negative(s) {
                        -(value_of(d.digits) as int)
                    } else {
                        value_of(d.digits) as int
                    },
                    d.exponent + 9,
                ),
            ),
            None => None,
        }
    }
}

/// The number that a text denotes, rounded down to a billionth and held to the
/// range, or what is wrong with the text. There is no number for `nan`.
pub open spec fn number_of(s: Seq<char>) -> Result<Fixed, Seq<char>> {
    if s.len() == 0 {
        Err(empty_literal())
    } else {
        match units_of(s) {
            Some(v) => Ok(Fixed::held(v)),
            None => Err(bad_literal()),
        }
    }
}

/// Whether a text is digits throughout.
pub open spec fn all_digits(s: Seq<char>) -> bool {
    forall|i: int| 0 <= i < s.len() ==> is_digit(#[trigger] s[i])
}

/// The digits that begin at `i` are digits, and no digit follows.
proof fn digits_end_there(s: Seq<char>, i: int)
    requires
        0 <= i <= s.len(),
    ensures
        i <= digits_end(s, i) <= s.len(),
        all_digits(s.subrange(i, digits_end(s, i))),
    decreases s.len() - i,
{
    if i < s.len() && is_digit(s[i]) {
        digits_end_there(s, i + 1);
        let j = digits_end(s, i);
        let rest = s.subrange(i + 1, j);
        let all = s.subrange(i, j);
        assert forall|k: int| 0 <= k < all.len() implies is_digit(#[trigger] all[k]) by {
            if k > 0 {
                assert(all[k] == rest[k - 1]);
            }
        }
    }
}

/// Digits followed by what is no digit, or by nothing, end there.
proof fn digits_end_is(s: Seq<char>, i: int, j: int)
    requires
        0 <= i <= j <= s.len(),
        forall|k: int| i <= k < j ==> is_digit(#[trigger] s[k]),
        j == s.len() || !is_digit(s[j]),
    ensures
        digits_end(s, i) == j,
    decreases j - i,
{
    if i < j {
        digits_end_is(s, i + 1, j);
    }
}

/// The value of digits behind others.
proof fn value_of_both(a: Seq<char>, b: Seq<char>)
    requires
        all_digits(a),
        all_digits(b),
    ensures
        value_of(a + b) == value_of(a) * pow(10, b.len()) + value_of(b),
    decreases b.len(),
{
    let n = b.len();
    vstd::arithmetic::power::lemma_pow0(10);
    if n == 0 {
        assert(a + b =~= a);
    } else {
        let c = b.drop_last();
        assert(all_digits(c)) by {
            assert forall|i: int| 0 <= i < c.len() implies is_digit(#[trigger] c[i]) by {
                assert(c[i] == b[i]);
            }
        }
        value_of_both(a, c);
        assert((a + b).drop_last() =~= a + c);
        assert((a + b).last() == b.last());
        assert(is_digit(b[n - 1]));
        power_of_ten(c.len());
        let (x, p) = (value_of(a) as int, pow(10, c.len()));
        assert((x * p) * 10 == x * (10 * p)) by (nonlinear_arith);
    }
}

/// Powers of ten grow tenfold.
proof fn power_of_ten(n: nat)
    ensures
        pow(10, n + 1) == 10 * pow(10, n),
        pow(10, n) >= 1,
{
    lemma_pow_adds(10, 1, n);
    vstd::arithmetic::power::lemma_pow1(10);
    lemma_pow_positive(10, n);
}

/// Digits denote less than the power of ten that follows them, and nothing only
/// where they are zeros.
proof fn value_is_small(s: Seq<char>)
    requires
        all_digits(s),
    ensures
        value_of(s) < pow(10, s.len()),
        value_of(s) == 0 <==> forall|i: int| 0 <= i < s.len() ==> #[trigger] s[i] == '0',
    decreases s.len(),
{
    vstd::arithmetic::power::lemma_pow0(10);
    if s.len() > 0 {
        let t = s.drop_last();
        assert(all_digits(t)) by {
            assert forall|i: int| 0 <= i < t.len() implies is_digit(#[trigger] t[i]) by {
                assert(t[i] == s[i]);
            }
        }
        value_is_small(t);
        power_of_ten(t.len());
        assert(is_digit(s[s.len() - 1]));
        if value_of(s) == 0 {
            assert forall|i: int| 0 <= i < s.len() implies #[trigger] s[i] == '0' by {
                if i < t.len() {
                    assert(t[i] == s[i]);
                }
            }
        }
        if forall|i: int| 0 <= i < s.len() ==> #[trigger] s[i] == '0' {
            assert forall|i: int| 0 <= i < t.len() implies #[trigger] t[i] == '0' by {
                assert(t[i] == s[i]);
            }
            assert(s[s.len() - 1] == '0');
        }
    }
}

/// A value held to a bound far beyond the range.
spec fn capped(v: int) -> int {
    if v < 1_000_000_000_000_000_000_000_000_000_000 {
        v
    } else {
        1_000_000_000_000_000_000_000_000_000_000
    }
}

/// The value of the first `upto` digits, capped.
fn capped_value(d: &Vec<char>, upto: usize) -> (r: u128)
    requires
        upto <= d.len(),
        all_digits(d@),
    ensures
        r == capped(value_of(d@.take(upto as int)) as int),
{
    let mut q: u128 = 0;
    let mut i: usize = 0;
    while i < upto
        invariant
            i <= upto <= d.len(),
            all_digits(d@),
            q == capped(value_of(d@.take(i as int)) as int),
            q <= 1_000_000_000_000_000_000_000_000_000_000,
        decreases upto - i,
    {
        let c = d[i];
        assert(is_digit(d@[i as int]));
        assert(d@.take(i + 1).drop_last() =~= d@.take(i as int));
        q = q * 10 + (c as u32 - '0' as u32) as u128;
        if q > 1_000_000_000_000_000_000_000_000_000_000 {
            q = 1_000_000_000_000_000_000_000_000_000_000;
        }
        i = i + 1;
    }
    q
}

/// Whether the digits from `from` on denote more than zero.
fn some_digit(d: &Vec<char>, from: usize) -> (r: bool)
    requires
        from <= d.len(),
        all_digits(d@),
    ensures
        r == (value_of(d@.skip(from as int)) != 0),
{
    let ghost t = d@.skip(from as int);
    proof {
        assert forall|i: int| 0 <= i < t.len() implies is_digit(#[trigger] t[i]) by {
            assert(t[i] == d@[i + from]);
        }
        value_is_small(t);
    }
    let mut i: usize = from;
    while i < d.len()
        invariant
            from <= i <= d.len(),
            t == d@.skip(from as int),
            forall|k: int| 0 <= k < i - from ==> #[trigger] t[k] == '0',
            value_of(t) == 0 <==> forall|k: int| 0 <= k < t.len() ==> #[trigger] t[k] == '0',
        decreases d.len() - i,
    {
        if d[i] != '0' {
            assert(t[i - from] != '0');
            return true;
        }
        assert(t[i - from] == '0');
        i = i + 1;
    }
    false
}

/// Far shifts all do the same: up, they leave the range; down, nothing is left.
proof fn far_shifts(a: int, n: nat, x: int, y: int)
    requires
        -pow(10, n) < a < pow(10, n),
        (x >= 20 && y >= 20) || (x <= -n && y <= -n && x < 0 && y < 0),
    ensures
        Fixed::held(shifted(a, x)) == Fixed::held(shifted(a, y)),
{
    if x >= 20 {
        far_up(a, x as nat);
        far_up(a, y as nat);
    } else {
        far_down(a, n, (-x) as nat);
        far_down(a, n, (-y) as nat);
    }
}

proof fn far_up(a: int, x: nat)
    requires
        x >= 20,
    ensures
        Fixed::held(a * pow(10, x)) == Fixed::held(
            if a > 0 {
                i64::MAX as int
            } else if a < 0 {
                i64::MIN as int
            } else {
                0
            },
        ),
{
    lemma_pow_adds(10, 20, (x - 20) as nat);
    lemma_pow_positive(10, (x - 20) as nat);
    assert(pow(10, 20) == 100_000_000_000_000_000_000) by {
        reveal_with_fuel(pow, 21);
    }
    let p = pow(10, x);
    assert(p >= 100_000_000_000_000_000_000) by (nonlinear_arith)
        requires
            p == 100_000_000_000_000_000_000 * pow(10, (x - 20) as nat),
            pow(10, (x - 20) as nat) > 0,
    ;
    assert(a > 0 ==> a * p >= p) by (nonlinear_arith)
        requires
            p > 0,
    ;
    assert(a < 0 ==> a * p <= -p) by (nonlinear_arith)
        requires
            p > 0,
    ;
    assert(a == 0 ==> a * p == 0);
}

proof fn far_down(a: int, n: nat, x: nat)
    requires
        -pow(10, n) < a < pow(10, n),
        x >= n,
    ensures
        a / pow(10, x) == if a < 0 {
            -1int
        } else {
            0int
        },
{
    vstd::arithmetic::power::lemma_pow_increases(10, n, x);
    let p = pow(10, x);
    if a < 0 {
        vstd::arithmetic::div_mod::lemma_fundamental_div_mod_converse(a, p, -1, a + p);
    } else {
        vstd::arithmetic::div_mod::lemma_fundamental_div_mod_converse(a, p, 0, a);
    }
}

/// A value with a sign.
spec fn with_sign(m: int, neg: bool) -> int {
    if neg {
        -m
    } else {
        m
    }
}

/// Digits in front of a point, and whether any behind it is not zero, say what
/// the number is rounded down.
proof fn cut_digits(d: Seq<char>, keep: int, neg: bool)
    requires
        all_digits(d),
        0 <= keep < d.len(),
    ensures
        shifted(with_sign(value_of(d) as int, neg), keep - d.len()) == with_sign(
            if neg && value_of(d.skip(keep)) != 0 {
                value_of(d.take(keep)) as int + 1
            } else {
                value_of(d.take(keep)) as int
            },
            neg,
        ),
{
    let (a, b) = (d.take(keep), d.skip(keep));
    assert(a + b =~= d);
    assert forall|i: int| 0 <= i < b.len() implies is_digit(#[trigger] b[i]) by {
        assert(b[i] == d[i + keep]);
    }
    value_of_both(a, b);
    value_is_small(b);
    let p = pow(10, b.len());
    let (h, l) = (value_of(a) as int, value_of(b) as int);
    let m = h * p + l;
    if !neg {
        vstd::arithmetic::div_mod::lemma_fundamental_div_mod_converse(m, p, h, l);
    } else if l == 0 {
        assert(-m == (-h) * p) by (nonlinear_arith)
            requires
                m == h * p + l,
                l == 0,
        ;
        vstd::arithmetic::div_mod::lemma_fundamental_div_mod_converse(-m, p, -h, 0);
    } else {
        assert(-m == (-h - 1) * p + (p - l)) by (nonlinear_arith)
            requires
                m == h * p + l,
        ;
        vstd::arithmetic::div_mod::lemma_fundamental_div_mod_converse(-m, p, -h - 1, p - l);
    }
}

/// The number of the digits `d`, times the power `x` of ten in billionths.
fn scaled(d: &Vec<char>, neg: bool, x: i128) -> (r: Fixed)
    requires
        all_digits(d@),
        -3_000_000_000_000_000_000_000_000_000_000 <= x
            <= 3_000_000_000_000_000_000_000_000_000_000,
    ensures
        r == Fixed::held(shifted(with_sign(value_of(d@) as int, neg), x as int)),
{
    let n = d.len();
    let ghost m = value_of(d@) as int;
    let ghost a = with_sign(m, neg);
    proof {
        value_is_small(d@);
    }
    if x >= 0 {
        let mut q: u128 = capped_value(d, n);
        let most: i128 = if x < 20 {
            x
        } else {
            20
        };
        let mut z: i128 = 0;
        proof {
            vstd::arithmetic::power::lemma_pow0(10);
            assert(d@.take(n as int) =~= d@);
        }
        while z < most
            invariant
                0 <= z <= most <= 20,
                m >= 0,
                q <= 1_000_000_000_000_000_000_000_000_000_000,
                q == capped(m * pow(10, z as nat)),
            decreases most - z,
        {
            proof {
                power_of_ten(z as nat);
                let p = pow(10, z as nat);
                assert(m * (10 * p) == 10 * (m * p)) by (nonlinear_arith);
                assert(m * p >= 0) by (nonlinear_arith)
                    requires
                        m >= 0,
                        p >= 1,
                ;
            }
            q = q * 10;
            if q > 1_000_000_000_000_000_000_000_000_000_000 {
                q = 1_000_000_000_000_000_000_000_000_000_000;
            }
            z = z + 1;
        }
        let v: i128 = if neg {
            -(q as i128)
        } else {
            q as i128
        };
        proof {
            let p = pow(10, most as nat);
            assert((-m) * p == -(m * p)) by (nonlinear_arith);
            if x > 20 {
                far_shifts(a, n as nat, x as int, 20);
            }
        }
        return Fixed::hold(v);
    }
    let keep: i128 = n as i128 + x;
    if keep <= 0 {
        let rest = some_digit(d, 0);
        proof {
            assert(d@.skip(0) =~= d@);
            far_down(a, n as nat, (-x) as nat);
        }
        return Fixed::hold(
            if neg && rest {
                -1
            } else {
                0
            },
        );
    }
    let k: usize = keep as usize;
    let q: u128 = capped_value(d, k);
    let rest = some_digit(d, k);
    proof {
        cut_digits(d@, k as int, neg);
    }
    let v: i128 = if neg {
        if rest {
            -(q as i128) - 1
        } else {
            -(q as i128)
        }
    } else {
        q as i128
    };
    Fixed::hold(v)
}

/// Where the digits end that begin at `i`.
fn end_of_digits(s: &Vec<char>, i: usize) -> (r: usize)
    requires
        i <= s.len(),
    ensures
        r == digits_end(s@, i as int),
        i <= r <= s.len(),
{
    let mut j: usize = i;
    while j < s.len() && '0' <= s[j] && s[j] <= '9'
        invariant
            i <= j <= s.len(),
            digits_end(s@, i as int) == digits_end(s@, j as int),
        decreases s.len() - j,
    {
        j = j + 1;
    }
    j
}

/// The characters from `from` on.
fn tail_of(s: &Vec<char>, from: usize) -> (r: Vec<char>)
    requires
        from <= s.len(),
    ensures
        r@ == s@.skip(from as int),
{
    let mut out: Vec<char> = Vec::new();
    let mut i: usize = from;
    while i < s.len()
        invariant
            from <= i <= s.len(),
            out@ == s@.subrange(from as int, i as int),
        decreases s.len() - i,
    {
        out.push(s[i]);
        i = i + 1;
        assert(out@ =~= s@.subrange(from as int, i as int));
    }
    assert(out@ =~= s@.skip(from as int));
    out
}

/// A text behind its sign.
fn behind_sign(s: &Vec<char>) -> (r: Vec<char>)
    ensures
        r@ == unsigned(s@),
{
    let from: usize = if s.len() > 0 && (s[0] == '-' || s[0] == '+') {
        1
    } else {
        0
    };
    assert(s@.skip(0) =~= s@);
    tail_of(s, from)
}

/// An exponent, capped.
fn read_exponent(s: &Vec<char>) -> (r: Option<i128>)
    ensures
        match exponent_of(s@) {
            Some(x) => r is Some && r->0 == if x < 0 {
                -capped(-x)
            } else {
                capped(x)
            },
            None => r is None,
        },
{
    let neg = s.len() > 0 && s[0] == '-';
    let t = behind_sign(s);
    if t.len() == 0 || end_of_digits(&t, 0) != t.len() {
        return None;
    }
    proof {
        digits_end_there(t@, 0);
        assert(t@.subrange(0, t.len() as int) =~= t@);
        assert(t@.take(t.len() as int) =~= t@);
    }
    let q: u128 = capped_value(&t, t.len());
    Some(
        if neg {
            -(q as i128)
        } else {
            q as i128
        },
    )
}

/// The number that an unsigned text denotes, or its negative.
fn read_decimal(s: &Vec<char>, neg: bool) -> (r: Option<Fixed>)
    ensures
        r == match decimal_of(s@) {
            Some(d) => Some(
                Fixed::held(
                    shifted(with_sign(value_of(d.digits) as int, neg), d.exponent + 9),
                ),
            ),
            None => None,
        },
{
    let n = s.len();
    let i = end_of_digits(s, 0);
    let point = i < n && s[i] == '.';
    let j = if point {
        end_of_digits(s, i + 1)
    } else {
        i
    };
    let mut d: Vec<char> = Vec::new();
    let mut k: usize = 0;
    while k < i
        invariant
            k <= i <= s.len(),
            d@ == s@.take(k as int),
        decreases i - k,
    {
        d.push(s[k]);
        k = k + 1;
        assert(d@ =~= s@.take(k as int));
    }
    let ghost head = s@.take(i as int);
    let mut places: usize = 0;
    if point {
        k = i + 1;
        while k < j
            invariant
                i < k <= j <= s.len(),
                d@ == head + s@.subrange(i + 1, k as int),
            decreases j - k,
        {
            d.push(s[k]);
            k = k + 1;
            assert(d@ =~= head + s@.subrange(i + 1, k as int));
        }
        places = j - (i + 1);
    }
    let ghost behind = if point {
        s@.subrange(i + 1, j as int)
    } else {
        Seq::<char>::empty()
    };
    assert(d@ =~= head + behind);
    proof {
        digits_end_there(s@, 0);
        assert(s@.subrange(0, i as int) =~= head);
        if point {
            digits_end_there(s@, i + 1);
        }
        assert forall|x: int| 0 <= x < d.len() implies is_digit(#[trigger] d@[x]) by {
            if x < i {
                assert(d@[x] == head[x]);
            } else {
                assert(d@[x] == behind[x - i]);
            }
        }
    }
    if d.len() == 0 {
        return None;
    }
    if j == n {
        return Some(scaled(&d, neg, 9 - places as i128));
    }
    if s[j] != 'e' && s[j] != 'E' {
        return None;
    }
    let t = tail_of(s, j + 1);
    match read_exponent(&t) {
        None => None,
        Some(x) => {
            proof {
                let y = exponent_of(t@)->0;
                if x != y {
                    value_is_small(d@);
                    let a = with_sign(value_of(d@) as int, neg);
                    far_shifts(a, d@.len(), x - places + 9, y - places + 9);
                }
            }
            Some(scaled(&d, neg, x - places as i128 + 9))
        },
    }
}

/// Whether a text reads as a word in lower case, whatever its case.
fn spells(s: &Vec<char>, word: &str) -> (r: bool)
    ensures
        r == (s@.map_values(|c: char| lower(c)) == word@),
{
    let w = chars_of(word);
    let ghost t = s@.map_values(|c: char| lower(c));
    if s.len() != w.len() {
        return false;
    }
    let mut i: usize = 0;
    while i < s.len()
        invariant
            i <= s.len(),
            s.len() == w.len(),
            w@ == word@,
            t == s@.map_values(|c: char| lower(c)),
            forall|k: int| 0 <= k < i ==> #[trigger] t[k] == w@[k],
        decreases s.len() - i,
    {
        let c = s[i];
        let l = if 'A' <= c && c <= 'Z' {
            (c as u8 + 32) as char
        } else {
            c
        };
        assert(l == lower(c));
        if l != w[i] {
            assert(t[i as int] != word@[i as int]);
            return false;
        }
        i = i + 1;
    }
    assert(t =~= word@);
    true
}

/// Reads a number.
pub fn read_number(text: &str) -> (r: Result<Fixed, String>)
    ensures
        match r {
            Ok(v) => number_of(text@) == Ok::<Fixed, Seq<char>>(v),
            Err(e) => number_of(text@) == Err::<Fixed, Seq<char>>(e@),
        },
{
    let s = chars_of(text);
    if s.len() == 0 {
        return Err("cannot parse float from empty string".to_string());
    }
    let neg = s[0] == '-';
    let t = behind_sign(&s);
    if spells(&t, "inf") || spells(&t, "infinity") {
        return Ok(
            Fixed {
                units: if neg {
                    i64::MIN
                } else {
                    i64::MAX
                },
            },
        );
    }
    match read_decimal(&t, neg) {
        Some(v) => Ok(v),
        None => Err("invalid float literal".to_string()),
    }
}

/// The last `k` digits of `f`, with leading zeros.
pub open spec fn padded(f: nat, k: nat) -> Seq<char>
    decreases k,
{
    if k == 0 {
        Seq::empty()
    } else {
        padded(f / 10, (k - 1) as nat).push(digit_char((f % 10) as int))
    }
}

/// A fraction of `k` places without the zeros at its end.
pub open spec fn places(f: nat, k: nat) -> Seq<char>
    decreases k,
{
    if k > 0 && f % 10 == 0 {
        places(f / 10, (k - 1) as nat)
    } else {
        padded(f, k)
    }
}

/// The text of a count of billionths that is not negative: what is before the
/// point and, where there is anything, what is behind it.
pub open spec fn plain_text(u: nat) -> Seq<char> {
    let whole = numeral(u / 1_000_000_000);
    let f = u % 1_000_000_000;
    if f == 0 {
        whole
    } else {
        whole.push('.') + places(f, 9)
    }
}

/// The text of a count of billionths, the ends of the range being infinities.
pub open spec fn text_of_units(u: int) -> Seq<char> {
    if u == i64::MAX {
        "inf"@
    } else if u == i64::MIN {
        "-inf"@
    } else if u < 0 {
        seq!['-'] + plain_text((-u) as nat)
    } else {
        plain_text(u as nat)
    }
}

/// Appends the last `k` digits of `f`.
fn push_padded(out: &mut String, f: u64, k: u64)
    ensures
        final(out)@ == old(out)@ + padded(f as nat, k as nat),
    decreases k,
{
    let ghost start = out@;
    if k > 0 {
        push_padded(out, f / 10, k - 1);
        let d: u8 = (f % 10) as u8;
        let ch: char = (48u8 + d) as char;
        assert(ch == digit_char((f % 10) as int));
        out.push(ch);
    }
    assert(out@ =~= start + padded(f as nat, k as nat));
}

/// Appends a fraction of `k` places without the zeros at its end.
fn push_places(out: &mut String, f: u64, k: u64)
    ensures
        final(out)@ == old(out)@ + places(f as nat, k as nat),
    decreases k,
{
    if k > 0 && f % 10 == 0 {
        push_places(out, f / 10, k - 1);
    } else {
        push_padded(out, f, k);
    }
}

/// Appends the text of a count of billionths.
pub fn push_units(out: &mut String, units: i64)
    ensures
        final(out)@ == old(out)@ + text_of_units(units as int),
{
    let ghost start = out@;
    if units == i64::MAX {
        out.append("inf");
        return ;
    }
    if units == i64::MIN {
        out.append("-inf");
        return ;
    }
    let mut u: u64 = units as u64;
    if units < 0 {
        out.push('-');
        u = (-units) as u64;
    }
    let ghost sign = out@;
    push_u64(out, u / 1_000_000_000);
    let f: u64 = u % 1_000_000_000;
    if f != 0 {
        out.push('.');
        push_places(out, f, 9);
    }
    assert(out@ =~= sign + plain_text(u as nat));
    assert(out@ =~= start + text_of_units(units as int));
}

/// A numeral denotes its number.
proof fn numeral_value(n: nat)
    ensures
        value_of(numeral(n)) == n,
        all_digits(numeral(n)),
        numeral(n).len() > 0,
    decreases n,
{
    numeral_is_digits(n);
    let s = numeral(n);
    if n < 10 {
        assert(s.drop_last() =~= Seq::empty());
        assert(s.last() == digit_char(n as int));
        assert(value_of(s.drop_last()) == 0);
    } else {
        numeral_value(n / 10);
        assert(s.drop_last() =~= numeral(n / 10));
        assert(s.last() == digit_char((n % 10) as int));
    }
}

proof fn padded_value(f: nat, k: nat)
    requires
        f < pow(10, k),
    ensures
        value_of(padded(f, k)) == f,
        all_digits(padded(f, k)),
        padded(f, k).len() == k,
    decreases k,
{
    vstd::arithmetic::power::lemma_pow0(10);
    if k > 0 {
        let m = (k - 1) as nat;
        power_of_ten(m);
        padded_value(f / 10, m);
        let s = padded(f, k);
        assert(s.drop_last() =~= padded(f / 10, m));
        assert(s.last() == digit_char((f % 10) as int));
        assert forall|i: int| 0 <= i < s.len() implies is_digit(#[trigger] s[i]) by {
            if i < m {
                assert(s[i] == padded(f / 10, m)[i]);
            }
        }
    }
}

/// Dropping the zeros at its end leaves a fraction what it is.
proof fn places_value(f: nat, k: nat)
    requires
        0 < f < pow(10, k),
    ensures
        all_digits(places(f, k)),
        0 < places(f, k).len() <= k,
        value_of(places(f, k)) * pow(10, (k - places(f, k).len()) as nat) == f,
    decreases k,
{
    vstd::arithmetic::power::lemma_pow0(10);
    if k > 0 && f % 10 == 0 {
        let m = (k - 1) as nat;
        power_of_ten(m);
        places_value(f / 10, m);
        let n = places(f / 10, m).len();
        power_of_ten((m - n) as nat);
        let (v, p) = (value_of(places(f / 10, m)) as int, pow(10, (m - n) as nat));
        assert(v * (10 * p) == 10 * (v * p)) by (nonlinear_arith);
    } else {
        padded_value(f, k);
    }
}

/// A plain text denotes its number.
proof fn plain_reads_back(u: nat)
    ensures
        ({
            let d = decimal_of(plain_text(u));
            &&& d is Some
            &&& shifted(value_of(d->0.digits) as int, d->0.exponent + 9) == u
            &&& shifted(-(value_of(d->0.digits) as int), d->0.exponent + 9) == -u
        }),
        all_digits(seq![plain_text(u)[0]]),
        plain_text(u).len() > 0,
{
    let s = plain_text(u);
    let whole = numeral(u / 1_000_000_000);
    let f = u % 1_000_000_000;
    let w = whole.len() as int;
    numeral_value(u / 1_000_000_000);
    assert(s[0] == whole[0]);
    let nine = pow(10, 9);
    assert(nine == 1_000_000_000) by {
        reveal_with_fuel(pow, 10);
    }
    if f == 0 {
        digits_end_is(s, 0, w);
        assert(s.take(w) + Seq::<char>::empty() =~= whole);
        let d = decimal_of(s)->0;
        assert(d.digits == whole && d.exponent == 0);
        let h = value_of(whole) as int;
        assert(h * nine == u);
        assert((-h) * nine == -u);
    } else {
        let b = places(f, 9);
        places_value(f, 9);
        let n = b.len();
        assert forall|k: int| 0 <= k < w implies is_digit(#[trigger] s[k]) by {
            assert(s[k] == whole[k]);
        }
        assert(s[w] == '.');
        digits_end_is(s, 0, w);
        assert forall|k: int| w + 1 <= k < s.len() implies is_digit(#[trigger] s[k]) by {
            assert(s[k] == b[k - w - 1]);
        }
        digits_end_is(s, w + 1, s.len() as int);
        assert(s.take(w) =~= whole);
        assert(s.subrange(w + 1, s.len() as int) =~= b);
        value_of_both(whole, b);
        let (h, l) = (value_of(whole) as int, value_of(b) as int);
        let (p, q) = (pow(10, n), pow(10, (9 - n) as nat));
        lemma_pow_adds(10, n, (9 - n) as nat);
        let d = decimal_of(s)->0;
        assert(d.digits == whole + b && d.exponent == -(n as int));
        assert((h * p + l) * q == h * nine + l * q) by (nonlinear_arith)
            requires
                nine == p * q,
        ;
        assert((-(h * p + l)) * q == -(h * nine + l * q)) by (nonlinear_arith)
            requires
                nine == p * q,
        ;
    }
}

/// A text that begins with a digit is no word for infinity.
proof fn digits_say_no_infinity(s: Seq<char>)
    requires
        s.len() > 0,
        is_digit(s[0]),
    ensures
        !says_infinity(s),
{
    reveal_strlit("inf");
    reveal_strlit("infinity");
    let t = s.map_values(|c: char| lower(c));
    assert(t[0] == s[0]);
}

/// A number reads back from its text.
pub proof fn units_read_back(u: i64)
    ensures
        number_of(text_of_units(u as int)) == Ok::<Fixed, Seq<char>>(Fixed { units: u }),
{
    reveal_strlit("inf");
    reveal_strlit("-inf");
    let s = text_of_units(u as int);
    if u == i64::MAX {
        assert(s.map_values(|c: char| lower(c)) =~= "inf"@);
    } else if u == i64::MIN {
        assert(s.skip(1).map_values(|c: char| lower(c)) =~= "inf"@);
    } else if u < 0 {
        let t = plain_text((-u) as nat);
        plain_reads_back((-u) as nat);
        assert(s.skip(1) =~= t);
        assert(is_digit(seq![t[0]][0]));
        digits_say_no_infinity(t);
    } else {
        let t = plain_text(u as nat);
        plain_reads_back(u as nat);
        assert(is_digit(seq![t[0]][0]));
        digits_say_no_infinity(t);
    }
}

/// The characters of a plain text are digits and points.
proof fn plain_is_word(u: nat)
    ensures
        plain_text(u).len() > 0,
        forall|i: int|
            0 <= i < plain_text(u).len() ==> is_digit(#[trigger] plain_text(u)[i])
                || plain_text(u)[i] == '.',
{
    let s = plain_text(u);
    let whole = numeral(u / 1_000_000_000);
    let f = u % 1_000_000_000;
    let w = whole.len() as int;
    numeral_value(u / 1_000_000_000);
    assert(pow(10, 9) == 1_000_000_000) by {
        reveal_with_fuel(pow, 10);
    }
    if f != 0 {
        places_value(f, 9);
    }
    assert forall|i: int| 0 <= i < s.len() implies is_digit(#[trigger] s[i]) || s[i] == '.' by {
        if i < w {
            assert(s[i] == whole[i]);
        } else if i > w {
            assert(s[i] == places(f, 9)[i - w - 1]);
        }
    }
}

/// The text of a number is one word.
pub proof fn units_are_a_word(u: i64)
    ensures
        crate::number::is_word(text_of_units(u as int)),
{
    reveal_strlit("inf");
    reveal_strlit("-inf");
    let s = text_of_units(u as int);
    if i64::MIN < u < i64::MAX {
        let m = if u < 0 {
            (-u) as nat
        } else {
            u as nat
        };
        let shift: int = if u < 0 {
            1
        } else {
            0
        };
        plain_is_word(m);
        assert forall|i: int| 0 <= i < s.len() implies !is_white(#[trigger] s[i]) && s[i] != '#' by {
            if i >= shift {
                assert(s[i] == plain_text(m)[i - shift]);
            }
        }
    }
}

} // verus!
