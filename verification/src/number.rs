//! The numbers the engine computes with.
//!
//! Every rate, price, duration and cost is a value of a type that implements
//! [`Real`]. The contracts of the library are written over the operations of
//! that type as they are: they claim nothing of an operation but that its
//! result is determined by its operands, so they hold of arithmetic that
//! rounds and saturates. [`crate::fixed::Fixed`] is the decimal instance that
//! comes with the library.
use vstd::prelude::*;

use crate::text::is_white;

verus! {

/// Arithmetic on numbers of finite precision.
pub trait Real: Copy {
    /// The number nearest to the integer `n`.
    closed spec fn int_of(n: u64) -> Self {
        arbitrary()
    }

    /// The number above every other.
    closed spec fn inf_of() -> Self {
        arbitrary()
    }

    /// The number below every other.
    closed spec fn neg_inf_of() -> Self {
        arbitrary()
    }

    closed spec fn sum(self, o: Self) -> Self {
        arbitrary()
    }

    closed spec fn diff(self, o: Self) -> Self {
        arbitrary()
    }

    closed spec fn prod(self, o: Self) -> Self {
        arbitrary()
    }

    closed spec fn quot(self, o: Self) -> Self {
        arbitrary()
    }

    /// The remainder of the division truncated toward zero.
    closed spec fn rest(self, o: Self) -> Self {
        arbitrary()
    }

    closed spec fn negated(self) -> Self {
        arbitrary()
    }

    /// The larger of two numbers.
    closed spec fn larger(self, o: Self) -> Self {
        arbitrary()
    }

    /// The smaller of two numbers.
    closed spec fn smaller(self, o: Self) -> Self {
        arbitrary()
    }

    /// The natural exponential.
    closed spec fn exp_of(self) -> Self {
        arbitrary()
    }

    /// The natural logarithm.
    closed spec fn ln_of(self) -> Self {
        arbitrary()
    }

    /// Whether `self < o`.
    closed spec fn below(self, o: Self) -> bool {
        arbitrary()
    }

    /// Whether `self <= o`.
    closed spec fn at_most(self, o: Self) -> bool {
        arbitrary()
    }

    /// Whether `self == o`.
    closed spec fn same(self, o: Self) -> bool {
        arbitrary()
    }

    /// The place of a number in the total order of all values of the type.
    closed spec fn rank(self) -> int {
        arbitrary()
    }

    /// The least integer not below a number, held to the range of `u64`.
    closed spec fn ceil_of(self) -> u64 {
        arbitrary()
    }

    /// The text of a number.
    closed spec fn text_of(self) -> Seq<char> {
        arbitrary()
    }

    /// The number that a text denotes, or the wording of what is wrong with it.
    closed spec fn read_of(text: Seq<char>) -> Result<Self, Seq<char>> {
        arbitrary()
    }

    fn from_int(n: u64) -> (r: Self)
        ensures
            r == Self::int_of(n),
    ;

    fn infinity() -> (r: Self)
        ensures
            r == Self::inf_of(),
    ;

    fn neg_infinity() -> (r: Self)
        ensures
            r == Self::neg_inf_of(),
    ;

    fn plus(self, o: Self) -> (r: Self)
        ensures
            r == self.sum(o),
    ;

    fn minus(self, o: Self) -> (r: Self)
        ensures
            r == self.diff(o),
    ;

    fn times(self, o: Self) -> (r: Self)
        ensures
            r == self.prod(o),
    ;

    fn over(self, o: Self) -> (r: Self)
        ensures
            r == self.quot(o),
    ;

    fn modulo(self, o: Self) -> (r: Self)
        ensures
            r == self.rest(o),
    ;

    fn neg(self) -> (r: Self)
        ensures
            r == self.negated(),
    ;

    fn max_with(self, o: Self) -> (r: Self)
        ensures
            r == self.larger(o),
    ;

    fn min_with(self, o: Self) -> (r: Self)
        ensures
            r == self.smaller(o),
    ;

    fn exp(self) -> (r: Self)
        ensures
            r == self.exp_of(),
    ;

    fn ln(self) -> (r: Self)
        ensures
            r == self.ln_of(),
    ;

    fn is_lt(self, o: Self) -> (r: bool)
        ensures
            r == self.below(o),
    ;

    fn is_le(self, o: Self) -> (r: bool)
        ensures
            r == self.at_most(o),
    ;

    fn is_same(self, o: Self) -> (r: bool)
        ensures
            r == self.same(o),
    ;

    /// Whether `self` comes before `o` in the total order.
    fn ranks_before(self, o: Self) -> (r: bool)
        ensures
            r == (self.rank() < o.rank()),
    ;

    fn ceil_u64(self) -> (r: u64)
        ensures
            r == self.ceil_of(),
    ;

    /// Appends the text of the number.
    fn write(self, out: &mut String)
        ensures
            final(out)@ == old(out)@ + self.text_of(),
    ;

    fn read(text: &str) -> (r: Result<Self, String>)
        ensures
            match r {
                Ok(v) => Self::read_of(text@) == Ok::<Self, Seq<char>>(v),
                Err(e) => Self::read_of(text@) == Err::<Self, Seq<char>>(e@),
            },
    ;

    /// A number below another comes before it in the total order.
    proof fn below_ranks_before(a: Self, b: Self)
        ensures
            a.below(b) ==> a.rank() < b.rank(),
    ;

    /// A number that equals itself reads back from its text.
    proof fn text_reads_back(a: Self)
        ensures
            a.same(a) ==> Self::read_of(a.text_of()) == Ok::<Self, Seq<char>>(a),
    ;

    /// The text of a number is one word: not empty, without white space, and
    /// not begun by `#`.
    proof fn text_is_word(a: Self)
        ensures
            is_word(a.text_of()),
    ;
}

/// A text without white space that does not begin with `#`.
pub open spec fn is_word(s: Seq<char>) -> bool {
    &&& s.len() > 0
    &&& s[0] != '#'
    &&& forall|i: int| 0 <= i < s.len() ==> !is_white(#[trigger] s[i])
}

/// The number `n / d`.
pub open spec fn frac<R: Real>(n: u64, d: u64) -> R {
    R::int_of(n).quot(R::int_of(d))
}

/// The number `n / d`.
pub fn ratio<R: Real>(n: u64, d: u64) -> (r: R)
    ensures
        r == frac::<R>(n, d),
{
    R::from_int(n).over(R::from_int(d))
}

/// The smaller of two integers.
pub open spec fn min_u64(a: u64, b: u64) -> u64 {
    if a <= b {
        a
    } else {
        b
    }
}

} // verus!
