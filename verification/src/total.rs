//! Sums of integers.
use vstd::prelude::*;

verus! {

/// The sum of the first `n` values of `f`.
pub open spec fn total_of(n: nat, f: spec_fn(int) -> int) -> int
    decreases n,
{
    if n == 0 {
        0
    } else {
        total_of((n - 1) as nat, f) + f(n - 1)
    }
}

/// A sum changes by as much as its one value that does.
pub proof fn total_changes(n: nat, f: spec_fn(int) -> int, g: spec_fn(int) -> int, x: int)
    requires
        forall|i: int| 0 <= i < n && i != x ==> #[trigger] f(i) == g(i),
    ensures
        0 <= x < n ==> total_of(n, g) == total_of(n, f) + g(x) - f(x),
        !(0 <= x < n) ==> total_of(n, g) == total_of(n, f),
    decreases n,
{
    if n > 0 {
        total_changes((n - 1) as nat, f, g, x);
        assert(n - 1 != x ==> f(n - 1) == g(n - 1));
    }
}

/// A sum of nothing is nothing.
pub proof fn total_of_nothing(n: nat, f: spec_fn(int) -> int)
    requires
        forall|i: int| 0 <= i < n ==> #[trigger] f(i) == 0,
    ensures
        total_of(n, f) == 0,
    decreases n,
{
    if n > 0 {
        total_of_nothing((n - 1) as nat, f);
    }
}

/// A sum of lesser values is no greater.
pub proof fn total_is_ordered(n: nat, f: spec_fn(int) -> int, g: spec_fn(int) -> int)
    requires
        forall|i: int| 0 <= i < n ==> #[trigger] f(i) <= g(i),
    ensures
        total_of(n, f) <= total_of(n, g),
    decreases n,
{
    if n > 0 {
        total_is_ordered((n - 1) as nat, f, g);
        assert(f(n - 1) <= g(n - 1));
    }
}

/// Where each value, `m` times over, is at most `y` times another and `more`, so
/// is the sum, with `more` for each.
pub proof fn total_is_scaled(
    n: nat,
    f: spec_fn(int) -> int,
    g: spec_fn(int) -> int,
    m: int,
    y: int,
    more: int,
)
    requires
        forall|i: int| 0 <= i < n ==> m * (#[trigger] f(i)) <= y * g(i) + more,
    ensures
        m * total_of(n, f) <= y * total_of(n, g) + n * more,
    decreases n,
{
    if n > 0 {
        let k = (n - 1) as nat;
        total_is_scaled(k, f, g, m, y, more);
        let (a, b) = (total_of(k, f), total_of(k, g));
        let (c, d) = (f(n - 1), g(n - 1));
        assert(m * c <= y * d + more);
        assert(m * (a + c) == m * a + m * c) by (nonlinear_arith);
        assert(y * (b + d) == y * b + y * d) by (nonlinear_arith);
        assert((k + 1) * more == k * more + more) by (nonlinear_arith);
    } else {
        assert(m * 0 == 0 && y * 0 == 0 && 0 * more == 0) by (nonlinear_arith);
    }
}

/// A sum of values that are not negative grows.
pub proof fn total_grows(m: nat, n: nat, f: spec_fn(int) -> int)
    requires
        m <= n,
        forall|i: int| 0 <= i < n ==> 0 <= #[trigger] f(i),
    ensures
        0 <= total_of(m, f) <= total_of(n, f),
    decreases n,
{
    if m < n {
        total_grows(m, (n - 1) as nat, f);
        assert(0 <= f(n - 1));
    } else if m > 0 {
        total_grows((m - 1) as nat, (m - 1) as nat, f);
        assert(0 <= f(m - 1));
    }
}

} // verus!
