//! The keys of a map in ascending order.
use std::collections::HashMap;
use vstd::prelude::*;
use vstd::std_specs::iter::IteratorSpec;

verus! {

broadcast use vstd::std_specs::hash::group_hash_axioms;

/// Whether a sequence ascends without repeats.
pub open spec fn ascends(s: Seq<u64>) -> bool {
    forall|i: int, j: int| 0 <= i < j < s.len() ==> s[i] < s[j]
}

/// The greatest of a finite set that is not empty.
pub open spec fn greatest(d: Set<u64>) -> u64 {
    choose|m: u64| d.contains(m) && forall|x: u64| d.contains(x) ==> x <= m
}

/// The elements of a finite set in ascending order.
pub open spec fn ascending_keys(d: Set<u64>) -> Seq<u64>
    decreases d.len(),
    when d.finite()
{
    if d.len() == 0 {
        Seq::empty()
    } else if !d.contains(greatest(d)) {
        Seq::empty()
    } else {
        ascending_keys(d.remove(greatest(d))).push(greatest(d))
    }
}

/// A sequence that ascends and holds the elements of a set is that set in
/// ascending order.
pub proof fn ascending_keys_is_unique(s: Seq<u64>, d: Set<u64>)
    requires
        ascends(s),
        d.finite(),
        forall|x: u64| s.contains(x) <==> d.contains(x),
    ensures
        s == ascending_keys(d),
    decreases s.len(),
{
    if s.len() == 0 {
        if d.len() != 0 {
            let x = d.choose();
            assert(d.contains(x));
            assert(s.contains(x));
        }
        assert(s =~= ascending_keys(d));
    } else {
        let m = s.last();
        assert(s.contains(m));
        assert forall|x: u64| d.contains(x) implies x <= m by {
            assert(s.contains(x));
        }
        assert(d.contains(m) && forall|x: u64| d.contains(x) ==> x <= m);
        let g = greatest(d);
        assert(d.contains(g) && forall|x: u64| d.contains(x) ==> x <= g);
        assert(g == m);
        assert(d.len() > 0) by {
            if d.len() == 0 {
                assert(d =~= Set::empty());
            }
        }
        let rest = s.drop_last();
        assert forall|x: u64| rest.contains(x) <==> d.remove(m).contains(x) by {
            if rest.contains(x) {
                let i = choose|i: int| 0 <= i < rest.len() && rest[i] == x;
                assert(s[i] == x);
                assert(s.contains(x));
            }
            if d.remove(m).contains(x) {
                assert(s.contains(x));
                let i = choose|i: int| 0 <= i < s.len() && s[i] == x;
                assert(rest[i] == x);
            }
        }
        ascending_keys_is_unique(rest, d.remove(m));
        assert(s =~= rest.push(m));
    }
}

/// An element pushed onto a sequence joins what the sequence holds.
proof fn pushed_joins(s: Seq<u64>, g: u64, x: u64)
    ensures
        s.push(g).contains(x) <==> x == g || s.contains(x),
{
    let t = s.push(g);
    if t.contains(x) {
        let i = choose|i: int| 0 <= i < t.len() && t[i] == x;
        if i < s.len() {
            assert(s[i] == x);
        }
    }
    if x == g {
        assert(t[s.len() as int] == x);
    }
    if s.contains(x) {
        let i = choose|i: int| 0 <= i < s.len() && s[i] == x;
        assert(t[i] == x);
    }
}

/// The elements of a finite set in ascending order ascend, and are its
/// elements.
pub proof fn ascending_keys_are_the_keys(d: Set<u64>)
    requires
        d.finite(),
    ensures
        ascends(ascending_keys(d)),
        ascending_keys(d).len() == d.len(),
        forall|x: u64| #[trigger] ascending_keys(d).contains(x) <==> d.contains(x),
    decreases d.len(),
{
    if d.len() == 0 {
        assert(d =~= Set::empty());
    } else {
        greatest_exists(d);
        let g = greatest(d);
        let rest = ascending_keys(d.remove(g));
        ascending_keys_are_the_keys(d.remove(g));
        let s = rest.push(g);
        assert(ascending_keys(d) == s);
        assert forall|i: int, j: int| 0 <= i < j < s.len() implies s[i] < s[j] by {
            assert(rest.contains(rest[i]));
            assert(d.remove(g).contains(rest[i]));
        }
        assert forall|x: u64| #[trigger] ascending_keys(d).contains(x) <==> d.contains(x) by {
            pushed_joins(rest, g, x);
            assert(ascending_keys(d.remove(g)).contains(x) <==> d.remove(g).contains(x));
        }
    }
}

/// A finite set that is not empty has a greatest element.
proof fn greatest_exists(d: Set<u64>)
    requires
        d.finite(),
        d.len() > 0,
    ensures
        d.contains(greatest(d)),
        forall|x: u64| d.contains(x) ==> x <= greatest(d),
    decreases d.len(),
{
    let e = d.choose();
    let rest = d.remove(e);
    if rest.len() == 0 {
        assert(rest =~= Set::empty());
        assert forall|x: u64| d.contains(x) implies x <= e by {
            assert(x == e || rest.contains(x));
        }
        assert(d.contains(e) && forall|x: u64| d.contains(x) ==> x <= e);
    } else {
        greatest_exists(rest);
        let m = if e >= greatest(rest) {
            e
        } else {
            greatest(rest)
        };
        assert forall|x: u64| d.contains(x) implies x <= m by {
            assert(x == e || rest.contains(x));
        }
        assert(d.contains(m) && forall|x: u64| d.contains(x) ==> x <= m);
    }
}

/// Puts `x` at its place in an ascending vector that does not hold it.
fn insert_key(keys: &mut Vec<u64>, x: u64)
    requires
        ascends(old(keys)@),
        !old(keys)@.contains(x),
    ensures
        ascends(final(keys)@),
        forall|y: u64| final(keys)@.contains(y) <==> y == x || old(keys)@.contains(y),
{
    let mut at: usize = 0;
    while at < keys.len() && keys[at] < x
        invariant
            at <= keys.len(),
            forall|i: int| 0 <= i < at ==> keys@[i] < x,
        decreases keys.len() - at,
    {
        at = at + 1;
    }
    let ghost before = keys@;
    keys.insert(at, x);
    proof {
        if at < before.len() {
            assert(before.contains(before[at as int]));
        }
        assert forall|y: u64| keys@.contains(y) <==> y == x || before.contains(y) by {
            if keys@.contains(y) {
                let i = choose|i: int| 0 <= i < keys@.len() && keys@[i] == y;
                if i < at {
                    assert(before[i] == y);
                } else if i > at {
                    assert(before[i - 1] == y);
                }
            }
            if y == x {
                assert(keys@[at as int] == x);
            }
            if before.contains(y) {
                let i = choose|i: int| 0 <= i < before.len() && before[i] == y;
                if i < at {
                    assert(keys@[i] == y);
                } else {
                    assert(keys@[i + 1] == y);
                }
            }
        }
    }
}

/// The keys of a map in ascending order.
fn sorted_keys(m: &HashMap<u64, usize>) -> (r: Vec<u64>)
    ensures
        r@ == ascending_keys(m@.dom()),
{
    let mut keys: Vec<u64> = Vec::new();
    for k in it: m.keys()
        invariant
            it.seq().unref().to_set() == m@.dom(),
            it.seq().no_duplicates(),
            ascends(keys@),
            forall|y: u64|
                #[trigger] keys@.contains(y) <==> exists|i: int|
                    0 <= i < it.index() && *it.seq()[i] == y,
    {
        proof {
            if keys@.contains(*k) {
                let i = choose|i: int| 0 <= i < it.index() && *it.seq()[i] == *k;
                assert(it.seq()[i] == it.seq()[it.index()]);
            }
        }
        let ghost before = keys@;
        insert_key(&mut keys, *k);
        proof {
            assert forall|y: u64| #[trigger] keys@.contains(y) <==> exists|i: int|
                0 <= i < it.index() + 1 && *it.seq()[i] == y by {
                if y == *k {
                    assert(*it.seq()[it.index()] == y);
                }
                if before.contains(y) {
                    let i = choose|i: int| 0 <= i < it.index() && *it.seq()[i] == y;
                    assert(0 <= i < it.index() + 1 && *it.seq()[i] == y);
                }
                if exists|i: int| 0 <= i < it.index() + 1 && *it.seq()[i] == y {
                    let i = choose|i: int| 0 <= i < it.index() + 1 && *it.seq()[i] == y;
                    if i < it.index() {
                        assert(before.contains(y));
                    }
                }
            }
        }
    }
    proof {
        let all = vstd::std_specs::hash::spec_keys_iter(m).remaining();
        assert forall|x: u64| keys@.contains(x) <==> m@.dom().contains(x) by {
            assert(all.unref().to_set().contains(x) <==> all.unref().contains(x));
            if all.unref().contains(x) {
                let i = choose|i: int| 0 <= i < all.unref().len() && all.unref()[i] == x;
                assert(*all[i] == x);
            }
            if keys@.contains(x) {
                let i = choose|i: int| 0 <= i < all.len() && *all[i] == x;
                assert(all.unref()[i] == x);
            }
        }
        ascending_keys_is_unique(keys@, m@.dom());
    }
    keys
}

/// The values of a map in ascending order of their keys.
pub fn values_by_key(m: &HashMap<u64, usize>) -> (r: Vec<usize>)
    ensures
        r@ == ascending_keys(m@.dom()).map_values(|k: u64| m@[k]),
{
    let keys = sorted_keys(m);
    let ghost want = ascending_keys(m@.dom()).map_values(|k: u64| m@[k]);
    proof {
        ascending_keys_are_the_keys(m@.dom());
        assert forall|k: int| 0 <= k < keys@.len() implies m@.contains_key(
            #[trigger] keys@[k],
        ) by {
            assert(ascending_keys(m@.dom()).contains(keys@[k]));
        }
    }
    let mut values: Vec<usize> = Vec::new();
    let mut i: usize = 0;
    while i < keys.len()
        invariant
            i <= keys.len(),
            want.len() == keys.len(),
            forall|k: int| 0 <= k < keys.len() ==> m@.contains_key(#[trigger] keys@[k]),
            forall|k: int| 0 <= k < keys.len() ==> want[k] == m@[#[trigger] keys@[k]],
            values@ == want.take(i as int),
        decreases keys.len() - i,
    {
        assert(m@.contains_key(keys@[i as int]));
        match m.get(&keys[i]) {
            Some(v) => values.push(*v),
            None => {},
        }
        i = i + 1;
        assert(values@ =~= want.take(i as int));
    }
    assert(values@ =~= want);
    values
}

} // verus!
