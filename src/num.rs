//! Numeric helper functions.
use vstd::arithmetic::div_mod::lemma_mod_multiples_vanish;
use vstd::prelude::*;
use vstd::std_specs::cmp::PartialOrdSpec;

verus! {

/// `a` is strictly greater than `b` in `T`'s partial order.
pub open spec fn greater<T: PartialOrd>(a: T, b: T) -> bool {
    a.partial_cmp_spec(&b) == Some(core::cmp::Ordering::Greater)
}

/// `a` is strictly less than `b` in `T`'s partial order.
pub open spec fn less<T: PartialOrd>(a: T, b: T) -> bool {
    a.partial_cmp_spec(&b) == Some(core::cmp::Ordering::Less)
}

/// Position of the item that a left-to-right scan of the first `k` items of
/// `s` keeps when it replaces its current pick only by a strictly greater
/// item (or, with `max == false`, by a strictly smaller one).
pub open spec fn scan_pick<T: PartialOrd>(s: Seq<T>, k: int, max: bool) -> int
    decreases k,
{
    if k <= 1 {
        0
    } else {
        let m = scan_pick(s, k - 1, max);
        if (max && greater(s[k - 1], s[m])) || (!max && less(s[k - 1], s[m])) {
            k - 1
        } else {
            m
        }
    }
}

/// The first greatest item, for a type with only a partial order: an item
/// replaces the current pick only when it is strictly greater.
pub fn partial_max<T: PartialOrd + Copy>(items: &Vec<T>) -> (r: Option<T>)
    ensures
        r.is_none() <==> items@.len() == 0,
        items@.len() > 0 ==> exists|i: int| 0 <= i < items@.len() && r == Some(#[trigger] items@[i]),
        items@.len() > 0 && T::obeys_partial_cmp_spec() ==> r == Some(
            items@[scan_pick(items@, items@.len() as int, true)],
        ),
{
    scan(items, true)
}

/// The first least item, for a type with only a partial order: an item
/// replaces the current pick only when it is strictly less.
pub fn partial_min<T: PartialOrd + Copy>(items: &Vec<T>) -> (r: Option<T>)
    ensures
        r.is_none() <==> items@.len() == 0,
        items@.len() > 0 ==> exists|i: int| 0 <= i < items@.len() && r == Some(#[trigger] items@[i]),
        items@.len() > 0 && T::obeys_partial_cmp_spec() ==> r == Some(
            items@[scan_pick(items@, items@.len() as int, false)],
        ),
{
    scan(items, false)
}

fn scan<T: PartialOrd + Copy>(items: &Vec<T>, max: bool) -> (r: Option<T>)
    ensures
        r.is_none() <==> items@.len() == 0,
        items@.len() > 0 ==> exists|i: int| 0 <= i < items@.len() && r == Some(#[trigger] items@[i]),
        items@.len() > 0 && T::obeys_partial_cmp_spec() ==> r == Some(
            items@[scan_pick(items@, items@.len() as int, max)],
        ),
{
    if items.len() == 0 {
        return None;
    }
    let mut pick: usize = 0;
    let mut i: usize = 1;
    while i < items.len()
        invariant
            1 <= i <= items@.len(),
            pick < i,
            T::obeys_partial_cmp_spec() ==> pick == scan_pick(items@, i as int, max),
        decreases items@.len() - i,
    {
        let better = if max {
            items[i] > items[pick]
        } else {
            items[i] < items[pick]
        };
        if better {
            pick = i;
        }
        i += 1;
    }
    Some(items[pick])
}

/// `x` wrapped onto a torus of size `n`: the remainder of `x` modulo `n`,
/// always in `0..n`.
pub fn torus(x: i32, n: i32) -> (r: i32)
    requires
        n > 0,
    ensures
        0 <= r < n,
        r == x as int % n as int,
{
    let xx = x as i64;
    let nn = n as i64;
    let ghost a: int = xx as int;
    let ghost m: int = nn as int;
    let k: i64 = if xx < 0 {
        proof {
            assert(0 <= (-a) / m <= -a) by (nonlinear_arith)
                requires
                    a < 0,
                    m > 0,
            ;
        }
        -xx / nn + 1
    } else {
        0
    };
    proof {
        let kk = k as int;
        if kk > 0 {
            assert(kk == (-a) / m + 1);
            assert((kk - 1) * m <= -a) by (nonlinear_arith)
                requires
                    kk - 1 == (-a) / m,
                    a < 0,
                    m > 0,
            ;
            assert(-a < kk * m) by (nonlinear_arith)
                requires
                    kk - 1 == (-a) / m,
                    a < 0,
                    m > 0,
            ;
        }
        assert(0 <= kk * m <= 0x1_0000_0000) by (nonlinear_arith)
            requires
                0 <= kk,
                kk > 0 ==> (kk - 1) * m <= -a,
                kk == 0 || a < 0,
                m > 0,
                m <= 0x7fff_ffff,
                -a <= 0x8000_0000,
        ;
        lemma_mod_multiples_vanish(kk, a, m);
        assert(m * kk + a == a + kk * m) by (nonlinear_arith);
    }
    ((xx + k * nn) % nn) as i32
}

} // verus!
