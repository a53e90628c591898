//! Sequences built from ranges, divisors, pattern positions and
//! round-robin merges.

use vstd::prelude::*;

verus! {

/// Endpoint of a range, inclusive or exclusive.
#[derive(Debug, Clone, Copy, PartialEq, Eq, Structural)]
pub enum Endpoint {
    /// Inclusive endpoint.
    Inclusive(isize),
    /// Exclusive endpoint.
    Exclusive(isize),
}

/// The first value a range may yield, for the direction of `step`.
pub open spec fn range_start(left: Endpoint, step: int) -> int {
    match left {
        Endpoint::Inclusive(v) => v as int,
        Endpoint::Exclusive(v) => if step > 0 {
            v + 1
        } else {
            v - 1
        },
    }
}

/// The exclusive bound of a range, for the direction of `step`.
pub open spec fn range_stop(right: Endpoint, step: int) -> int {
    match right {
        Endpoint::Inclusive(v) => if step > 0 {
            v + 1
        } else {
            v - 1
        },
        Endpoint::Exclusive(v) => v as int,
    }
}

/// `x` has not yet passed the bound `stop` in the direction of `step`.
pub open spec fn before_stop(x: int, stop: int, step: int) -> bool {
    if step > 0 {
        x < stop
    } else {
        x > stop
    }
}

/// The values from `left` towards `right`, `step` apart, with each endpoint
/// included or excluded as it says. `step` must not be zero; a negative
/// step counts down.
pub fn range(left: Endpoint, right: Endpoint, step: isize) -> (r: Vec<isize>)
    requires
        step != 0,
    ensures
        ({
            let start = range_start(left, step as int);
            let stop = range_stop(right, step as int);
            &&& r@.len() > 0 ==> r@[0] == start
            &&& forall|i: int| 0 <= i < r@.len() - 1 ==> #[trigger] r@[i + 1] == r@[i] + step
            &&& forall|i: int| 0 <= i < r@.len() ==> before_stop(#[trigger] r@[i] as int, stop, step as int)
            &&& r@.len() == 0 ==> !before_stop(start, stop, step as int)
            &&& r@.len() > 0 ==> !before_stop(r@.last() + step, stop, step as int)
        }),
{
    let start: i128 = match left {
        Endpoint::Inclusive(v) => v as i128,
        Endpoint::Exclusive(v) => if step > 0 {
            v as i128 + 1
        } else {
            v as i128 - 1
        },
    };
    let stop: i128 = match right {
        Endpoint::Inclusive(v) => if step > 0 {
            v as i128 + 1
        } else {
            v as i128 - 1
        },
        Endpoint::Exclusive(v) => v as i128,
    };
    let mut r: Vec<isize> = Vec::new();
    let mut x: i128 = start;
    while (step > 0 && x < stop) || (step < 0 && x > stop)
        invariant
            step != 0,
            start == range_start(left, step as int),
            stop == range_stop(right, step as int),
            step > 0 ==> start <= x,
            step < 0 ==> x <= start,
            isize::MIN - 1 <= start <= isize::MAX + 1,
            isize::MIN - 1 <= stop <= isize::MAX + 1,
            r@.len() > 0 ==> r@[0] == start && x == r@.last() + step,
            r@.len() == 0 ==> x == start,
            forall|i: int| 0 <= i < r@.len() - 1 ==> #[trigger] r@[i + 1] == r@[i] + step,
            forall|i: int| 0 <= i < r@.len() ==> before_stop(#[trigger] r@[i] as int, stop as int, step as int),
        decreases
                if step > 0 {
                    if x < stop { stop - x } else { 0 }
                } else {
                    if x > stop { x - stop } else { 0 }
                },
    {
        r.push(x as isize);
        x = x + step as i128;
    }
    r
}

/// `d * e == n`.
pub open spec fn cofactors(n: int, d: int, e: int) -> bool {
    d * e == n
}

/// `d` divides `n`.
pub open spec fn divides(d: int, n: int) -> bool {
    n % d == 0
}

/// `e` is `n / d` for some `d` in `1..i`.
pub open spec fn small_cofactor(n: int, i: int, e: int) -> bool {
    exists|d: int| 1 <= d < i && #[trigger] cofactors(n, d, e)
}

proof fn lemma_quotient(n: int, d: int)
    requires
        n > 0,
        d > 0,
        n % d == 0,
    ensures
        n == d * (n / d),
        n / d >= 1,
        n % (n / d) == 0,
        n / (n / d) == d,
{
    assert(n == d * (n / d)) by (nonlinear_arith)
        requires
            d > 0,
            n % d == 0,
    ;
    let e = n / d;
    assert(e >= 1) by (nonlinear_arith)
        requires
            n == d * e,
            n > 0,
            d > 0,
    ;
    assert(n % e == 0 && n / e == d) by (nonlinear_arith)
        requires
            n == d * e,
            e > 0,
    ;
}

proof fn lemma_square_grows(a: int, b: int)
    requires
        0 <= a <= b,
    ensures
        a * a <= b * b,
{
    assert(a * a <= b * b) by (nonlinear_arith)
        requires
            0 <= a <= b,
    ;
}

/// The partner `e` of a divisor `d` with `d * d <= n` is at least `d`, and
/// beyond the square root when it differs from `d`.
proof fn lemma_partner(n: int, d: int, e: int)
    requires
        d > 0,
        d * e == n,
        d * d <= n,
    ensures
        d <= e,
        e != d ==> e * e > n,
{
    assert(d <= e) by (nonlinear_arith)
        requires
            d > 0,
            d * e == n,
            d * d <= n,
    ;
    if e != d {
        assert(e * e > n) by (nonlinear_arith)
            requires
                d > 0,
                d < e,
                d * e == n,
        ;
    }
}

/// Of two factorizations of `n`, the smaller first factor has the larger
/// second one.
proof fn lemma_partners_ordered(n: int, d1: int, e1: int, d2: int, e2: int)
    requires
        0 < d1 < d2,
        d1 * e1 == n,
        d2 * e2 == n,
        n > 0,
    ensures
        e2 < e1,
{
    assert(e2 < e1) by (nonlinear_arith)
        requires
            0 < d1 < d2,
            d1 * e1 == n,
            d2 * e2 == n,
            n > 0,
    ;
}

/// Every divisor of `n` in increasing order; `n` must be positive. Only
/// candidates up to the square root of `n` are tried: each divisor `d` found
/// there also gives the divisor `n / d`.
pub fn divisors(n: u64) -> (r: Vec<u64>)
    requires
        n > 0,
    ensures
        forall|i: int, j: int| 0 <= i < j < r@.len() ==> r@[i] < r@[j],
        forall|x: u64| r@.contains(x) <==> (1 <= x <= n && n % x == 0),
{
    let mut small: Vec<u64> = Vec::new();
    let mut large: Vec<u64> = Vec::new();
    let mut i: u64 = 1;
    while (i as u128) * (i as u128) <= n as u128
        invariant
            n > 0,
            1 <= i <= 0x1_0000_0000,
            (i - 1) * (i - 1) <= n,
            i * i <= 0x1_0000_0000 * 0x1_0000_0000,
            forall|a: int, b: int| 0 <= a < b < small@.len() ==> small@[a] < small@[b],
            forall|a: int| 0 <= a < small@.len() ==> #[trigger] small@[a] < i,
            forall|a: int|
                0 <= a < small@.len() ==> #[trigger] small@[a] * small@[a] <= n,
            forall|x: u64| small@.contains(x) <==> (1 <= x < i && n % x == 0),
            forall|a: int, b: int| 0 <= a < b < large@.len() ==> large@[a] > large@[b],
            forall|a: int| 0 <= a < large@.len() ==> #[trigger] large@[a] * large@[a] > n,
            forall|a: int| 0 <= a < large@.len() ==> n % (#[trigger] large@[a]) == 0 && 1 <= large@[a] <= n,
            forall|a: int|
                0 <= a < large@.len() ==> small_cofactor(n as int, i as int, #[trigger] large@[a] as int),
            forall|d: int|
                1 <= d < i && #[trigger] divides(d, n as int) && (n as int) / d != d ==> large@.contains(
                    ((n as int) / d) as u64,
                ),
        decreases n + 1 - i,
    {
        assert(i * i <= n);
        proof {
            assert(i <= n) by (nonlinear_arith)
                requires
                    i >= 1,
                    i * i <= n,
            ;
        }
        if n % i == 0 {
            let q = n / i;
            proof {
                lemma_quotient(n as int, i as int);
                lemma_partner(n as int, i as int, q as int);
            }
            let ghost small_before = small@;
            small.push(i);
            assert forall|x: u64| small@.contains(x) <==> (1 <= x < i + 1 && n % x == 0) by {
                if small@.contains(x) {
                    let k = choose|k: int| 0 <= k < small@.len() && small@[k] == x;
                    if k < small_before.len() {
                        assert(small_before[k] == x);
                    }
                }
                if small_before.contains(x) {
                    let k = choose|k: int| 0 <= k < small_before.len() && small_before[k] == x;
                    assert(small@[k] == x);
                }
                if x == i {
                    assert(small@[small@.len() - 1] == x);
                }
            }
            if q != i {
                let ghost large_before = large@;
                large.push(q);
                proof {
                    assert forall|a: int, b: int| 0 <= a < b < large@.len() implies large@[a]
                        > large@[b] by {
                        if b == large@.len() - 1 {
                            let d = choose|d: int| 1 <= d < i && #[trigger] cofactors(n as int, d, large_before[a] as int);
                            lemma_partners_ordered(n as int, d, large_before[a] as int, i as int, q as int);
                        }
                    }
                    assert forall|a: int| 0 <= a < large@.len() implies small_cofactor(
                        n as int,
                        i + 1,
                        #[trigger] large@[a] as int,
                    ) by {
                        if a < large_before.len() {
                            let d = choose|d: int| 1 <= d < i && #[trigger] cofactors(n as int, d, large_before[a] as int);
                            assert(cofactors(n as int, d, large@[a] as int));
                        } else {
                            assert(cofactors(n as int, i as int, large@[a] as int));
                        }
                    }
                    assert forall|d: int|
                        1 <= d < i + 1 && #[trigger] divides(d, n as int) && (n as int) / d != d implies large@.contains(
                        ((n as int) / d) as u64,
                    ) by {
                        if d < i {
                            let k = choose|k: int| 0 <= k < large_before.len() && large_before[k] == ((n as int) / d) as u64;
                            assert(large@[k] == ((n as int) / d) as u64);
                        } else {
                            assert(large@[large@.len() - 1] == ((n as int) / d) as u64);
                        }
                    }
                }
            } else {
                proof {
                    assert forall|a: int| 0 <= a < large@.len() implies small_cofactor(
                        n as int,
                        i + 1,
                        #[trigger] large@[a] as int,
                    ) by {
                        let d = choose|d: int| 1 <= d < i && #[trigger] cofactors(n as int, d, large@[a] as int);
                        assert(cofactors(n as int, d, large@[a] as int));
                    }
                }
            }
        } else {
            proof {
                assert forall|a: int| 0 <= a < large@.len() implies small_cofactor(
                    n as int,
                    i + 1,
                    #[trigger] large@[a] as int,
                ) by {
                    let d = choose|d: int| 1 <= d < i && #[trigger] cofactors(n as int, d, large@[a] as int);
                    assert(cofactors(n as int, d, large@[a] as int));
                }
            }
        }
        proof {
            assert(i < 0x1_0000_0000) by (nonlinear_arith)
                requires
                    i * i <= n,
                    n < 0x1_0000_0000 * 0x1_0000_0000,
                    i >= 1,
            ;
            lemma_square_grows(i + 1, 0x1_0000_0000);
        }
        i += 1;
    }
    proof {
        assert((i as int) * (i as int) > n);
        assert forall|x: u64| small@.contains(x) || large@.contains(x) <==> (1 <= x <= n && n % x
            == 0) by {
            if small@.contains(x) {
                let a = choose|a: int| 0 <= a < small@.len() && small@[a] == x;
                assert(small@[a] * small@[a] <= n);
                assert(x <= n) by (nonlinear_arith)
                    requires
                        x >= 1,
                        x * x <= n,
                ;
            }
            if 1 <= x <= n && n % x == 0 {
                if (x as int) * (x as int) <= n {
                    if x >= i {
                        lemma_square_grows(i as int, x as int);
                    }
                } else {
                    let d = n / x;
                    lemma_quotient(n as int, x as int);
                    assert(d * d < n) by (nonlinear_arith)
                        requires
                            x * d == n,
                            x * x > n,
                            d >= 1,
                            x >= 1,
                    ;
                    if d >= i {
                        lemma_square_grows(i as int, d as int);
                    }
                    lemma_quotient(n as int, d as int);
                    assert(divides(d as int, n as int));
                    assert(x != d);
                    assert((n as int) / (d as int) == x);
                    assert(large@.contains(((n as int) / (d as int)) as u64));
                }
            }
            if large@.contains(x) {
                let b = choose|b: int| 0 <= b < large@.len() && large@[b] == x;
                assert(n % (large@[b]) == 0 && 1 <= large@[b] <= n);
            }
        }
    }
    let mut r = small;
    let ghost small_part = r@;
    let mut k = large.len();
    while k > 0
        invariant
            forall|x: u64| small_part.contains(x) || large@.contains(x) <==> (1 <= x <= n && n % x
                == 0),
            forall|a: int, b: int| 0 <= a < b < small_part.len() ==> small_part[a] < small_part[b],
            forall|a: int| 0 <= a < small_part.len() ==> #[trigger] small_part[a] * small_part[a] <= n,
            forall|a: int, b: int| 0 <= a < b < large@.len() ==> large@[a] > large@[b],
            forall|a: int| 0 <= a < large@.len() ==> #[trigger] large@[a] * large@[a] > n,
            k <= large@.len(),
            r@.len() == small_part.len() + (large@.len() - k),
            forall|a: int| 0 <= a < small_part.len() ==> r@[a] == small_part[a],
            forall|a: int|
                small_part.len() <= a < r@.len() ==> r@[a] == large@[large@.len() - 1 - (a
                    - small_part.len())],
        decreases k,
    {
        k -= 1;
        r.push(large[k]);
    }
    proof {
        assert forall|x: u64| r@.contains(x) <==> (1 <= x <= n && n % x == 0) by {
            if small_part.contains(x) {
                let a = choose|a: int| 0 <= a < small_part.len() && small_part[a] == x;
                assert(r@[a] == x);
            }
            if large@.contains(x) {
                let b = choose|b: int| 0 <= b < large@.len() && large@[b] == x;
                let a = small_part.len() + (large@.len() - 1 - b);
                assert(r@[a] == x);
            }
            if r@.contains(x) {
                let a = choose|a: int| 0 <= a < r@.len() && r@[a] == x;
                if a < small_part.len() {
                    assert(small_part[a] == x);
                } else {
                    let b = large@.len() - 1 - (a - small_part.len());
                    assert(large@[b] == x);
                }
            }
        }
        assert forall|a: int, b: int| 0 <= a < b < r@.len() implies r@[a] < r@[b] by {
            if b < small_part.len() {
                assert(r@[a] == small_part[a] && r@[b] == small_part[b]);
            } else if a >= small_part.len() {
                let la = large@.len() - 1 - (a - small_part.len());
                let lb = large@.len() - 1 - (b - small_part.len());
                assert(r@[a] == large@[la] && r@[b] == large@[lb]);
                assert(large@[lb] > large@[la]);
            } else {
                let lb = large@.len() - 1 - (b - small_part.len());
                let s = r@[a] as int;
                let e = large@[lb] as int;
                assert(small_part[a] == r@[a]);
                assert(r@[b] == large@[lb]);
                assert(s * s <= n);
                assert(e * e > n);
                if s >= e {
                    lemma_square_grows(e, s);
                }
            }
        }
    }
    r
}

/// `query` occurs in `base` starting at position `i`.
pub open spec fn occurs_at<T>(query: Seq<T>, base: Seq<T>, i: int) -> bool {
    0 <= i && i + query.len() <= base.len() && base.subrange(i, i + query.len()) == query
}

/// The positions at which `query` occurs in `base`, in increasing order;
/// occurrences may overlap. An empty query occurs at every position from
/// `0` to `base.len()`.
pub fn find(query: &[u8], base: &[u8]) -> (r: Vec<usize>)
    ensures
        forall|i: int, j: int| 0 <= i < j < r@.len() ==> r@[i] < r@[j],
        forall|p: usize| r@.contains(p) <==> occurs_at(query@, base@, p as int),
{
    let n = base.len();
    let m = query.len();
    let mut r: Vec<usize> = Vec::new();
    if m > n {
        assert forall|p: usize| r@.contains(p) <==> occurs_at(query@, base@, p as int) by {}
        return r;
    }
    let mut i: usize = 0;
    while i <= n - m
        invariant
            m <= n,
            n == base@.len(),
            m == query@.len(),
            i <= n - m + 1,
            forall|a: int, b: int| 0 <= a < b < r@.len() ==> r@[a] < r@[b],
            forall|a: int| 0 <= a < r@.len() ==> r@[a] < i,
            forall|p: usize| r@.contains(p) <==> (p < i && occurs_at(query@, base@, p as int)),
        decreases n - m + 1 - i,
    {
        let mut k: usize = 0;
        while k < m && base[i + k] == query[k]
            invariant
                i + m <= n,
                m == query@.len(),
                n == base@.len(),
                k <= m,
                forall|t: int| 0 <= t < k ==> base@[i + t] == query@[t],
            decreases m - k,
        {
            k += 1;
        }
        let found = k == m;
        let ghost before = r@;
        if found {
            assert(base@.subrange(i as int, i + m) =~= query@);
            r.push(i);
        }
        assert forall|p: usize| r@.contains(p) <==> (p < i + 1 && occurs_at(query@, base@, p as int)) by {
            if r@.contains(p) {
                let t = choose|t: int| 0 <= t < r@.len() && r@[t] == p;
                if t < before.len() {
                    assert(before[t] == p);
                }
            }
            if before.contains(p) {
                let t = choose|t: int| 0 <= t < before.len() && before[t] == p;
                assert(r@[t] == p);
            }
            if p == i && occurs_at(query@, base@, p as int) {
                if !found {
                    assert(base@.subrange(i as int, i + m)[k as int] == base@[i + k]);
                }
                assert(r@.last() == p);
            }
        }
        if i == n - m {
            assert forall|p: usize| r@.contains(p) <==> occurs_at(query@, base@, p as int) by {}
            return r;
        }
        i += 1;
    }
    r
}

/// The `i`-th element of each list, in list order.
pub open spec fn column<T>(lists: Seq<Vec<T>>, i: int) -> Seq<T> {
    lists.map_values(|v: Vec<T>| v@[i])
}

/// The first `rounds` rounds of a round-robin merge: each round takes the
/// next element of every list, in list order.
pub open spec fn interleaved<T>(lists: Seq<Vec<T>>, rounds: nat) -> Seq<T>
    decreases rounds,
{
    if rounds == 0 {
        seq![]
    } else {
        interleaved(lists, (rounds - 1) as nat) + column(lists, rounds - 1)
    }
}

/// Merges lists of one common length `len` round-robin: the first element
/// of each list in list order, then the second of each, and so on.
fn round_robin<T: Copy>(lists: &Vec<Vec<T>>, len: usize) -> (r: Vec<T>)
    requires
        forall|k: int| 0 <= k < lists@.len() ==> (#[trigger] lists@[k])@.len() == len,
    ensures
        r@ == interleaved(lists@, len as nat),
{
    let mut r: Vec<T> = Vec::new();
    let mut i: usize = 0;
    while i < len
        invariant
            i <= len,
            forall|k: int| 0 <= k < lists@.len() ==> (#[trigger] lists@[k])@.len() == len,
            r@ == interleaved(lists@, i as nat),
        decreases len - i,
    {
        let ghost done = r@;
        let mut k: usize = 0;
        while k < lists.len()
            invariant
                i < len,
                k <= lists@.len(),
                forall|k: int| 0 <= k < lists@.len() ==> (#[trigger] lists@[k])@.len() == len,
                r@ == done + column(lists@, i as int).take(k as int),
            decreases lists.len() - k,
        {
            r.push(lists[k][i]);
            k += 1;
            assert(r@ =~= done + column(lists@, i as int).take(k as int));
        }
        assert(column(lists@, i as int).take(k as int) =~= column(lists@, i as int));
        i += 1;
    }
    r
}

/// Alternates the elements of three lists of equal length: the first of
/// each, then the second of each, and so on.
pub fn interleave3<T: Copy>(list1: Vec<T>, list2: Vec<T>, list3: Vec<T>) -> (r: Vec<T>)
    requires
        list1@.len() == list2@.len(),
        list2@.len() == list3@.len(),
    ensures
        r@ == interleaved(seq![list1, list2, list3], list1@.len()),
{
    let len = list1.len();
    let lists = vec![list1, list2, list3];
    assert(lists@ =~= seq![list1, list2, list3]);
    round_robin(&lists, len)
}

/// Alternates the elements of any number of lists of equal length: the
/// first of each, then the second of each, and so on.
pub fn interleave_n<T: Copy>(iters: Vec<Vec<T>>) -> (r: Vec<T>)
    requires
        forall|k: int| 0 <= k < iters@.len() ==> (#[trigger] iters@[k])@.len() == iters@[0]@.len(),
    ensures
        r@ == interleaved(iters@, if iters@.len() == 0 { 0 } else { iters@[0]@.len() }),
{
    if iters.len() == 0 {
        return Vec::new();
    }
    let len = iters[0].len();
    round_robin(&iters, len)
}

} // verus!
