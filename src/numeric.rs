//! Integer routines: sums, powers of three, greatest common divisor,
//! pairing and Fibonacci checks.

use vstd::prelude::*;

verus! {

/// Sum of a sequence of unsigned integers.
pub open spec fn sum_of(s: Seq<u64>) -> int
    decreases s.len(),
{
    if s.len() == 0 {
        0
    } else {
        sum_of(s.drop_last()) + s.last()
    }
}

proof fn lemma_sum_of_prefix(s: Seq<u64>, i: int)
    requires
        0 <= i <= s.len(),
    ensures
        0 <= sum_of(s.take(i)) <= sum_of(s),
    decreases s.len() - i,
{
    if i < s.len() {
        lemma_sum_of_prefix(s, i + 1);
        assert(s.take(i + 1).drop_last() =~= s.take(i));
        lemma_sum_nonneg(s.take(i));
    } else {
        assert(s.take(i) =~= s);
        lemma_sum_nonneg(s);
    }
}

proof fn lemma_sum_nonneg(s: Seq<u64>)
    ensures
        sum_of(s) >= 0,
    decreases s.len(),
{
    if s.len() > 0 {
        lemma_sum_nonneg(s.drop_last());
    }
}

/// Returns the sum of the given array; the sum must fit in a `u64`.
pub fn sum_array(input: &[u64]) -> (r: u64)
    requires
        sum_of(input@) <= u64::MAX,
    ensures
        r == sum_of(input@),
{
    let mut sum: u64 = 0;
    let mut i: usize = 0;
    while i < input.len()
        invariant
            i <= input@.len(),
            sum == sum_of(input@.take(i as int)),
            sum_of(input@) <= u64::MAX,
        decreases input.len() - i,
    {
        proof {
            lemma_sum_of_prefix(input@, i + 1);
            assert(input@.take(i + 1).drop_last() =~= input@.take(i as int));
        }
        sum = sum + input[i];
        i += 1;
    }
    assert(input@.take(i as int) =~= input@);
    sum
}

/// `3` to the power `m`.
pub open spec fn pow3(m: nat) -> nat
    decreases m,
{
    if m == 0 {
        1
    } else {
        3 * pow3((m - 1) as nat)
    }
}

proof fn lemma_pow3_grows(a: nat, b: nat)
    requires
        a <= b,
    ensures
        pow3(a) <= pow3(b),
    decreases b - a,
{
    if a < b {
        lemma_pow3_grows(a, (b - 1) as nat);
    }
}

/// The smallest power of three that is at least `n`: `up3(6) == 9`,
/// `up3(9) == 9`, `up3(10) == 27`. When no power of three within `u64`
/// reaches `n`, the result is `u64::MAX`.
pub fn up3(n: u64) -> (r: u64)
    ensures
        (exists|m: nat|
            r == pow3(m) && n <= r && forall|k: nat| k < m ==> #[trigger] pow3(k) < n) || (r
            == u64::MAX && forall|k: nat| #[trigger] pow3(k) <= u64::MAX ==> pow3(k) < n),
{
    if n <= 1 {
        assert(pow3(0) == 1);
        assert(forall|k: nat| k < 0 ==> #[trigger] pow3(k) < n);
        return 1;
    }
    let mut p: u64 = 1;
    let ghost mut m: nat = 0;
    while p < n
        invariant
            p == pow3(m),
            p >= 1,
            forall|k: nat| k < m ==> #[trigger] pow3(k) < n,
        decreases u64::MAX - p,
    {
        match p.checked_mul(3) {
            Some(next) => {
                p = next;
                proof {
                    m = m + 1;
                }
            },
            None => {
                assert forall|k: nat| #[trigger] pow3(k) <= u64::MAX implies pow3(k) < n by {
                    if k > m {
                        lemma_pow3_grows(m + 1, k);
                    }
                }
                return u64::MAX;
            },
        }
    }
    assert(p == pow3(m) && n <= p && forall|k: nat| k < m ==> #[trigger] pow3(k) < n);
    p
}

/// Greatest common divisor by Euclid's algorithm.
pub open spec fn gcd_of(a: nat, b: nat) -> nat
    decreases b,
{
    if b == 0 {
        a
    } else {
        gcd_of(b, a % b)
    }
}

/// Returns the greatest common divisor of `lhs` and `rhs`; with `rhs`
/// zero it is `lhs`.
pub fn gcd(lhs: u64, rhs: u64) -> (r: u64)
    ensures
        r == gcd_of(lhs as nat, rhs as nat),
    decreases rhs,
{
    if rhs == 0 {
        lhs
    } else if lhs % rhs == 0 {
        assert(gcd_of(lhs as nat, rhs as nat) == gcd_of(rhs as nat, (lhs % rhs) as nat));
        rhs
    } else {
        let temp = lhs % rhs;
        gcd(rhs, temp)
    }
}

/// The binomial coefficient `n` choose `k`, by Pascal's rule.
pub open spec fn binom(n: nat, k: nat) -> nat
    decreases n,
{
    if k == 0 {
        1
    } else if n == 0 {
        0
    } else {
        binom((n - 1) as nat, (k - 1) as nat) + binom((n - 1) as nat, k)
    }
}

proof fn lemma_binom_past_end(n: nat, k: nat)
    ensures
        k > n ==> binom(n, k) == 0,
        binom(n, n) == 1,
    decreases n,
{
    if n > 0 {
        lemma_binom_past_end((n - 1) as nat, (k - 1) as nat);
        lemma_binom_past_end((n - 1) as nat, k);
        lemma_binom_past_end((n - 1) as nat, n);
    }
}

proof fn lemma_binom_rows_grow(i: nat, n: nat, k: nat)
    requires
        i <= n,
    ensures
        binom(i, k) <= binom(n, k),
    decreases n - i,
{
    if i < n {
        lemma_binom_rows_grow(i + 1, n, k);
    }
}

/// The row `n` of Pascal's triangle: `n` choose `k` for `k` from `0` to
/// `n`. Every entry must fit in a `u64`.
pub fn chooses(n: u64) -> (r: Vec<u64>)
    requires
        n < usize::MAX,
        forall|k: nat| k <= n ==> #[trigger] binom(n as nat, k) <= u64::MAX,
    ensures
        r@.len() == n + 1,
        forall|k: int| 0 <= k <= n ==> #[trigger] r@[k] == binom(n as nat, k as nat),
{
    let mut row: Vec<u64> = vec![1];
    let mut i: usize = 0;
    while (i as u64) < n
        invariant
            i <= n,
            n < usize::MAX,
            forall|k: nat| k <= n ==> #[trigger] binom(n as nat, k) <= u64::MAX,
            row@.len() == i + 1,
            forall|k: int| 0 <= k <= i ==> #[trigger] row@[k] == binom(i as nat, k as nat),
        decreases n - i,
    {
        let mut next: Vec<u64> = vec![1];
        let mut k: usize = 1;
        while k <= i
            invariant
                1 <= k <= i + 1,
                i < n,
                n < usize::MAX,
                forall|k: nat| k <= n ==> #[trigger] binom(n as nat, k) <= u64::MAX,
                row@.len() == i + 1,
                forall|k: int| 0 <= k <= i ==> #[trigger] row@[k] == binom(i as nat, k as nat),
                next@.len() == k,
                forall|j: int| 0 <= j < k ==> #[trigger] next@[j] == binom((i + 1) as nat, j as nat),
            decreases i + 1 - k,
        {
            proof {
                lemma_binom_rows_grow((i + 1) as nat, n as nat, k as nat);
                assert(binom((i + 1) as nat, k as nat) == binom(i as nat, (k - 1) as nat) + binom(
                    i as nat,
                    k as nat,
                ));
            }
            next.push(row[k - 1] + row[k]);
            k += 1;
        }
        proof {
            lemma_binom_past_end((i + 1) as nat, (i + 1) as nat);
        }
        next.push(1);
        row = next;
        i += 1;
    }
    row
}

/// Pairs up the elements of two vectors position by position; the longer
/// vector's extra elements are dropped.
pub fn zip(lhs: Vec<u64>, rhs: Vec<u64>) -> (r: Vec<(u64, u64)>)
    ensures
        r@.len() == if lhs@.len() <= rhs@.len() { lhs@.len() } else { rhs@.len() },
        forall|i: int| 0 <= i < r@.len() ==> #[trigger] r@[i] == (lhs@[i], rhs@[i]),
{
    let n = if lhs.len() <= rhs.len() { lhs.len() } else { rhs.len() };
    let mut r: Vec<(u64, u64)> = Vec::new();
    let mut i: usize = 0;
    while i < n
        invariant
            n <= lhs.len(),
            n <= rhs.len(),
            i <= n,
            r@.len() == i,
            forall|j: int| 0 <= j < i ==> #[trigger] r@[j] == (lhs@[j], rhs@[j]),
        decreases n - i,
    {
        r.push((lhs[i], rhs[i]));
        i += 1;
    }
    r
}

/// Every element from the third on is the sum of the two before it.
pub open spec fn fibonacci_like(s: Seq<i64>) -> bool {
    forall|i: int| 2 <= i < s.len() ==> #[trigger] s[i] == s[i - 1] + s[i - 2]
}

/// Whether `inner` is the Fibonacci sequence that starts with its first two
/// terms; sequences of length two or less are.
pub fn is_fibonacci(inner: Vec<i64>) -> (r: bool)
    ensures
        r == fibonacci_like(inner@),
{
    let mut i: usize = 2;
    while i < inner.len()
        invariant
            2 <= i,
            forall|j: int| 2 <= j < i && j < inner@.len() ==> #[trigger] inner@[j] == inner@[j
                - 1] + inner@[j - 2],
        decreases inner.len() - i,
    {
        let next = inner[i - 1] as i128 + inner[i - 2] as i128;
        if next != inner[i] as i128 {
            return false;
        }
        i += 1;
    }
    true
}

/// The terms of the Fibonacci-like sequence that starts with `a`, `b`.
pub open spec fn fib_term(a: nat, b: nat, i: nat) -> nat
    decreases i,
{
    if i == 0 {
        a
    } else if i == 1 {
        b
    } else {
        fib_term(a, b, (i - 1) as nat) + fib_term(a, b, (i - 2) as nat)
    }
}

proof fn lemma_fib_grows(a: nat, b: nat, i: nat, j: nat)
    requires
        1 <= i <= j,
    ensures
        fib_term(a, b, i) <= fib_term(a, b, j),
    decreases j - i,
{
    if i < j {
        lemma_fib_grows(a, b, i, (j - 1) as nat);
    }
}

/// The first `count` terms of the sequence that starts with `first`,
/// `second` and continues with the sum of the previous two terms. Every
/// term must fit in a `u64`.
pub fn fib(first: u64, second: u64, count: usize) -> (r: Vec<u64>)
    requires
        count == 0 || fib_term(first as nat, second as nat, (count - 1) as nat) <= u64::MAX,
        count <= 1 || second <= u64::MAX,
    ensures
        r@.len() == count,
        forall|i: int| 0 <= i < count ==> #[trigger] r@[i] == fib_term(first as nat, second as nat, i as nat),
{
    let mut r: Vec<u64> = Vec::new();
    let mut a = first;
    let mut b = second;
    let mut i: usize = 0;
    while i < count
        invariant
            i <= count,
            r@.len() == i,
            forall|j: int| 0 <= j < i ==> #[trigger] r@[j] == fib_term(first as nat, second as nat, j as nat),
            i < count ==> a == fib_term(first as nat, second as nat, i as nat),
            i + 1 < count ==> b == fib_term(first as nat, second as nat, (i + 1) as nat),
            count == 0 || fib_term(first as nat, second as nat, (count - 1) as nat) <= u64::MAX,
        decreases count - i,
    {
        r.push(a);
        if i + 1 < count && i + 2 < count {
            proof {
                lemma_fib_grows(first as nat, second as nat, (i + 2) as nat, (count - 1) as nat);
            }
            let next = a + b;
            a = b;
            b = next;
        } else if i + 1 < count {
            a = b;
        }
        i += 1;
    }
    r
}

} // verus!
