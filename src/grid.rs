//! Sums over lists of lists: the total of all elements, and the sums of
//! the cartesian product.

use vstd::prelude::*;

verus! {

/// The rows laid end to end.
pub open spec fn concat_rows(rows: Seq<Seq<i64>>) -> Seq<i64>
    decreases rows.len(),
{
    if rows.len() == 0 {
        seq![]
    } else {
        concat_rows(rows.drop_last()) + rows.last()
    }
}

/// Sum of a sequence of integers, as a mathematical integer.
pub open spec fn total(s: Seq<i64>) -> int
    decreases s.len(),
{
    if s.len() == 0 {
        0
    } else {
        total(s.drop_last()) + s.last()
    }
}

pub open spec fn rows_of(inner: Seq<Vec<i64>>) -> Seq<Seq<i64>> {
    inner.map_values(|v: Vec<i64>| v@)
}

/// Every running total, taken element by element in row order, fits in an
/// `i64`.
pub open spec fn running_totals_fit(rows: Seq<Seq<i64>>) -> bool {
    forall|i: int, j: int|
        0 <= i < rows.len() && 0 <= j <= rows[i].len() ==> i64::MIN <= #[trigger] total(
            concat_rows(rows.take(i)) + rows[i].take(j),
        ) <= i64::MAX
}

/// Returns the sum of all elements of a two-dimensional array. Every running
/// total must fit in an `i64`.
pub fn two_dimensional_sum(inner: Vec<Vec<i64>>) -> (r: i64)
    requires
        running_totals_fit(rows_of(inner@)),
    ensures
        r == total(concat_rows(rows_of(inner@))),
{
    let ghost rows = rows_of(inner@);
    let mut acc: i64 = 0;
    let mut i: usize = 0;
    assert(concat_rows(rows.take(0)) =~= seq![]);
    while i < inner.len()
        invariant
            rows == rows_of(inner@),
            running_totals_fit(rows),
            i <= inner.len(),
            acc == total(concat_rows(rows.take(i as int))),
        decreases inner.len() - i,
    {
        let row = &inner[i];
        let ghost before = concat_rows(rows.take(i as int));
        assert(before + rows[i as int].take(0) =~= before);
        let mut j: usize = 0;
        while j < row.len()
            invariant
                rows == rows_of(inner@),
                running_totals_fit(rows),
                i < inner.len(),
                row@ == rows[i as int],
                before == concat_rows(rows.take(i as int)),
                j <= row.len(),
                acc == total(before + rows[i as int].take(j as int)),
            decreases row.len() - j,
        {
            proof {
                let next = before + rows[i as int].take(j + 1);
                assert(next.drop_last() =~= before + rows[i as int].take(j as int));
                assert(i64::MIN <= total(before + rows[i as int].take(j + 1)) <= i64::MAX);
            }
            acc = acc + row[j];
            j += 1;
        }
        proof {
            assert(rows.take(i + 1).drop_last() =~= rows.take(i as int));
            assert(rows[i as int].take(j as int) =~= rows[i as int]);
        }
        i += 1;
    }
    assert(rows.take(i as int) =~= rows);
    acc
}

/// `ys` are results that `f` may give for the first `ys.len()` elements of
/// `xs`, in order.
pub open spec fn possible_outputs<T, F: Fn(T) -> i64>(f: F, xs: Seq<T>, ys: Seq<i64>) -> bool {
    &&& ys.len() <= xs.len()
    &&& forall|i: int| 0 <= i < ys.len() ==> f.ensures((xs[i],), #[trigger] ys[i])
}

/// Returns the sum of `f(v)` over the elements `v` of `inner`. Every running
/// sum of results that `f` may give must fit in an `i64`.
pub fn sigma<T, F: Fn(T) -> i64>(inner: Vec<T>, f: F) -> (r: i64)
    requires
        forall|x: T| f.requires((x,)),
        forall|ys: Seq<i64>|
            possible_outputs(f, inner@, ys) ==> i64::MIN <= #[trigger] total(ys) <= i64::MAX,
    ensures
        exists|ys: Seq<i64>|
            possible_outputs(f, inner@, ys) && ys.len() == inner@.len() && r == total(ys),
{
    let ghost all = inner@;
    let mut rest = inner;
    let mut sum: i64 = 0;
    let ghost mut ys: Seq<i64> = seq![];
    while rest.len() > 0
        invariant
            forall|x: T| f.requires((x,)),
            forall|ys: Seq<i64>|
                possible_outputs(f, all, ys) ==> i64::MIN <= #[trigger] total(ys) <= i64::MAX,
            possible_outputs(f, all, ys),
            ys.len() + rest@.len() == all.len(),
            rest@ == all.skip(ys.len() as int),
            sum == total(ys),
        decreases rest.len(),
    {
        let ghost before = rest@;
        let x = rest.remove(0);
        assert(x == all[ys.len() as int]) by {
            assert(before[0] == all.skip(ys.len() as int)[0]);
        }
        let y = f(x);
        proof {
            let next = ys.push(y);
            assert(next.drop_last() =~= ys);
            assert(possible_outputs(f, all, next));
            assert(i64::MIN <= total(next) <= i64::MAX);
        }
        sum = sum + y;
        proof {
            ys = ys.push(y);
        }
        assert(rest@ =~= all.skip(ys.len() as int));
    }
    sum
}

/// The sums `x + y` for `x` in `a` and `y` in `b`, in the order of `a` and
/// then of `b`.
pub open spec fn pair_sums(a: Seq<int>, b: Seq<i64>) -> Seq<int>
    decreases a.len(),
{
    if a.len() == 0 {
        seq![]
    } else {
        pair_sums(a.drop_last(), b) + shifted(a.last(), b)
    }
}

/// `x + y` for each `y` of `b`.
pub open spec fn shifted(x: int, b: Seq<i64>) -> Seq<int> {
    b.map_values(|y: i64| x + y)
}

/// The sums of the tuples of the cartesian product of the rows, one per
/// tuple; no sums at all when there are no rows.
pub open spec fn product_sums(rows: Seq<Seq<i64>>) -> Seq<int>
    decreases rows.len(),
{
    if rows.len() == 0 {
        seq![]
    } else if rows.len() == 1 {
        as_ints(rows[0])
    } else {
        pair_sums(product_sums(rows.drop_last()), rows.last())
    }
}

/// How many elements of `s` equal `n`.
pub open spec fn count_eq(s: Seq<int>, n: int) -> nat
    decreases s.len(),
{
    if s.len() == 0 {
        0
    } else {
        count_eq(s.drop_last(), n) + if s.last() == n { 1nat } else { 0nat }
    }
}

/// Every sum of a partial product (the first `k` rows) fits in an `i64`.
pub open spec fn partial_sums_fit(rows: Seq<Seq<i64>>) -> bool {
    forall|k: int, t: int|
        1 <= k <= rows.len() && 0 <= t < product_sums(rows.take(k)).len() ==> i64::MIN
            <= #[trigger] product_sums(rows.take(k))[t] <= i64::MAX
}

pub open spec fn as_ints(v: Seq<i64>) -> Seq<int> {
    v.map_values(|x: i64| x as int)
}

/// Among the tuples of the cartesian product of the rows, the number whose
/// sum is `n`. Every sum of the first `k` rows' product must fit in an
/// `i64`.
pub fn sum_is_n(inner: Vec<Vec<i64>>, n: i64) -> (r: usize)
    requires
        partial_sums_fit(rows_of(inner@)),
    ensures
        r == count_eq(product_sums(rows_of(inner@)), n as int),
{
    let ghost rows = rows_of(inner@);
    let mut sums: Vec<i64> = Vec::new();
    let mut i: usize = 0;
    while i < inner.len()
        invariant
            rows == rows_of(inner@),
            partial_sums_fit(rows),
            i <= inner.len(),
            as_ints(sums@) == product_sums(rows.take(i as int)),
        decreases inner.len() - i,
    {
        let row = &inner[i];
        proof {
            assert(rows.take(i + 1).drop_last() =~= rows.take(i as int));
            assert(rows.take(i + 1).last() == row@);
        }
        if i == 0 {
            let mut first: Vec<i64> = Vec::new();
            let mut q: usize = 0;
            while q < row.len()
                invariant
                    q <= row.len(),
                    first@ == row@.take(q as int),
                decreases row.len() - q,
            {
                first.push(row[q]);
                q += 1;
                assert(first@ =~= row@.take(q as int));
            }
            assert(row@.take(q as int) =~= row@);
            assert(rows.take(1)[0] == row@);
            sums = first;
        } else {
            let ghost a = as_ints(sums@);
            let mut tmp: Vec<i64> = Vec::new();
            let mut p: usize = 0;
            assert(as_ints(tmp@) =~= pair_sums(a.take(0), row@));
            while p < sums.len()
                invariant
                    rows == rows_of(inner@),
                    partial_sums_fit(rows),
                    1 <= i < inner.len(),
                    row@ == rows[i as int],
                    a == as_ints(sums@),
                    a == product_sums(rows.take(i as int)),
                    p <= sums.len(),
                    as_ints(tmp@) == pair_sums(a.take(p as int), row@),
                decreases sums.len() - p,
            {
                let x = sums[p];
                let ghost start = as_ints(tmp@);
                let mut q: usize = 0;
                assert(as_ints(tmp@) =~= start + shifted(x as int, row@.take(0)));
                while q < row.len()
                    invariant
                        rows == rows_of(inner@),
                        partial_sums_fit(rows),
                        1 <= i < inner.len(),
                        row@ == rows[i as int],
                        a == product_sums(rows.take(i as int)),
                        a == as_ints(sums@),
                        p < sums.len(),
                        x == sums@[p as int],
                        start == pair_sums(a.take(p as int), row@),
                        q <= row.len(),
                        as_ints(tmp@) == start + shifted(x as int, row@.take(q as int)),
                    decreases row.len() - q,
                {
                    proof {
                        let whole = pair_sums(a, row@);
                        lemma_pair_sums_index(a, row@, p as int, q as int);
                        assert(rows.take(i + 1).drop_last() =~= rows.take(i as int));
                        assert(product_sums(rows.take(i + 1)) == whole);
                        let t = p * row@.len() + q;
                        assert(i64::MIN <= product_sums(rows.take(i + 1))[t] <= i64::MAX);
                    }
                    let ghost prev = tmp@;
                    tmp.push(x + row[q]);
                    q += 1;
                    proof {
                        assert(tmp@ == prev.push((x + row@[q - 1]) as i64));
                        assert(as_ints(tmp@) =~= as_ints(prev).push(x + row@[q - 1]));
                        assert(shifted(x as int, row@.take(q as int)) =~= shifted(
                            x as int,
                            row@.take(q - 1),
                        ).push(x + row@[q - 1]));
                        assert(as_ints(tmp@) =~= start + shifted(x as int, row@.take(q as int)));
                    }
                }
                proof {
                    assert(a.take(p + 1).drop_last() =~= a.take(p as int));
                    assert(row@.take(q as int) =~= row@);
                }
                p += 1;
            }
            assert(a.take(p as int) =~= a);
            sums = tmp;
        }
        i += 1;
    }
    assert(rows.take(i as int) =~= rows);
    let mut c: usize = 0;
    let mut k: usize = 0;
    while k < sums.len()
        invariant
            k <= sums.len(),
            c == count_eq(as_ints(sums@).take(k as int), n as int),
            c <= k,
        decreases sums.len() - k,
    {
        proof {
            assert(as_ints(sums@).take(k + 1).drop_last() =~= as_ints(sums@).take(k as int));
        }
        if sums[k] == n {
            c += 1;
        }
        k += 1;
    }
    assert(as_ints(sums@).take(k as int) =~= as_ints(sums@));
    c
}

proof fn lemma_pair_sums_len(a: Seq<int>, b: Seq<i64>)
    ensures
        pair_sums(a, b).len() == a.len() * b.len(),
    decreases a.len(),
{
    if a.len() > 0 {
        lemma_pair_sums_len(a.drop_last(), b);
        assert((a.len() - 1) * b.len() + b.len() == a.len() * b.len()) by (nonlinear_arith);
    }
}

proof fn lemma_pair_sums_index(a: Seq<int>, b: Seq<i64>, p: int, q: int)
    requires
        0 <= p < a.len(),
        0 <= q < b.len(),
    ensures
        0 <= p * b.len() + q < pair_sums(a, b).len(),
        pair_sums(a, b)[p * b.len() + q] == a[p] + b[q],
        pair_sums(a.take(p), b).len() == p * b.len(),
    decreases a.len(),
{
    lemma_pair_sums_len(a, b);
    lemma_pair_sums_len(a.take(p), b);
    assert(p * b.len() + q < a.len() * b.len()) by (nonlinear_arith)
        requires
            0 <= p < a.len(),
            0 <= q < b.len(),
    ;
    assert(0 <= p * b.len()) by (nonlinear_arith)
        requires
            0 <= p,
    ;
    if p < a.len() - 1 {
        lemma_pair_sums_index(a.drop_last(), b, p, q);
        assert(a.drop_last().take(p) =~= a.take(p));
    } else {
        lemma_pair_sums_len(a.drop_last(), b);
        assert(a.drop_last() =~= a.take(p));
    }
}

} // verus!
