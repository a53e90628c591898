//! Order statistics and frequencies of integer lists.

use vstd::prelude::*;
use vstd::seq_lib::{to_multiset_build, to_multiset_contains, to_multiset_insert, to_multiset_len};

verus! {

broadcast use vstd::seq_lib::group_to_multiset_ensures, vstd::multiset::group_multiset_axioms;

pub open spec fn sorted(s: Seq<isize>) -> bool {
    forall|i: int, j: int| 0 <= i < j < s.len() ==> s[i] <= s[j]
}

/// `t` is `s` rearranged in non-decreasing order.
pub open spec fn sorted_version(t: Seq<isize>, s: Seq<isize>) -> bool {
    sorted(t) && t.to_multiset() == s.to_multiset()
}

/// How often `x` occurs in `s`.
pub open spec fn occurrences<A>(s: Seq<A>, x: A) -> nat {
    s.to_multiset().count(x)
}

/// A copy of `v` in non-decreasing order.
fn sorted_copy(v: &Vec<isize>) -> (r: Vec<isize>)
    ensures
        sorted_version(r@, v@),
        r@.len() == v@.len(),
{
    let mut r: Vec<isize> = Vec::new();
    let mut i: usize = 0;
    while i < v.len()
        invariant
            i <= v.len(),
            sorted(r@),
            r@.to_multiset() == v@.take(i as int).to_multiset(),
        decreases v.len() - i,
    {
        let x = v[i];
        let mut pos: usize = 0;
        while pos < r.len() && r[pos] <= x
            invariant
                pos <= r.len(),
                forall|j: int| 0 <= j < pos ==> r@[j] <= x,
            decreases r.len() - pos,
        {
            pos += 1;
        }
        let ghost before = r@;
        r.insert(pos, x);
        proof {
            to_multiset_insert(before, pos as int, x);
            assert(v@.take(i + 1) =~= v@.take(i as int).push(x));
            to_multiset_build(v@.take(i as int), x);
            assert forall|a: int, b: int| 0 <= a < b < r@.len() implies r@[a] <= r@[b] by {
                if b == pos {
                } else if a == pos {
                    assert(r@[b] == before[b - 1]);
                    assert(before[pos as int] > x);
                } else if a < pos && b > pos {
                    assert(r@[b] == before[b - 1]);
                    assert(before[pos as int] > x);
                }
            }
        }
        i += 1;
    }
    proof {
        assert(v@.take(i as int) =~= v@);
        to_multiset_len(r@);
        to_multiset_len(v@);
    }
    r
}

/// The median of `values`: the element at position `n / 2` (counting from
/// zero) once the `n` values are sorted, which is the `(n+1)/2`-th smallest
/// for odd `n` and the `(n/2)+1`-th smallest for even `n`. `None` when the
/// list is empty.
pub fn median(values: Vec<isize>) -> (r: Option<isize>)
    ensures
        r is None <==> values@.len() == 0,
        r is Some ==> exists|t: Seq<isize>|
            sorted_version(t, values@) && t.len() == values@.len() && #[trigger] t[(values@.len()
                / 2) as int] == r->Some_0,
{
    let sorted = sorted_copy(&values);
    if sorted.len() == 0 {
        None
    } else {
        let k = sorted.len() / 2;
        Some(sorted[k])
    }
}

/// The position of the first element of `inner` that equals its median
/// (see [`median`]); `None` when the list is empty.
pub fn position_median(inner: Vec<isize>) -> (r: Option<usize>)
    ensures
        r is None <==> inner@.len() == 0,
        r is Some ==> r->Some_0 < inner@.len() && exists|t: Seq<isize>|
            sorted_version(t, inner@) && t.len() == inner@.len() && #[trigger] t[(inner@.len() / 2) as int]
                == inner@[r->Some_0 as int] && forall|j: int|
                0 <= j < r->Some_0 ==> inner@[j] != t[(inner@.len() / 2) as int],
{
    if inner.len() == 0 {
        return None;
    }
    let sorted = sorted_copy(&inner);
    let m = sorted[inner.len() / 2];
    let mut i: usize = 0;
    while i < inner.len()
        invariant
            sorted_version(sorted@, inner@),
            sorted@.len() == inner@.len(),
            m == sorted@[(inner@.len() / 2) as int],
            i <= inner.len(),
            forall|j: int| 0 <= j < i ==> inner@[j] != m,
        decreases inner.len() - i,
    {
        if inner[i] == m {
            return Some(i);
        }
        i += 1;
    }
    proof {
        to_multiset_contains(sorted@, m);
        to_multiset_contains(inner@, m);
        assert(sorted@.contains(m));
    }
    None
}

fn count_isize(s: &Vec<isize>, x: isize) -> (c: usize)
    ensures
        c == occurrences(s@, x),
{
    let mut c: usize = 0;
    let mut j: usize = 0;
    while j < s.len()
        invariant
            j <= s.len(),
            c == occurrences(s@.take(j as int), x),
            c <= j,
        decreases s.len() - j,
    {
        proof {
            assert(s@.take(j + 1) =~= s@.take(j as int).push(s@[j as int]));
            to_multiset_build(s@.take(j as int), s@[j as int]);
        }
        if s[j] == x {
            c += 1;
        }
        j += 1;
    }
    assert(s@.take(j as int) =~= s@);
    c
}

fn count_usize(s: &Vec<usize>, x: usize) -> (c: usize)
    ensures
        c == occurrences(s@, x),
{
    let mut c: usize = 0;
    let mut j: usize = 0;
    while j < s.len()
        invariant
            j <= s.len(),
            c == occurrences(s@.take(j as int), x),
            c <= j,
        decreases s.len() - j,
    {
        proof {
            assert(s@.take(j + 1) =~= s@.take(j as int).push(s@[j as int]));
            to_multiset_build(s@.take(j as int), s@[j as int]);
        }
        if s[j] == x {
            c += 1;
        }
        j += 1;
    }
    assert(s@.take(j as int) =~= s@);
    c
}

/// The smallest of the values that occur most often in `values`; `None`
/// when the list is empty.
pub fn mode(values: Vec<isize>) -> (r: Option<isize>)
    ensures
        r is None <==> values@.len() == 0,
        r is Some ==> {
            let m = r->Some_0;
            &&& values@.contains(m)
            &&& forall|x: isize| occurrences(values@, x) <= occurrences(values@, m)
            &&& forall|x: isize|
                values@.contains(x) && occurrences(values@, x) == occurrences(values@, m) ==> m
                    <= x
        },
{
    if values.len() == 0 {
        return None;
    }
    let mut best = values[0];
    let mut best_count = count_isize(&values, best);
    let mut i: usize = 1;
    while i < values.len()
        invariant
            1 <= i <= values.len(),
            values@.contains(best),
            best_count == occurrences(values@, best),
            forall|k: int|
                0 <= k < i ==> occurrences(values@, #[trigger] values@[k]) < best_count || (
                occurrences(values@, values@[k]) == best_count && best <= values@[k]),
        decreases values.len() - i,
    {
        let x = values[i];
        let c = count_isize(&values, x);
        if c > best_count || (c == best_count && x < best) {
            best = x;
            best_count = c;
        }
        i += 1;
    }
    assert forall|x: isize| occurrences(values@, x) <= occurrences(values@, best) by {
        to_multiset_contains(values@, x);
        if values@.contains(x) {
            let k = choose|k: int| 0 <= k < values@.len() && values@[k] == x;
            assert(occurrences(values@, values@[k]) <= best_count);
        }
    }
    assert forall|x: isize|
        values@.contains(x) && occurrences(values@, x) == occurrences(values@, best) implies best
        <= x by {
        let k = choose|k: int| 0 <= k < values@.len() && values@[k] == x;
        assert(occurrences(values@, values@[k]) == best_count);
    }
    Some(best)
}

pub open spec fn increasing(s: Seq<usize>) -> bool {
    forall|i: int, j: int| 0 <= i < j < s.len() ==> s[i] < s[j]
}

/// Adds `x` to a strictly increasing vector, keeping it so.
fn insert_sorted(r: &mut Vec<usize>, x: usize)
    requires
        increasing(old(r)@),
    ensures
        increasing(final(r)@),
        forall|y: usize| final(r)@.contains(y) <==> (old(r)@.contains(y) || y == x),
{
    let mut pos: usize = 0;
    while pos < r.len() && r[pos] < x
        invariant
            pos <= r.len(),
            forall|j: int| 0 <= j < pos ==> r@[j] < x,
        decreases r.len() - pos,
    {
        pos += 1;
    }
    if pos < r.len() && r[pos] == x {
        assert(r@[pos as int] == x);
        assert(forall|y: usize| r@.contains(y) <==> (old(r)@.contains(y) || y == x));
        return;
    }
    let ghost before = r@;
    assert(before == old(r)@);
    r.insert(pos, x);
    assert forall|a: int, b: int| 0 <= a < b < r@.len() implies r@[a] < r@[b] by {
        if a == pos {
            assert(r@[b] == before[b - 1]);
        } else if a < pos && b > pos {
            assert(r@[b] == before[b - 1]);
        }
    }
    assert forall|y: usize| r@.contains(y) <==> (before.contains(y) || y == x) by {
        if before.contains(y) {
            let k = choose|k: int| 0 <= k < before.len() && before[k] == y;
            if k < pos {
                assert(r@[k] == y);
            } else {
                assert(r@[k + 1] == y);
            }
        }
        if y == x {
            assert(r@[pos as int] == y);
        }
        if r@.contains(y) {
            let k = choose|k: int| 0 <= k < r@.len() && r@[k] == y;
            if k < pos {
                assert(before[k] == y);
            } else if k > pos {
                assert(before[k - 1] == y);
            }
        }
    }
    assert(forall|y: usize| r@.contains(y) <==> (old(r)@.contains(y) || y == x));
}

/// The values that occur exactly `n` times in `inner`, in increasing order.
pub fn find_count_n(inner: Vec<usize>, n: usize) -> (r: Vec<usize>)
    ensures
        increasing(r@),
        forall|x: usize| r@.contains(x) <==> (inner@.contains(x) && occurrences(inner@, x) == n),
{
    let mut r: Vec<usize> = Vec::new();
    let mut i: usize = 0;
    while i < inner.len()
        invariant
            i <= inner.len(),
            increasing(r@),
            forall|x: usize|
                r@.contains(x) <==> (exists|k: int| 0 <= k < i && #[trigger] inner@[k] == x)
                    && occurrences(inner@, x) == n,
        decreases inner.len() - i,
    {
        let x = inner[i];
        if count_usize(&inner, x) == n {
            insert_sorted(&mut r, x);
        }
        proof {
            assert forall|y: usize|
                r@.contains(y) <==> (exists|k: int| 0 <= k < i + 1 && #[trigger] inner@[k] == y)
                    && occurrences(inner@, y) == n by {
                if y == x {
                    assert(inner@[i as int] == y);
                }
            }
        }
        i += 1;
    }
    r
}

} // verus!
