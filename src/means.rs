//! The integer parts of averaging: the sum of the smallest values, and
//! sums and counts per class. Dividing them stays with the caller, in
//! floating point.

use vstd::prelude::*;
use vstd::seq_lib::{to_multiset_build, to_multiset_insert, to_multiset_len};

verus! {

broadcast use vstd::seq_lib::group_to_multiset_ensures, vstd::multiset::group_multiset_axioms;

pub open spec fn ascending(s: Seq<i64>) -> bool {
    forall|i: int, j: int| 0 <= i < j < s.len() ==> s[i] <= s[j]
}

/// Sum of a sequence of integers.
pub open spec fn total(s: Seq<i64>) -> int
    decreases s.len(),
{
    if s.len() == 0 {
        0
    } else {
        total(s.drop_last()) + s.last()
    }
}

const HALF: i128 = 0x8000_0000_0000_0000;

/// A copy of `v` in non-decreasing order.
fn ascending_copy(v: &Vec<i64>) -> (r: Vec<i64>)
    ensures
        ascending(r@),
        r@.to_multiset() == v@.to_multiset(),
        r@.len() == v@.len(),
{
    let mut r: Vec<i64> = Vec::new();
    let mut i: usize = 0;
    while i < v.len()
        invariant
            i <= v.len(),
            ascending(r@),
            r@.to_multiset() == v@.take(i as int).to_multiset(),
        decreases v.len() - i,
    {
        let x = v[i];
        let mut pos: usize = 0;
        while pos < r.len() && r[pos] <= x
            invariant
                pos <= r.len(),
                forall|j: int| 0 <= j < pos ==> r@[j] <= x,
            decreases r.len() - pos,
        {
            pos += 1;
        }
        let ghost before = r@;
        r.insert(pos, x);
        proof {
            to_multiset_insert(before, pos as int, x);
            assert(v@.take(i + 1) =~= v@.take(i as int).push(x));
            to_multiset_build(v@.take(i as int), x);
            assert forall|a: int, b: int| 0 <= a < b < r@.len() implies r@[a] <= r@[b] by {
                if b == pos {
                } else if a == pos {
                    assert(r@[b] == before[b - 1]);
                    assert(before[pos as int] > x);
                } else if a < pos && b > pos {
                    assert(r@[b] == before[b - 1]);
                    assert(before[pos as int] > x);
                }
            }
        }
        i += 1;
    }
    proof {
        assert(v@.take(i as int) =~= v@);
        to_multiset_len(r@);
        to_multiset_len(v@);
    }
    r
}

/// The sum of the `k` smallest values (of all of them when there are fewer
/// than `k`).
pub fn k_smallest_sum(inner: Vec<i64>, k: usize) -> (r: i128)
    ensures
        exists|t: Seq<i64>|
            ascending(t) && t.to_multiset() == inner@.to_multiset() && t.len() == inner@.len()
                && r == total(t.take(if k < t.len() { k as int } else { t.len() as int })),
{
    let sorted = ascending_copy(&inner);
    let n = if k < sorted.len() { k } else { sorted.len() };
    let mut sum: i128 = 0;
    let mut i: usize = 0;
    while i < n
        invariant
            n <= sorted@.len(),
            i <= n,
            sum == total(sorted@.take(i as int)),
            -(i as int) * HALF <= sum <= (i as int) * HALF,
        decreases n - i,
    {
        proof {
            assert(sorted@.take(i + 1).drop_last() =~= sorted@.take(i as int));
        }
        sum = sum + sorted[i] as i128;
        i += 1;
    }
    sum
}

/// The marks of the entries for `name`, in order.
pub open spec fn marks_of(entries: Seq<(String, i64)>, name: Seq<char>) -> Seq<i64>
    decreases entries.len(),
{
    if entries.len() == 0 {
        seq![]
    } else if entries.last().0@ == name {
        marks_of(entries.drop_last(), name).push(entries.last().1)
    } else {
        marks_of(entries.drop_last(), name)
    }
}

/// Each class once, with the sum and the number of its marks.
pub open spec fn groups_match(g: Seq<(String, i128, usize)>, entries: Seq<(String, i64)>) -> bool {
    &&& forall|i: int, j: int| 0 <= i < j < g.len() ==> g[i].0@ != g[j].0@
    &&& forall|i: int|
        0 <= i < g.len() ==> #[trigger] g[i].1 == total(marks_of(entries, g[i].0@)) && g[i].2
            == marks_of(entries, g[i].0@).len()
    &&& forall|name: Seq<char>|
        #[trigger] marks_of(entries, name).len() > 0 <==> exists|i: int|
            0 <= i < g.len() && g[i].0@ == name
}

proof fn lemma_total_bound(s: Seq<i64>)
    ensures
        -(s.len() as int) * HALF <= total(s) <= (s.len() as int) * HALF,
    decreases s.len(),
{
    if s.len() > 0 {
        lemma_total_bound(s.drop_last());
    }
}

/// The classes of `inner` in order of first appearance, each with the sum
/// and the number of its marks.
pub fn class_totals(inner: Vec<(String, i64)>) -> (r: Vec<(String, i128, usize)>)
    ensures
        groups_match(r@, inner@),
{
    let mut g: Vec<(String, i128, usize)> = Vec::new();
    let mut i: usize = 0;
    while i < inner.len()
        invariant
            i <= inner@.len(),
            groups_match(g@, inner@.take(i as int)),
        decreases inner.len() - i,
    {
        let ghost prev = inner@.take(i as int);
        let ghost next = inner@.take(i + 1);
        let name = &inner[i].0;
        let mark = inner[i].1;
        proof {
            assert(next.drop_last() =~= prev);
            assert(next.last() == inner@[i as int]);
        }
        let mut j: usize = 0;
        while j < g.len() && !(g[j].0 == *name)
            invariant
                j <= g@.len(),
                forall|k: int| 0 <= k < j ==> g@[k].0@ != name@,
            decreases g.len() - j,
        {
            j += 1;
        }
        let ghost before = g@;
        if j < g.len() {
            proof {
                lemma_total_bound(marks_of(prev, name@));
                assert(marks_of(next, name@) == marks_of(prev, name@).push(mark));
                lemma_marks_len(next, name@);
            }
            let old_sum = g[j].1;
            let old_count = g[j].2;
            assert(old_count == marks_of(prev, name@).len());
            proof {
                lemma_marks_len(prev, name@);
            }
            g.set(j, (name.clone(), old_sum + mark as i128, old_count + 1));
            proof {
                assert(marks_of(next, name@).drop_last() =~= marks_of(prev, name@));
                assert forall|k: int| 0 <= k < g@.len() implies #[trigger] g@[k].1 == total(
                    marks_of(next, g@[k].0@),
                ) && g@[k].2 == marks_of(next, g@[k].0@).len() by {
                    if k != j {
                        assert(g@[k] == before[k]);
                        assert(before[k].0@ != before[j as int].0@);
                        assert(marks_of(next, before[k].0@) == marks_of(prev, before[k].0@));
                    } else {
                        let m = marks_of(next, name@);
                        assert(m.last() == mark);
                        assert(total(m) == total(m.drop_last()) + m.last());
                    }
                }
                assert forall|n: Seq<char>|
                    #[trigger] marks_of(next, n).len() > 0 <==> exists|k: int|
                        0 <= k < g@.len() && g@[k].0@ == n by {
                    if marks_of(prev, n).len() > 0 {
                        let k = choose|k: int| 0 <= k < before.len() && before[k].0@ == n;
                        assert(g@[k].0@ == n);
                    }
                    if n == name@ {
                        assert(g@[j as int].0@ == n);
                    }
                    if exists|k: int| 0 <= k < g@.len() && g@[k].0@ == n {
                        let k = choose|k: int| 0 <= k < g@.len() && g@[k].0@ == n;
                        if k != j {
                            assert(before[k].0@ == n);
                        }
                    }
                }
            }
        } else {
            proof {
                assert(marks_of(prev, name@).len() == 0);
                assert(marks_of(next, name@) =~= seq![mark]);
                let one = seq![mark];
                assert(one.drop_last() =~= Seq::<i64>::empty());
                assert(total(Seq::<i64>::empty()) == 0);
                assert(total(one) == total(one.drop_last()) + one.last());
            }
            g.push((name.clone(), mark as i128, 1));
            proof {
                assert forall|a: int, b: int| 0 <= a < b < g@.len() implies g@[a].0@ != g@[b].0@ by {
                    if b == before.len() {
                        assert(before[a].0@ != name@);
                    }
                }
                assert forall|k: int| 0 <= k < g@.len() implies #[trigger] g@[k].1 == total(
                    marks_of(next, g@[k].0@),
                ) && g@[k].2 == marks_of(next, g@[k].0@).len() by {
                    if k < before.len() {
                        assert(g@[k] == before[k]);
                        assert(before[k].0@ != name@);
                        assert(marks_of(next, before[k].0@) == marks_of(prev, before[k].0@));
                    } else {
                        assert(g@[k].0@ == name@);
                    }
                }
                assert forall|n: Seq<char>|
                    #[trigger] marks_of(next, n).len() > 0 <==> exists|k: int|
                        0 <= k < g@.len() && g@[k].0@ == n by {
                    if marks_of(prev, n).len() > 0 {
                        let k = choose|k: int| 0 <= k < before.len() && before[k].0@ == n;
                        assert(g@[k].0@ == n);
                    }
                    if n == name@ {
                        assert(g@[before.len() as int].0@ == n);
                    }
                    if exists|k: int| 0 <= k < g@.len() && g@[k].0@ == n {
                        let k = choose|k: int| 0 <= k < g@.len() && g@[k].0@ == n;
                        if k < before.len() {
                            assert(before[k].0@ == n);
                        }
                    }
                }
            }
        }
        i += 1;
    }
    assert(inner@.take(i as int) =~= inner@);
    g
}

proof fn lemma_marks_len(entries: Seq<(String, i64)>, name: Seq<char>)
    ensures
        marks_of(entries, name).len() <= entries.len(),
    decreases entries.len(),
{
    if entries.len() > 0 {
        lemma_marks_len(entries.drop_last(), name);
    }
}

} // verus!
