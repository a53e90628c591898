//! Routines on lists: inversions, filtering, de-duplication and joining
//! tables.

use vstd::prelude::*;

verus! {

broadcast use vstd::seq_lib::group_filter_ensures;

/// `(i, j)` comes before `(k, l)` in lexicographic order.
pub open spec fn pair_lt(a: (usize, usize), b: (usize, usize)) -> bool {
    a.0 < b.0 || (a.0 == b.0 && a.1 < b.1)
}

/// The pairs `(i, j)` with `i < j` and `inner[i] > inner[j]`, in increasing
/// lexicographic order.
pub fn inversion(inner: Vec<i64>) -> (r: Vec<(usize, usize)>)
    ensures
        forall|a: int, b: int| 0 <= a < b < r@.len() ==> pair_lt(r@[a], r@[b]),
        forall|p: (usize, usize)|
            r@.contains(p) <==> (p.0 < p.1 < inner@.len() && inner@[p.0 as int] > inner@[p.1 as int]),
{
    let n = inner.len();
    let mut r: Vec<(usize, usize)> = Vec::new();
    let mut i: usize = 0;
    while i < n
        invariant
            n == inner@.len(),
            i <= n,
            forall|a: int, b: int| 0 <= a < b < r@.len() ==> pair_lt(r@[a], r@[b]),
            forall|a: int| 0 <= a < r@.len() ==> (#[trigger] r@[a]).0 < i,
            forall|p: (usize, usize)|
                r@.contains(p) <==> (p.0 < i && p.0 < p.1 < n && inner@[p.0 as int] > inner@[p.1 as int]),
        decreases n - i,
    {
        let ghost start = r@;
        let mut j: usize = i + 1;
        while j < n
            invariant
                n == inner@.len(),
                i < n,
                i + 1 <= j <= n,
                start.len() <= r@.len(),
                forall|a: int| 0 <= a < start.len() ==> r@[a] == start[a],
                forall|a: int| 0 <= a < start.len() ==> (#[trigger] start[a]).0 < i,
                forall|a: int, b: int| 0 <= a < b < r@.len() ==> pair_lt(r@[a], r@[b]),
                forall|a: int| start.len() <= a < r@.len() ==> (#[trigger] r@[a]).0 == i && r@[a].1 < j,
                forall|p: (usize, usize)|
                    r@.contains(p) <==> (start.contains(p) || (p.0 == i && i < p.1 < j
                        && inner@[p.0 as int] > inner@[p.1 as int])),
            decreases n - j,
        {
            let ghost before = r@;
            if inner[i] > inner[j] {
                r.push((i, j));
                proof {
                    assert forall|a: int, b: int| 0 <= a < b < r@.len() implies pair_lt(
                        r@[a],
                        r@[b],
                    ) by {
                        if b == r@.len() - 1 && a >= start.len() {
                            assert(before[a] == r@[a]);
                        }
                        if b == r@.len() - 1 && a < start.len() {
                            assert(start[a] == r@[a]);
                        }
                    }
                }
            }
            proof {
                assert forall|p: (usize, usize)|
                    r@.contains(p) <==> (start.contains(p) || (p.0 == i && i < p.1 < j + 1
                        && inner@[p.0 as int] > inner@[p.1 as int])) by {
                    let old_side = start.contains(p) || (p.0 == i && i < p.1 < j
                        && inner@[p.0 as int] > inner@[p.1 as int]);
                    assert(before.contains(p) == old_side);
                    if r@.contains(p) {
                        let k = choose|k: int| 0 <= k < r@.len() && r@[k] == p;
                        if k < before.len() {
                            assert(before[k] == p);
                        }
                    }
                    if before.contains(p) {
                        let k = choose|k: int| 0 <= k < before.len() && before[k] == p;
                        assert(r@[k] == p);
                    }
                    if p.0 == i && p.1 == j && inner@[p.0 as int] > inner@[p.1 as int] {
                        assert(r@[r@.len() - 1] == p);
                    }
                }
            }
            let ghost jj = j;
            j += 1;
            assert(j == jj + 1);
            assert forall|p: (usize, usize)|
                r@.contains(p) <==> (start.contains(p) || (p.0 == i && i < p.1 < j
                    && inner@[p.0 as int] > inner@[p.1 as int])) by {
                assert(r@.contains(p) <==> (start.contains(p) || (p.0 == i && i < p.1 < jj + 1
                    && inner@[p.0 as int] > inner@[p.1 as int])));
            }
        }
        proof {
            assert forall|a: int| 0 <= a < r@.len() implies (#[trigger] r@[a]).0 < i + 1 by {
                if a < start.len() {
                    assert(r@[a] == start[a]);
                }
            }
            assert forall|p: (usize, usize)|
                r@.contains(p) <==> (p.0 < i + 1 && p.0 < p.1 < n && inner@[p.0 as int]
                    > inner@[p.1 as int]) by {
                assert(start.contains(p) == (p.0 < i && p.0 < p.1 < n && inner@[p.0 as int]
                    > inner@[p.1 as int]));
                if r@.contains(p) && !start.contains(p) {
                    assert(p.0 == i && i < p.1 < n);
                }
            }
        }
        i += 1;
    }
    r
}

/// Keeps only the odd numbers of `inner`, in order.
pub fn remove_even(inner: &mut Vec<i64>)
    ensures
        final(inner)@ == old(inner)@.filter(|x: i64| x % 2 != 0),
{
    let mut kept: Vec<i64> = Vec::new();
    let mut i: usize = 0;
    while i < inner.len()
        invariant
            i <= inner@.len(),
            kept@ == inner@.take(i as int).filter(|x: i64| x % 2 != 0),
        decreases inner.len() - i,
    {
        proof {
            assert(inner@.take(i + 1) =~= inner@.take(i as int).push(inner@[i as int]));
            inner@.take(i as int).lemma_filter_push(inner@[i as int], |x: i64| x % 2 != 0);
        }
        if inner[i] % 2 != 0 {
            kept.push(inner[i]);
        }
        i += 1;
    }
    assert(inner@.take(i as int) =~= inner@);
    *inner = kept;
}

/// `s` with each run of equal adjacent elements reduced to one element.
pub open spec fn dedup(s: Seq<i64>) -> Seq<i64>
    decreases s.len(),
{
    if s.len() <= 1 {
        s
    } else if s.last() == s[s.len() - 2] {
        dedup(s.drop_last())
    } else {
        dedup(s.drop_last()).push(s.last())
    }
}

proof fn lemma_dedup_last(s: Seq<i64>)
    requires
        s.len() > 0,
    ensures
        dedup(s).len() > 0,
        dedup(s).last() == s.last(),
    decreases s.len(),
{
    if s.len() > 1 && s.last() == s[s.len() - 2] {
        lemma_dedup_last(s.drop_last());
    }
}

/// Removes repeated adjacent occurrences of a number, keeping one of each
/// run.
pub fn remove_duplicate(inner: &mut Vec<i64>)
    ensures
        final(inner)@ == dedup(old(inner)@),
{
    if inner.len() == 0 {
        return;
    }
    let mut kept: Vec<i64> = vec![inner[0]];
    assert(inner@.take(1) =~= seq![inner@[0]]);
    let mut i: usize = 1;
    while i < inner.len()
        invariant
            1 <= i <= inner@.len(),
            kept@ == dedup(inner@.take(i as int)),
        decreases inner.len() - i,
    {
        proof {
            assert(inner@.take(i + 1).drop_last() =~= inner@.take(i as int));
            lemma_dedup_last(inner@.take(i as int));
        }
        if inner[i] != kept[kept.len() - 1] {
            kept.push(inner[i]);
        }
        i += 1;
    }
    assert(inner@.take(i as int) =~= inner@);
    *inner = kept;
}

/// A table row as a sequence of cell texts.
pub open spec fn row_view(row: Vec<String>) -> Seq<Seq<char>> {
    row@.map_values(|c: String| c@)
}

pub open spec fn table_view(t: Seq<Vec<String>>) -> Seq<Seq<Seq<char>>> {
    t.map_values(|row: Vec<String>| row_view(row))
}

/// Index of the first row of `t` whose first cell is `id`, if any.
pub open spec fn first_with_id(t: Seq<Seq<Seq<char>>>, id: Seq<char>, i: int) -> Option<int>
    decreases t.len() - i,
{
    if i < 0 || i >= t.len() {
        None
    } else if t[i][0] == id {
        Some(i)
    } else {
        first_with_id(t, id, i + 1)
    }
}

/// For each row of `t2` in order, whose first row in `t1` with the same
/// first cell is found: that id, the row of `t1`'s second cell, and the
/// row of `t2`'s second cell.
pub open spec fn joined(t1: Seq<Seq<Seq<char>>>, t2: Seq<Seq<Seq<char>>>) -> Seq<Seq<Seq<char>>>
    decreases t2.len(),
{
    if t2.len() == 0 {
        seq![]
    } else {
        let row2 = t2.last();
        let rest = joined(t1, t2.drop_last());
        match first_with_id(t1, row2[0], 0) {
            Some(k) => rest.push(seq![row2[0], t1[k][1], row2[1]]),
            None => rest,
        }
    }
}

/// The natural join of two tables of two columns each, on the first
/// column: each row of `table2` meets the first row of `table1` with the
/// same first cell.
pub fn natural_join(table1: Vec<Vec<String>>, table2: Vec<Vec<String>>) -> (r: Vec<Vec<String>>)
    requires
        forall|i: int| 0 <= i < table1@.len() ==> (#[trigger] table1@[i])@.len() == 2,
        forall|i: int| 0 <= i < table2@.len() ==> (#[trigger] table2@[i])@.len() == 2,
    ensures
        table_view(r@) == joined(table_view(table1@), table_view(table2@)),
{
    let ghost t1 = table_view(table1@);
    let ghost t2 = table_view(table2@);
    let mut r: Vec<Vec<String>> = Vec::new();
    let mut b: usize = 0;
    while b < table2.len()
        invariant
            t1 == table_view(table1@),
            t2 == table_view(table2@),
            forall|i: int| 0 <= i < table1@.len() ==> (#[trigger] table1@[i])@.len() == 2,
            forall|i: int| 0 <= i < table2@.len() ==> (#[trigger] table2@[i])@.len() == 2,
            b <= table2@.len(),
            table_view(r@) == joined(t1, t2.take(b as int)),
        decreases table2.len() - b,
    {
        proof {
            assert(t2.take(b + 1).drop_last() =~= t2.take(b as int));
        }
        let id2 = &table2[b][0];
        let mut a: usize = 0;
        while a < table1.len() && !(table1[a][0] == *id2)
            invariant
                t1 == table_view(table1@),
                forall|i: int| 0 <= i < table1@.len() ==> (#[trigger] table1@[i])@.len() == 2,
                a <= table1@.len(),
                first_with_id(t1, id2@, 0) == first_with_id(t1, id2@, a as int),
            decreases table1.len() - a,
        {
            a += 1;
        }
        if a < table1.len() {
            let row = vec![id2.clone(), table1[a][1].clone(), table2[b][1].clone()];
            let ghost before = table_view(r@);
            r.push(row);
            proof {
                assert(row_view(row) =~= seq![t2[b as int][0], t1[a as int][1], t2[b as int][1]]);
                assert(table_view(r@) =~= before.push(row_view(row)));
            }
        }
        b += 1;
    }
    assert(t2.take(b as int) =~= t2);
    r
}

} // verus!
