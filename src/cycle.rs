//! Cycle detection in a directed graph given by adjacency lists.

use vstd::prelude::*;

verus! {

/// Every edge of `g` leads to a node of `g`.
pub open spec fn closed_graph(g: Seq<Seq<usize>>) -> bool {
    forall|u: int, k: int| 0 <= u < g.len() && 0 <= k < g[u].len() ==> g[u][k] < g.len()
}

/// `p` is a walk in `g`: nodes of `g`, each followed by one of its
/// successors.
pub open spec fn walk(g: Seq<Seq<usize>>, p: Seq<usize>) -> bool {
    &&& p.len() >= 1
    &&& forall|i: int| 0 <= i < p.len() ==> p[i] < g.len()
    &&& forall|i: int| 0 <= i < p.len() - 1 ==> #[trigger] g[p[i] as int].contains(p[i + 1])
}

/// Some node reaches `u` by a walk of at least one edge that starts at `v`.
pub open spec fn reaches(g: Seq<Seq<usize>>, v: usize, u: usize) -> bool {
    exists|p: Seq<usize>| walk(g, p) && p.len() >= 2 && p[0] == v && #[trigger] p.last() == u
}

/// `g` has a cycle: a walk of at least one edge that returns to its start.
pub open spec fn has_cycle(g: Seq<Seq<usize>>) -> bool {
    exists|v: usize| v < g.len() && #[trigger] reaches(g, v, v)
}

pub open spec fn adjacency(edges: Seq<Vec<usize>>) -> Seq<Seq<usize>> {
    edges.map_values(|e: Vec<usize>| e@)
}

proof fn lemma_extend(g: Seq<Seq<usize>>, v: usize, u: usize, w: usize)
    requires
        reaches(g, v, u),
        u < g.len(),
        g[u as int].contains(w),
        w < g.len(),
    ensures
        reaches(g, v, w),
{
    let p = choose|p: Seq<usize>| walk(g, p) && p.len() >= 2 && p[0] == v && #[trigger] p.last() == u;
    let q = p.push(w);
    assert forall|i: int| 0 <= i < q.len() - 1 implies #[trigger] g[q[i] as int].contains(q[i + 1]) by {
        if i < p.len() - 1 {
            assert(q[i] == p[i] && q[i + 1] == p[i + 1]);
        } else {
            assert(q[i] == u);
        }
    }
    assert(q.last() == w);
}

/// A set of nodes closed under successors contains the end of every walk
/// that starts inside it.
proof fn lemma_closed_contains(g: Seq<Seq<usize>>, seen: Seq<bool>, p: Seq<usize>)
    requires
        seen.len() == g.len(),
        walk(g, p),
        seen[p[0] as int],
        forall|u: int, k: int|
            0 <= u < g.len() && seen[u] && 0 <= k < g[u].len() ==> seen[g[u][k] as int],
    ensures
        seen[p.last() as int],
    decreases p.len(),
{
    if p.len() > 1 {
        let q = p.drop_last();
        assert forall|i: int| 0 <= i < q.len() - 1 implies #[trigger] g[q[i] as int].contains(q[i + 1]) by {
            assert(g[p[i] as int].contains(p[i + 1]));
        }
        lemma_closed_contains(g, seen, q);
        let i = p.len() - 2;
        assert(g[p[i] as int].contains(p[i + 1]));
        let k = choose|k: int| 0 <= k < g[p[i] as int].len() && g[p[i] as int][k] == p[i + 1];
    }
}

/// How many entries of `s` are true.
pub open spec fn trues(s: Seq<bool>) -> nat
    decreases s.len(),
{
    if s.len() == 0 {
        0
    } else {
        trues(s.drop_last()) + if s.last() {
            1nat
        } else {
            0nat
        }
    }
}

proof fn lemma_trues_bound(s: Seq<bool>)
    ensures
        trues(s) <= s.len(),
    decreases s.len(),
{
    if s.len() > 0 {
        lemma_trues_bound(s.drop_last());
    }
}

proof fn lemma_trues_set(s: Seq<bool>, i: int)
    requires
        0 <= i < s.len(),
        !s[i],
    ensures
        trues(s.update(i, true)) == trues(s) + 1,
    decreases s.len(),
{
    let t = s.update(i, true);
    if i == s.len() - 1 {
        assert(t.drop_last() =~= s.drop_last());
    } else {
        assert(t.drop_last() =~= s.drop_last().update(i, true));
        lemma_trues_set(s.drop_last(), i);
    }
}

pub open spec fn distinct(s: Seq<usize>) -> bool {
    forall|i: int, j: int| 0 <= i < j < s.len() ==> s[i] != s[j]
}

/// Whether `v` reaches itself by a walk of at least one edge.
fn returns_to(edges: &Vec<Vec<usize>>, v: usize) -> (r: bool)
    requires
        closed_graph(adjacency(edges@)),
        v < edges@.len(),
    ensures
        r == reaches(adjacency(edges@), v, v),
{
    let ghost g = adjacency(edges@);
    let n = edges.len();
    let mut seen: Vec<bool> = Vec::new();
    while seen.len() < n
        invariant
            seen@.len() <= n,
            forall|u: int| 0 <= u < seen@.len() ==> !seen@[u],
        decreases n - seen.len(),
    {
        seen.push(false);
    }
    let mut stack: Vec<usize> = Vec::new();
    let succ = &edges[v];
    assert(succ@ == g[v as int]);
    let mut k: usize = 0;
    while k < succ.len()
        invariant
            g == adjacency(edges@),
            closed_graph(g),
            succ@ == g[v as int],
            v < n == g.len() == seen@.len(),
            k <= succ@.len(),
            distinct(stack@),
            forall|i: int| 0 <= i < stack@.len() ==> #[trigger] stack@[i] < n && seen@[stack@[i] as int],
            forall|u: int| 0 <= u < n && seen@[u] ==> reaches(g, v, u as usize),
            forall|j: int| 0 <= j < k ==> seen@[succ@[j] as int],
            forall|u: int| 0 <= u < n && seen@[u] ==> stack@.contains(u as usize),
        decreases succ.len() - k,
    {
        let w = succ[k];
        proof {
            let p = seq![v, w];
            assert(g[v as int].contains(w)) by {
                assert(g[v as int][k as int] == w);
            }
            assert(walk(g, p));
            assert(p.last() == w);
        }
        if !seen[w] {
            let ghost before = stack@;
            seen.set(w, true);
            stack.push(w);
            proof {
                assert forall|u: int| 0 <= u < n && seen@[u] implies stack@.contains(u as usize) by {
                    if u == w {
                        assert(stack@[stack@.len() - 1] == w);
                    } else {
                        let i = choose|i: int| 0 <= i < before.len() && before[i] == u as usize;
                        assert(stack@[i] == u as usize);
                    }
                }
                assert forall|a: int, b: int| 0 <= a < b < stack@.len() implies stack@[a] != stack@[b] by {
                    if b == before.len() {
                        assert(seen@[before[a] as int]);
                    }
                }
            }
        }
        k += 1;
    }
    while stack.len() > 0
        invariant
            g == adjacency(edges@),
            closed_graph(g),
            v < n == g.len() == seen@.len(),
            distinct(stack@),
            forall|j: int| 0 <= j < g[v as int].len() ==> seen@[g[v as int][j] as int],
            forall|i: int| 0 <= i < stack@.len() ==> #[trigger] stack@[i] < n && seen@[stack@[i] as int],
            forall|u: int| 0 <= u < n && seen@[u] ==> reaches(g, v, u as usize),
            forall|u: int, j: int|
                0 <= u < n && seen@[u] && !stack@.contains(u as usize) && 0 <= j < g[u].len()
                    ==> seen@[g[u][j] as int],
        decreases n - trues(seen@), stack.len(),
    {
        let ghost t0 = trues(seen@);
        let ghost full = stack@;
        let u = stack.pop().unwrap();
        let ghost s0 = stack@;
        proof {
            lemma_trues_bound(seen@);
            assert(full == s0.push(u));
            assert(!s0.contains(u)) by {
                if s0.contains(u) {
                    let i = choose|i: int| 0 <= i < s0.len() && s0[i] == u;
                    assert(full[i] == full[full.len() - 1]);
                }
            }
        }
        let succ = &edges[u];
        let mut j: usize = 0;
        while j < succ.len()
            invariant
                g == adjacency(edges@),
                closed_graph(g),
                succ@ == g[u as int],
                u < n,
                seen@[u as int],
                v < n == g.len() == seen@.len(),
                j <= succ@.len(),
                distinct(stack@),
                !stack@.contains(u),
                forall|j2: int| 0 <= j2 < g[v as int].len() ==> seen@[g[v as int][j2] as int],
                forall|i: int| 0 <= i < stack@.len() ==> #[trigger] stack@[i] < n && seen@[stack@[i] as int],
                forall|x: int| 0 <= x < n && seen@[x] ==> reaches(g, v, x as usize),
                forall|x: int, y: int|
                    0 <= x < n && seen@[x] && !stack@.contains(x as usize) && x != u && 0 <= y
                        < g[x].len() ==> seen@[g[x][y] as int],
                forall|y: int| 0 <= y < j ==> seen@[succ@[y] as int],
                trues(seen@) >= t0,
                trues(seen@) == t0 ==> stack@ == s0,
                trues(seen@) <= n,
            decreases succ.len() - j,
        {
            let w = succ[j];
            if !seen[w] {
                proof {
                    assert(g[u as int].contains(w)) by {
                        assert(g[u as int][j as int] == w);
                    }
                    lemma_extend(g, v, u, w);
                    lemma_trues_set(seen@, w as int);
                    assert(seen@.update(w as int, true).len() == n);
                    lemma_trues_bound(seen@.update(w as int, true));
                }
                let ghost before = stack@;
                let ghost seen_before = seen@;
                seen.set(w, true);
                stack.push(w);
                proof {
                    assert forall|a: int, b: int| 0 <= a < b < stack@.len() implies stack@[a]
                        != stack@[b] by {
                        if b == before.len() {
                            assert(seen_before[before[a] as int]);
                        }
                    }
                    assert(!stack@.contains(u)) by {
                        if stack@.contains(u) {
                            let i = choose|i: int| 0 <= i < stack@.len() && stack@[i] == u;
                            if i < before.len() {
                                assert(before[i] == u);
                            }
                        }
                    }
                    assert forall|x: int, y: int|
                        0 <= x < n && seen@[x] && !stack@.contains(x as usize) && x != u && 0 <= y
                            < g[x].len() implies seen@[g[x][y] as int] by {
                        if x != w {
                            if before.contains(x as usize) {
                                let i = choose|i: int| 0 <= i < before.len() && before[i] == x as usize;
                                assert(stack@[i] == x as usize);
                            }
                        } else {
                            assert(stack@[stack@.len() - 1] == w);
                        }
                    }
                }
            }
            j += 1;
        }
    }
    proof {
        if reaches(g, v, v) {
            let p = choose|p: Seq<usize>| walk(g, p) && p.len() >= 2 && p[0] == v && #[trigger] p.last() == v;
            let q = p.drop_first();
            let i0: int = 0;
            assert(g[p[i0] as int].contains(p[i0 + 1]));
            let k2 = choose|k2: int| 0 <= k2 < g[v as int].len() && g[v as int][k2] == p[1];
            assert forall|i: int| 0 <= i < q.len() - 1 implies #[trigger] g[q[i] as int].contains(q[i + 1]) by {
                let k = i + 1;
                assert(g[p[k] as int].contains(p[k + 1]));
            }
            lemma_closed_contains(g, seen@, q);
            assert(q.last() == v);
        }
    }
    seen[v]
}

/// Whether the graph has a cycle: some node reaches itself by a walk of at
/// least one edge. Every edge must lead to a node of the graph.
pub fn detect_cycle(edges: &Vec<Vec<usize>>) -> (r: bool)
    requires
        closed_graph(adjacency(edges@)),
    ensures
        r == has_cycle(adjacency(edges@)),
{
    let mut v: usize = 0;
    while v < edges.len()
        invariant
            closed_graph(adjacency(edges@)),
            v <= edges@.len(),
            forall|u: usize| u < v ==> !reaches(adjacency(edges@), u, u),
        decreases edges.len() - v,
    {
        if returns_to(edges, v) {
            assert(reaches(adjacency(edges@), v, v));
            return true;
        }
        v += 1;
    }
    false
}

} // verus!
