//! Functions as values: mapping over a sum type and applying a function a
//! growing number of times.

use vstd::prelude::*;

verus! {

/// Either a `T1` or a `T2`.
#[derive(Debug, PartialEq, Eq)]
pub enum Either2<T1, T2> {
    /// Case 1.
    Case1 {
        /// The inner value.
        inner: T1,
    },
    /// Case 2.
    Case2 {
        /// The inner value.
        inner: T2,
    },
}

impl<T1, T2> Either2<T1, T2> {
    /// Maps the inner value: `f1` for case 1, `f2` for case 2.
    pub fn map<U1, U2, F1: FnOnce(T1) -> U1, F2: FnOnce(T2) -> U2>(self, f1: F1, f2: F2) -> (r:
        Either2<U1, U2>)
        requires
            match self {
                Either2::Case1 { inner } => f1.requires((inner,)),
                Either2::Case2 { inner } => f2.requires((inner,)),
            },
        ensures
            match self {
                Either2::Case1 { inner } => r is Case1 && f1.ensures((inner,), r->Case1_inner),
                Either2::Case2 { inner } => r is Case2 && f2.ensures((inner,), r->Case2_inner),
            },
    {
        match self {
            Either2::Case1 { inner } => Either2::Case1 { inner: f1(inner) },
            Either2::Case2 { inner } => Either2::Case2 { inner: f2(inner) },
        }
    }
}

/// `y` is reached from `x` by `n` calls of `f`, each on the previous result.
pub open spec fn iterates<T, F: Fn(T) -> T>(f: F, n: nat, x: T, y: T) -> bool
    decreases n,
{
    if n == 0 {
        y == x
    } else {
        exists|z: T| iterates(f, (n - 1) as nat, x, z) && #[trigger] f.ensures((z,), y)
    }
}

/// Applies `f` to `x` `n` times.
fn apply_times<T, F: Fn(T) -> T>(f: &F, n: usize, x: T) -> (r: T)
    requires
        forall|v: T| f.requires((v,)),
    ensures
        iterates(*f, n as nat, x, r),
{
    let ghost x0 = x;
    let mut y = x;
    let mut k: usize = 0;
    while k < n
        invariant
            forall|v: T| f.requires((v,)),
            k <= n,
            iterates(*f, k as nat, x0, y),
        decreases n - k,
    {
        let ghost prev = y;
        y = f(y);
        k += 1;
        assert(iterates(*f, k as nat, x0, y)) by {
            assert(iterates(*f, (k - 1) as nat, x0, prev) && f.ensures((prev,), y));
        }
    }
    y
}

/// Applies `f` `i` times to the element at position `i`:
/// `[v0, f(v1), f(f(v2)), ...]`.
pub fn funny_map<T, F: Fn(T) -> T>(f: F, vs: Vec<T>) -> (r: Vec<T>)
    requires
        forall|v: T| f.requires((v,)),
    ensures
        r@.len() == vs@.len(),
        forall|i: int| 0 <= i < vs@.len() ==> iterates(f, i as nat, vs@[i], #[trigger] r@[i]),
{
    let ghost all = vs@;
    let mut rest = vs;
    let mut out: Vec<T> = Vec::new();
    while rest.len() > 0
        invariant
            forall|v: T| f.requires((v,)),
            out@.len() + rest@.len() == all.len(),
            rest@ == all.skip(out@.len() as int),
            forall|i: int| 0 <= i < out@.len() ==> iterates(f, i as nat, all[i], #[trigger] out@[i]),
        decreases rest.len(),
    {
        let ghost before = rest@;
        let v = rest.remove(0);
        assert(v == all[out@.len() as int]) by {
            assert(before[0] == all.skip(out@.len() as int)[0]);
        }
        let y = apply_times(&f, out.len(), v);
        out.push(y);
        assert(rest@ =~= all.skip(out@.len() as int));
    }
    out
}

} // verus!
