//! Primitive Pythagorean triples in increasing order of hypotenuse.

use vstd::prelude::*;

use crate::numeric::{gcd, gcd_of};

verus! {

/// Hypotenuses stay below this bound, so that their squares fit in a `u64`.
pub const LIMIT: u64 = 0x1_0000_0000;

/// `(a, b, c)` is a primitive Pythagorean triple with `a < b`.
pub open spec fn primitive(a: nat, b: nat, c: nat) -> bool {
    &&& 0 < a < b
    &&& a * a + b * b == c * c
    &&& gcd_of(a, b) == 1
}

/// Triples are ordered by hypotenuse, then by shorter leg: `(c, a)` comes
/// before `(c2, a2)`.
pub open spec fn key_before(c: nat, a: nat, c2: nat, a2: nat) -> bool {
    c < c2 || (c == c2 && a < a2)
}

/// No primitive triple has a key after `(c0, a0)` and before `(c, a)`.
pub open spec fn none_between(c0: nat, a0: nat, c: nat, a: nat) -> bool {
    forall|x: nat, y: nat, z: nat|
        #[trigger] primitive(x, y, z) && key_before(c0, a0, z, x) ==> !key_before(z, x, c, a)
}

proof fn lemma_leg_below_hypotenuse(a: nat, b: nat, c: nat)
    requires
        primitive(a, b, c),
    ensures
        a < c,
{
    assert(a < c) by (nonlinear_arith)
        requires
            0 < a < b,
            a * a + b * b == c * c,
    ;
}

proof fn lemma_root_unique(b: int, r: int, x: int)
    requires
        0 <= b,
        0 <= r,
        b * b == x,
        r * r <= x < (r + 1) * (r + 1),
    ensures
        b == r,
{
    if b < r {
        assert(b * b < r * r) by (nonlinear_arith)
            requires
                0 <= b < r,
        ;
    } else if b > r {
        assert(b * b >= (r + 1) * (r + 1)) by (nonlinear_arith)
            requires
                b >= r + 1,
                r >= 0,
        ;
    }
}

/// The integer square root of `x`.
fn isqrt(x: u64) -> (r: u64)
    ensures
        r <= LIMIT,
        r * r <= x < (r + 1) * (r + 1),
{
    let mut lo: u64 = 0;
    let mut hi: u64 = LIMIT;
    assert(x < hi * hi);
    while hi - lo > 1
        invariant
            lo < hi <= LIMIT,
            lo * lo <= x < hi * hi,
        decreases hi - lo,
    {
        let mid = lo + (hi - lo) / 2;
        assert(mid * mid <= LIMIT * LIMIT) by (nonlinear_arith)
            requires
                mid <= LIMIT,
        ;
        if (mid as u128) * (mid as u128) <= x as u128 {
            lo = mid;
        } else {
            hi = mid;
        }
    }
    lo
}

/// A generator of primitive Pythagorean triples `(a, b, c)`, `a < b`, in
/// increasing order of `c` and then of `a`.
#[derive(Debug)]
pub struct Pythagorean {
    last_c: u64,
    last_a: u64,
}

impl Pythagorean {
    /// The key `(c, a)` of the last triple yielded; `(0, 0)` at the start.
    pub closed spec fn last(&self) -> (nat, nat) {
        (self.last_c as nat, self.last_a as nat)
    }

    /// A generator that has yielded nothing yet.
    pub fn new() -> (r: Self)
        ensures
            r.last() == (0nat, 0nat),
    {
        Pythagorean { last_c: 0, last_a: 0 }
    }

    /// The next primitive triple after the last one yielded, or `None` when
    /// there is none with a hypotenuse below [`LIMIT`].
    pub fn next_triple(&mut self) -> (r: Option<(u64, u64, u64)>)
        requires
            old(self).last().1 <= old(self).last().0 < LIMIT,
        ensures
            final(self).last().1 <= final(self).last().0 < LIMIT,
            match r {
                Some((a, b, c)) => {
                    &&& primitive(a as nat, b as nat, c as nat)
                    &&& key_before(old(self).last().0, old(self).last().1, c as nat, a as nat)
                    &&& none_between(old(self).last().0, old(self).last().1, c as nat, a as nat)
                    &&& final(self).last() == (c as nat, a as nat)
                },
                None => {
                    &&& none_between(old(self).last().0, old(self).last().1, LIMIT as nat, 0)
                    &&& final(self).last() == old(self).last()
                },
            },
    {
        let c0 = self.last_c;
        let a0 = self.last_a;
        let mut c = c0;
        let mut a = a0 + 1;
        while c < LIMIT
            invariant
                a0 <= c0 < LIMIT,
                c0 <= c <= LIMIT,
                c == c0 ==> a >= a0 + 1,
                a >= 1,
                a <= c + 1,
                self.last_c == c0,
                self.last_a == a0,
                *self == *old(self),
                none_between(c0 as nat, a0 as nat, c as nat, a as nat),
                c == LIMIT ==> a == 1,
            decreases LIMIT - c, LIMIT + 1 - a,
        {
            if a >= c {
                proof {
                    assert forall|x: nat, y: nat, z: nat|
                        #[trigger] primitive(x, y, z) && key_before(c0 as nat, a0 as nat, z, x)
                            implies !key_before(z, x, (c + 1) as nat, 1) by {
                        lemma_leg_below_hypotenuse(x, y, z);
                    }
                }
                c += 1;
                a = 1;
            } else {
                proof {
                    assert(c * c < LIMIT * LIMIT) by (nonlinear_arith)
                        requires
                            c < LIMIT,
                    ;
                    assert(a * a < c * c) by (nonlinear_arith)
                        requires
                            a < c,
                    ;
                }
                let x = c * c - a * a;
                let b = isqrt(x);
                let found = b * b == x && a < b && gcd(a, b) == 1;
                if found {
                    assert(primitive(a as nat, b as nat, c as nat));
                    assert(key_before(c0 as nat, a0 as nat, c as nat, a as nat));
                    self.last_c = c;
                    self.last_a = a;
                    return Some((a, b, c));
                }
                proof {
                    assert forall|xx: nat, y: nat, z: nat|
                        #[trigger] primitive(xx, y, z) && key_before(c0 as nat, a0 as nat, z, xx)
                            implies !key_before(z, xx, c as nat, (a + 1) as nat) by {
                        if z == c && xx == a {
                            lemma_root_unique(y as int, b as int, x as int);
                        }
                    }
                }
                a += 1;
            }
        }
        None
    }
}

/// A generator of primitive Pythagorean triples, starting from the first.
pub fn pythagorean() -> (r: Pythagorean)
    ensures
        r.last() == (0nat, 0nat),
{
    Pythagorean::new()
}

} // verus!
