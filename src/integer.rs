//! Integer arithmetic for the calculator: `i64` values, with sums,
//! differences, products and powers taken modulo 2^64.

use vstd::prelude::*;

use crate::context::Scalar;
use crate::shell::index_of;
use crate::syntax::BinOp;
use crate::text::chars_of;

verus! {

/// The value of a decimal digit; other characters count as zero.
pub open spec fn digit_val(c: char) -> i64 {
    if '0' <= c && c <= '9' {
        (c as u32 - '0' as u32) as i64
    } else {
        0
    }
}

fn digit_value(c: char) -> (r: i64)
    ensures
        r == digit_val(c),
{
    if '0' <= c && c <= '9' {
        (c as u32 - '0' as u32) as i64
    } else {
        0
    }
}

/// The digits of `s` read in decimal, modulo 2^64.
pub open spec fn digits_wrapped(s: Seq<char>) -> i64
    decreases s.len(),
{
    if s.len() == 0 {
        0
    } else {
        digits_wrapped(s.drop_last()).wrapping_mul(10).wrapping_add(digit_val(s.last()))
    }
}

/// `a / b` rounded toward zero; `i64::MIN / -1` wraps to `i64::MIN`.
pub open spec fn quotient(a: i64, b: i64) -> i64 {
    if b == 0 {
        0
    } else if a == i64::MIN && b == -1 {
        i64::MIN
    } else {
        let q = (if a < 0 { -a } else { a as int }) / (if b < 0 { -b } else { b as int });
        (if (a < 0) != (b < 0) { -q } else { q }) as i64
    }
}

/// `a` multiplied `n` times onto one, modulo 2^64.
pub open spec fn power_wrapped(a: i64, n: nat) -> i64
    decreases n,
{
    if n == 0 {
        1
    } else {
        power_wrapped(a, (n - 1) as nat).wrapping_mul(a)
    }
}

/// `a ^ b`: for `b >= 0` the wrapped power; for `b < 0` the power rounded
/// toward zero, which is `1` for `a == 1`, `±1` for `a == -1` and `0`
/// otherwise.
pub open spec fn integer_power(a: i64, b: i64) -> i64 {
    if b >= 0 {
        power_wrapped(a, b as nat)
    } else if a == 1 {
        1
    } else if a == -1 {
        if b % 2 == 0 {
            1i64
        } else {
            -1i64
        }
    } else {
        0
    }
}

impl Scalar for i64 {
    /// The digits before any `.`, in decimal modulo 2^64.
    open spec fn literal_value(text: Seq<char>) -> i64 {
        digits_wrapped(text.take(index_of(text, '.', 0)))
    }

    open spec fn apply(self, op: BinOp, rhs: i64) -> i64 {
        match op {
            BinOp::Add => self.wrapping_add(rhs),
            BinOp::Subtract => self.wrapping_sub(rhs),
            BinOp::Multiply => self.wrapping_mul(rhs),
            BinOp::Divide => quotient(self, rhs),
            BinOp::Power => integer_power(self, rhs),
        }
    }

    open spec fn is_zero_value(self) -> bool {
        self == 0
    }

    fn from_literal(text: &str) -> (r: i64) {
        let cs = chars_of(text);
        let mut v: i64 = 0;
        let mut i: usize = 0;
        while i < cs.len() && cs[i] != '.'
            invariant
                cs@ == text@,
                i <= cs@.len(),
                index_of(cs@, '.', 0) == index_of(cs@, '.', i as int),
                v == digits_wrapped(cs@.take(i as int)),
            decreases cs.len() - i,
        {
            proof {
                assert(cs@.take(i + 1).drop_last() =~= cs@.take(i as int));
            }
            v = v.wrapping_mul(10).wrapping_add(digit_value(cs[i]));
            i += 1;
        }
        assert(index_of(cs@, '.', i as int) == i);
        v
    }

    fn plus(self, rhs: i64) -> (r: i64) {
        self.wrapping_add(rhs)
    }

    fn minus(self, rhs: i64) -> (r: i64) {
        self.wrapping_sub(rhs)
    }

    fn times(self, rhs: i64) -> (r: i64) {
        self.wrapping_mul(rhs)
    }

    fn divide(self, rhs: i64) -> (r: i64) {
        if self == i64::MIN && rhs == -1 {
            return i64::MIN;
        }
        let a = self as i128;
        let b = rhs as i128;
        let ua = if a < 0 { -a } else { a };
        let ub = if b < 0 { -b } else { b };
        let q = ua / ub;
        proof {
            assert(0 <= q <= ua) by (nonlinear_arith)
                requires
                    q == ua / ub,
                    ub >= 1,
                    ua >= 0,
            ;
            if q == ua && ua == 0x8000_0000_0000_0000 {
                assert(ub == 1) by (nonlinear_arith)
                    requires
                        q == ua / ub,
                        ub >= 1,
                        q == ua,
                        ua > 0,
                ;
            }
        }
        if (self < 0) != (rhs < 0) {
            (-q) as i64
        } else {
            q as i64
        }
    }

    fn power(self, rhs: i64) -> (r: i64) {
        if rhs >= 0 {
            let mut r: i64 = 1;
            let mut k: i64 = 0;
            while k < rhs
                invariant
                    0 <= k <= rhs,
                    r == power_wrapped(self, k as nat),
                decreases rhs - k,
            {
                r = r.wrapping_mul(self);
                k += 1;
            }
            r
        } else if self == 1 {
            1
        } else if self == -1 {
            if rhs % 2 == 0 {
                1
            } else {
                -1
            }
        } else {
            0
        }
    }

    fn is_zero(&self) -> (r: bool) {
        *self == 0
    }
}

} // verus!
