//! Rational coefficients and differentiable elementary functions.

use vstd::prelude::*;

use crate::text::{push_char, push_signed, push_str, signed_decimal};

verus! {

/// The largest `i` with `2 <= i <= k` that divides both `a` and `b`, or `1`
/// when there is none.
pub open spec fn common_divisor_upto(a: int, b: int, k: int) -> int
    decreases k,
{
    if k < 2 {
        1
    } else if a % k == 0 && b % k == 0 {
        k
    } else {
        common_divisor_upto(a, b, k - 1)
    }
}

/// The largest common divisor of `a` and `b` that is at most the smaller of
/// them, or `1` when no such divisor above one exists (so `1` when either is
/// below two).
pub open spec fn common_divisor(a: int, b: int) -> int {
    common_divisor_upto(a, b, if a <= b { a } else { b })
}

proof fn lemma_common_divisor_bounds(a: int, b: int, k: int)
    ensures
        1 <= common_divisor_upto(a, b, k),
        k >= 1 ==> common_divisor_upto(a, b, k) <= k,
        common_divisor_upto(a, b, k) >= 2 ==> a % common_divisor_upto(a, b, k) == 0 && b
            % common_divisor_upto(a, b, k) == 0,
    decreases k,
{
    if k >= 2 && !(a % k == 0 && b % k == 0) {
        lemma_common_divisor_bounds(a, b, k - 1);
    }
}

fn common_divisor_exec(a: i128, b: i128) -> (g: i128)
    ensures
        g == common_divisor(a as int, b as int),
        1 <= g,
        g >= 2 ==> a % g == 0 && b % g == 0 && g <= a && g <= b,
        a >= 1 && b >= 1 ==> g <= a && g <= b,
{
    let limit = if a <= b { a } else { b };
    proof {
        lemma_common_divisor_bounds(a as int, b as int, limit as int);
    }
    if limit < 2 {
        return 1;
    }
    let mut k = limit;
    while k >= 2
        invariant
            2 <= limit,
            1 <= k <= limit,
            limit == if a <= b { a } else { b },
            common_divisor_upto(a as int, b as int, k as int) == common_divisor(a as int, b as int),
        decreases k,
    {
        if a % k == 0 && b % k == 0 {
            return k;
        }
        k -= 1;
    }
    1
}

/// `a * (b / d)` with `d` the [`common_divisor`] of `a` and `b`: the least
/// common multiple when both are positive.
pub open spec fn lcm_of(a: int, b: int) -> int {
    a * (b / common_divisor(a, b))
}

/// Least common multiple, computed as [`lcm_of`] describes; the result must
/// fit in an `isize`.
pub fn lcm(a: isize, b: isize) -> (r: isize)
    requires
        isize::MIN <= lcm_of(a as int, b as int) <= isize::MAX,
    ensures
        r == lcm_of(a as int, b as int),
{
    let g = common_divisor_exec(a as i128, b as i128);
    if g == 1 {
        assert(b as int / 1 == b);
        proof {
            assert(isize::MIN <= a * b <= isize::MAX);
        }
        return a * b;
    }
    let q = (b as i128) / g;
    proof {
        assert(0 <= q <= b) by (nonlinear_arith)
            requires
                q as int == b as int / g as int,
                g >= 1,
                b >= 0,
        ;
    }
    (a as i128 * q) as isize
}

/// Rational number as a numerator and a denominator. Arithmetic results are
/// normalized (see [`normal_form`]); zero normalizes to `0/1`.
#[derive(Debug, Clone, Copy, PartialEq, Eq, Structural)]
pub struct Rational {
    numerator: isize,
    denominator: isize,
}

/// `x` without its sign.
pub open spec fn abs(x: int) -> int {
    if x < 0 {
        -x
    } else {
        x
    }
}

/// `n/d` reduced by [`common_divisor`] of their magnitudes, with a
/// non-negative denominator; `0/d` becomes `0/1`.
pub open spec fn normal_form(n: int, d: int) -> (int, int) {
    if n == 0 {
        (0, 1)
    } else {
        let g = common_divisor(abs(n), abs(d));
        let a = if n < 0 { -(abs(n) / g) } else { abs(n) / g };
        let b = if d < 0 { -(abs(d) / g) } else { abs(d) / g };
        if b < 0 {
            (-a, -b)
        } else {
            (a, b)
        }
    }
}

impl View for Rational {
    type V = (int, int);

    closed spec fn view(&self) -> (int, int) {
        (self.numerator as int, self.denominator as int)
    }
}

impl Rational {
    /// Creates a rational number from its numerator and denominator, as given.
    pub fn new(numerator: isize, denominator: isize) -> (r: Self)
        ensures
            r@ == (numerator as int, denominator as int),
    {
        Rational { numerator, denominator }
    }

    /// This number in [`normal_form`].
    pub fn normalized(&self) -> (r: Self)
        requires
            self@.0 != isize::MIN,
            self@.1 != isize::MIN,
        ensures
            r@ == normal_form(self@.0, self@.1),
    {
        if self.numerator == 0 {
            return Rational { numerator: 0, denominator: 1 };
        }
        let n = self.numerator as i128;
        let d = self.denominator as i128;
        let na = if n < 0 { -n } else { n };
        let da = if d < 0 { -d } else { d };
        let g = common_divisor_exec(na, da);
        let qa = na / g;
        let qb = da / g;
        proof {
            assert(0 <= qa <= na) by (nonlinear_arith)
                requires
                    qa == na / g,
                    g >= 1,
                    na >= 0,
            ;
            assert(0 <= qb <= da) by (nonlinear_arith)
                requires
                    qb == da / g,
                    g >= 1,
                    da >= 0,
            ;
        }
        let a = if n < 0 { -qa } else { qa };
        let b = if d < 0 { -qb } else { qb };
        if b < 0 {
            Rational { numerator: (-a) as isize, denominator: (-b) as isize }
        } else {
            Rational { numerator: a as isize, denominator: b as isize }
        }
    }

    /// The product, in [`normal_form`]; both products must fit in an `isize`.
    pub fn times(self, rhs: Self) -> (r: Self)
        requires
            isize::MIN < self@.0 * rhs@.0 <= isize::MAX,
            isize::MIN < self@.1 * rhs@.1 <= isize::MAX,
        ensures
            r@ == normal_form(self@.0 * rhs@.0, self@.1 * rhs@.1),
    {
        let p = Rational {
            numerator: self.numerator * rhs.numerator,
            denominator: self.denominator * rhs.denominator,
        };
        p.normalized()
    }
}

/// `v` fits in an `isize` and is not `isize::MIN`, so that it can be negated.
pub open spec fn fits(v: int) -> bool {
    isize::MIN < v <= isize::MAX
}

/// Numerator and denominator of `x + y` (of `x - y` when `negate`) before
/// normalization: over the shared denominator when the two are equal, else
/// over [`lcm_of`] the two denominators.
pub open spec fn raw_sum(x: (int, int), y: (int, int), negate: bool) -> (int, int) {
    let yn = if negate {
        -y.0
    } else {
        y.0
    };
    if x.1 == y.1 {
        (x.0 + yn, x.1)
    } else {
        let l = lcm_of(x.1, y.1);
        (x.0 * (l / x.1) + yn * (l / y.1), l)
    }
}

/// Every intermediate value of [`raw_sum`] fits in an `isize`, and
/// denominators that differ are positive.
pub open spec fn raw_sum_fits(x: (int, int), y: (int, int), negate: bool) -> bool {
    let yn = if negate {
        -y.0
    } else {
        y.0
    };
    &&& fits(x.0) && fits(y.0) && fits(x.1) && fits(y.1)
    &&& if x.1 == y.1 {
        fits(x.0 + yn)
    } else {
        let l = lcm_of(x.1, y.1);
        &&& x.1 > 0 && y.1 > 0
        &&& fits(l) && fits(l / x.1) && fits(l / y.1)
        &&& fits(x.0 * (l / x.1)) && fits(yn * (l / y.1))
        &&& fits(x.0 * (l / x.1) + yn * (l / y.1))
    }
}

impl Rational {
    fn sum_or_difference(self, rhs: Self, negate: bool) -> (r: Self)
        requires
            raw_sum_fits(self@, rhs@, negate),
        ensures
            r@ == ({
                let p = raw_sum(self@, rhs@, negate);
                normal_form(p.0, p.1)
            }),
    {
        let m = if negate {
            -rhs.numerator
        } else {
            rhs.numerator
        };
        let p = if self.denominator == rhs.denominator {
            Rational { numerator: self.numerator + m, denominator: self.denominator }
        } else {
            let l = lcm(self.denominator, rhs.denominator);
            proof {
                let g = common_divisor(self@.1, rhs@.1);
                lemma_common_divisor_bounds(self@.1, rhs@.1, if self@.1 <= rhs@.1 {
                    self@.1
                } else {
                    rhs@.1
                });
                assert(0 <= rhs@.1 / g) by (nonlinear_arith)
                    requires
                        g >= 1,
                        rhs@.1 > 0,
                ;
                assert(0 <= l) by (nonlinear_arith)
                    requires
                        l == self@.1 * (rhs@.1 / g),
                        self@.1 > 0,
                        0 <= rhs@.1 / g,
                ;
            }
            let a = l / self.denominator;
            let b = l / rhs.denominator;
            Rational { numerator: self.numerator * a + m * b, denominator: l }
        };
        p.normalized()
    }

    /// The sum, in [`normal_form`] (see [`raw_sum`]).
    pub fn plus(self, rhs: Self) -> (r: Self)
        requires
            raw_sum_fits(self@, rhs@, false),
        ensures
            r@ == ({
                let p = raw_sum(self@, rhs@, false);
                normal_form(p.0, p.1)
            }),
    {
        self.sum_or_difference(rhs, false)
    }

    /// The difference, in [`normal_form`] (see [`raw_sum`]).
    pub fn minus(self, rhs: Self) -> (r: Self)
        requires
            raw_sum_fits(self@, rhs@, true),
        ensures
            r@ == ({
                let p = raw_sum(self@, rhs@, true);
                normal_form(p.0, p.1)
            }),
    {
        self.sum_or_difference(rhs, true)
    }

    /// The quotient `(n1 * d2) / (d1 * n2)` in [`normal_form`], with both
    /// parts negated when the divisor's numerator is negative.
    pub fn divided_by(self, rhs: Self) -> (r: Self)
        requires
            fits(self@.0 * rhs@.1),
            fits(self@.1 * rhs@.0),
        ensures
            r@ == if rhs@.0 < 0 {
                normal_form(-(self@.0 * rhs@.1), -(self@.1 * rhs@.0))
            } else {
                normal_form(self@.0 * rhs@.1, self@.1 * rhs@.0)
            },
    {
        let n = self.numerator * rhs.denominator;
        let d = self.denominator * rhs.numerator;
        let p = if rhs.numerator < 0 {
            Rational { numerator: -n, denominator: -d }
        } else {
            Rational { numerator: n, denominator: d }
        };
        p.normalized()
    }
}

/// Functions that can be differentiated symbolically, closed under
/// differentiation.
pub trait Differentiable: Sized {
    /// The derivative.
    spec fn derivative_of(&self) -> Self;

    /// Differentiates.
    fn diff(&self) -> (r: Self)
        ensures
            r == self.derivative_of(),
    ;
}

impl Differentiable for Rational {
    /// A constant's derivative is zero, written `0/0`.
    closed spec fn derivative_of(&self) -> Rational {
        Rational { numerator: 0, denominator: 0 }
    }

    fn diff(&self) -> (r: Self) {
        Rational { numerator: 0, denominator: 0 }
    }
}



/// Single-term polynomial.
#[derive(Debug, Clone, Copy, PartialEq, Eq, Structural)]
pub enum SingletonPolynomial {
    /// Constant polynomial.
    Const(Rational),
    /// `coeff * x^power`, both non-zero.
    Polynomial {
        /// Coefficient.
        coeff: Rational,
        /// Power.
        power: Rational,
    },
}

impl SingletonPolynomial {
    /// Creates a constant polynomial.
    pub fn new_c(r: Rational) -> (p: Self)
        ensures
            p == SingletonPolynomial::Const(r),
    {
        SingletonPolynomial::Const(r)
    }

    /// Creates the polynomial `coeff * x^power`.
    pub fn new_poly(coeff: Rational, power: Rational) -> (p: Self)
        ensures
            p == (SingletonPolynomial::Polynomial { coeff, power }),
    {
        SingletonPolynomial::Polynomial { coeff, power }
    }
}

/// The product and difference that differentiating `coeff * x^power`
/// computes stay within `isize`.
pub open spec fn power_rule_fits(coeff: Rational, power: Rational) -> bool {
    &&& isize::MIN < coeff@.0 * power@.0 <= isize::MAX
    &&& isize::MIN < coeff@.1 * power@.1 <= isize::MAX
    &&& raw_sum_fits(power@, (1, 1), true)
}

/// `r` is the derivative of `p`: a constant gives the zero constant `0/0`;
/// `c * x^1` gives the constant `c`; `c * x^p` gives `(c * p) * x^(p - 1)`,
/// both in [`normal_form`].
pub open spec fn is_poly_derivative(p: SingletonPolynomial, r: SingletonPolynomial) -> bool {
    match p {
        SingletonPolynomial::Const(_) => r is Const && r->Const_0@ == (0int, 0int),
        SingletonPolynomial::Polynomial { coeff, power } => if power@ == (1int, 1int) {
            r == SingletonPolynomial::Const(coeff)
        } else {
            &&& r is Polynomial
            &&& r->Polynomial_coeff@ == normal_form(coeff@.0 * power@.0, coeff@.1 * power@.1)
            &&& r->Polynomial_power@ == ({
                let d = raw_sum(power@, (1, 1), true);
                normal_form(d.0, d.1)
            })
        },
    }
}

impl SingletonPolynomial {
    /// The derivative: a constant gives the zero constant `0/0`; `c * x^1`
    /// gives the constant `c`; `c * x^p` gives `(c * p) * x^(p - 1)`, both
    /// in [`normal_form`].
    pub fn derivative(&self) -> (r: Self)
        requires
            match *self {
                SingletonPolynomial::Const(_) => true,
                SingletonPolynomial::Polynomial { coeff, power } => power@ == (1int, 1int)
                    || power_rule_fits(coeff, power),
            },
        ensures
            is_poly_derivative(*self, r),
    {
        match self {
            SingletonPolynomial::Const(_) => SingletonPolynomial::Const(Rational::new(0, 0)),
            SingletonPolynomial::Polynomial { coeff, power } => {
                let one = Rational::new(1, 1);
                if *power == one {
                    SingletonPolynomial::Const(*coeff)
                } else {
                    SingletonPolynomial::Polynomial {
                        coeff: coeff.times(*power),
                        power: power.minus(one),
                    }
                }
            },
        }
    }
}

/// The exponential function `e^x`.
#[derive(Debug, Clone, Copy, PartialEq, Eq, Structural)]
pub struct Exp;

impl Exp {
    /// Creates the exponential function.
    pub fn new() -> (r: Self)
        ensures
            r == Exp,
    {
        Exp
    }
}

impl Differentiable for Exp {
    /// `e^x` is its own derivative.
    open spec fn derivative_of(&self) -> Exp {
        *self
    }

    fn diff(&self) -> (r: Self) {
        Exp
    }
}

/// Trigonometric functions with a coefficient.
#[derive(Debug, Clone, Copy, PartialEq, Eq, Structural)]
pub enum Trignometric {
    /// `coeff * sin x`.
    Sine {
        /// Coefficient.
        coeff: Rational,
    },
    /// `coeff * cos x`.
    Cosine {
        /// Coefficient.
        coeff: Rational,
    },
}

/// `r` is the derivative of `t`: `c * sin x` gives `c * cos x`; `c * cos x`
/// gives `-c * sin x`, with `-c` in [`normal_form`].
pub open spec fn is_trig_derivative(t: Trignometric, r: Trignometric) -> bool {
    match t {
        Trignometric::Sine { coeff } => r == (Trignometric::Cosine { coeff }),
        Trignometric::Cosine { coeff } => r is Sine && r->Sine_coeff@ == normal_form(
            -coeff@.0,
            coeff@.1,
        ),
    }
}

impl Trignometric {
    /// Creates `coeff * sin x`.
    pub fn new_sine(coeff: Rational) -> (r: Self)
        ensures
            r == (Trignometric::Sine { coeff }),
    {
        Trignometric::Sine { coeff }
    }

    /// Creates `coeff * cos x`.
    pub fn new_cosine(coeff: Rational) -> (r: Self)
        ensures
            r == (Trignometric::Cosine { coeff }),
    {
        Trignometric::Cosine { coeff }
    }

    /// The derivative: `c * sin x` gives `c * cos x`; `c * cos x` gives
    /// `-c * sin x`, with `-c` in [`normal_form`]. The coefficient's parts
    /// must not be `isize::MIN`.
    pub fn derivative(&self) -> (r: Self)
        requires
            match *self {
                Trignometric::Sine { coeff: _ } => true,
                Trignometric::Cosine { coeff } => coeff@.0 != isize::MIN && coeff@.1
                    != isize::MIN,
            },
        ensures
            is_trig_derivative(*self, r),
    {
        match self {
            Trignometric::Sine { coeff } => Trignometric::Cosine { coeff: *coeff },
            Trignometric::Cosine { coeff } => Trignometric::Sine {
                coeff: coeff.times(Rational::new(-1, 1)),
            },
        }
    }
}

/// Basic functions.
#[derive(Debug, Clone, Copy, PartialEq, Eq, Structural)]
pub enum BaseFuncs {
    /// Constant.
    Const(Rational),
    /// Polynomial.
    Poly(SingletonPolynomial),
    /// Exponential.
    Exp(Exp),
    /// Trigonometric.
    Trig(Trignometric),
}

/// The derivative of a basic function can be taken without overflow.
pub open spec fn base_derivable(f: BaseFuncs) -> bool {
    match f {
        BaseFuncs::Poly(SingletonPolynomial::Polynomial { coeff, power }) => power@ == (1int, 1int)
            || power_rule_fits(coeff, power),
        BaseFuncs::Trig(Trignometric::Cosine { coeff }) => coeff@.0 != isize::MIN && coeff@.1
            != isize::MIN,
        _ => true,
    }
}

impl BaseFuncs {
    /// The derivative, case by case: a constant gives the zero constant
    /// `0/0`; polynomials and trigonometric functions as
    /// [`is_poly_derivative`] and [`is_trig_derivative`] say; `e^x` gives
    /// itself.
    pub fn derivative(&self) -> (r: Self)
        requires
            base_derivable(*self),
        ensures
            match *self {
                BaseFuncs::Const(_) => r is Const && r->Const_0@ == (0int, 0int),
                BaseFuncs::Poly(p) => r is Poly && is_poly_derivative(p, r->Poly_0),
                BaseFuncs::Exp(e) => r == BaseFuncs::Exp(e),
                BaseFuncs::Trig(t) => r is Trig && is_trig_derivative(t, r->Trig_0),
            },
    {
        match self {
            BaseFuncs::Const(_) => BaseFuncs::Const(Rational::new(0, 0)),
            BaseFuncs::Poly(p) => BaseFuncs::Poly(p.derivative()),
            BaseFuncs::Exp(e) => BaseFuncs::Exp(*e),
            BaseFuncs::Trig(t) => BaseFuncs::Trig(t.derivative()),
        }
    }
}

/// How a rational number is written: `0` for `0/0`, the numerator alone
/// over a denominator of one, else `n/d`.
pub open spec fn rational_text(r: (int, int)) -> Seq<char> {
    if r == (0int, 0int) {
        seq!['0']
    } else if r.1 == 1 {
        signed_decimal(r.0)
    } else {
        signed_decimal(r.0) + seq!['/'] + signed_decimal(r.1)
    }
}

/// A rational coefficient written before a function: nothing for one, `-`
/// for minus one, else the number in parentheses.
pub open spec fn coefficient_text(r: (int, int)) -> Seq<char> {
    if r == (1int, 1int) {
        seq![]
    } else if r == (-1int, 1int) {
        seq!['-']
    } else {
        seq!['('] + rational_text(r) + seq![')']
    }
}

/// How a single-term polynomial is written: a constant as its number;
/// `0` for a zero coefficient (`0/0`); the coefficient alone for a zero
/// power (`0/0`); else the coefficient, then `x`, or `x^(p)` for a power
/// other than one.
pub open spec fn poly_text(p: SingletonPolynomial) -> Seq<char> {
    match p {
        SingletonPolynomial::Const(r) => rational_text(r@),
        SingletonPolynomial::Polynomial { coeff, power } => if coeff@ == (0int, 0int) {
            seq!['0']
        } else if power@ == (0int, 0int) {
            rational_text(coeff@)
        } else {
            coefficient_text(coeff@) + if power@ == (1int, 1int) {
                seq!['x']
            } else {
                seq!['x', '^', '('] + rational_text(power@) + seq![')']
            }
        },
    }
}

/// How a trigonometric function is written: `0` for a zero coefficient
/// (`0/0`), else the coefficient then `sin(x)` or `cos(x)`.
pub open spec fn trig_text(t: Trignometric) -> Seq<char> {
    let (name, coeff) = match t {
        Trignometric::Sine { coeff } => (seq!['s', 'i', 'n', '(', 'x', ')'], coeff),
        Trignometric::Cosine { coeff } => (seq!['c', 'o', 's', '(', 'x', ')'], coeff),
    };
    if coeff@ == (0int, 0int) {
        seq!['0']
    } else {
        coefficient_text(coeff@) + name
    }
}

/// How a basic function is written.
pub open spec fn base_text(f: BaseFuncs) -> Seq<char> {
    match f {
        BaseFuncs::Const(r) => rational_text(r@),
        BaseFuncs::Poly(p) => poly_text(p),
        BaseFuncs::Exp(_) => seq!['e', 'x', 'p', '(', 'x', ')'],
        BaseFuncs::Trig(t) => trig_text(t),
    }
}

impl Rational {
    /// The numerator, as given or computed.
    pub fn numerator(&self) -> (r: isize)
        ensures
            r == self@.0,
    {
        self.numerator
    }

    /// The denominator, as given or computed.
    pub fn denominator(&self) -> (r: isize)
        ensures
            r == self@.1,
    {
        self.denominator
    }

    /// Appends this number as [`rational_text`] writes it.
    pub fn write_to(&self, s: &mut String)
        ensures
            final(s)@ == old(s)@ + rational_text(self@),
    {
        if self.numerator == 0 && self.denominator == 0 {
            push_char(s, '0');
        } else if self.denominator == 1 {
            push_signed(s, self.numerator as i64);
        } else {
            push_signed(s, self.numerator as i64);
            push_char(s, '/');
            push_signed(s, self.denominator as i64);
            assert(final(s)@ =~= old(s)@ + rational_text(self@));
        }
    }

    /// This number as [`rational_text`] writes it.
    pub fn to_text(&self) -> (r: String)
        ensures
            r@ == rational_text(self@),
    {
        let mut s = String::new();
        self.write_to(&mut s);
        assert(s@ =~= rational_text(self@));
        s
    }

    fn write_coefficient(&self, s: &mut String)
        ensures
            final(s)@ == old(s)@ + coefficient_text(self@),
    {
        if self.numerator == 1 && self.denominator == 1 {
            assert(old(s)@ + coefficient_text(self@) =~= old(s)@);
        } else if self.numerator == -1 && self.denominator == 1 {
            push_char(s, '-');
        } else {
            push_char(s, '(');
            self.write_to(s);
            push_char(s, ')');
            assert(final(s)@ =~= old(s)@ + coefficient_text(self@));
        }
    }
}

impl SingletonPolynomial {
    /// This polynomial as [`poly_text`] writes it.
    pub fn to_text(&self) -> (r: String)
        ensures
            r@ == poly_text(*self),
    {
        let mut s = String::new();
        match self {
            SingletonPolynomial::Const(r) => {
                r.write_to(&mut s);
            },
            SingletonPolynomial::Polynomial { coeff, power } => {
                if coeff.numerator == 0 && coeff.denominator == 0 {
                    push_char(&mut s, '0');
                } else if power.numerator == 0 && power.denominator == 0 {
                    coeff.write_to(&mut s);
                } else {
                    coeff.write_coefficient(&mut s);
                    if power.numerator == 1 && power.denominator == 1 {
                        push_char(&mut s, 'x');
                    } else {
                        push_str(&mut s, "x^(");
                        power.write_to(&mut s);
                        push_char(&mut s, ')');
                    }
                }
            },
        }
        proof {
            reveal_strlit("x^(");
        }
        assert(s@ =~= poly_text(*self));
        s
    }
}

impl Exp {
    /// The text `exp(x)`.
    pub fn to_text(&self) -> (r: String)
        ensures
            r@ == seq!['e', 'x', 'p', '(', 'x', ')'],
    {
        let mut s = String::new();
        push_str(&mut s, "exp(x)");
        proof {
            reveal_strlit("exp(x)");
        }
        assert(s@ =~= seq!['e', 'x', 'p', '(', 'x', ')']);
        s
    }
}

impl Trignometric {
    /// This function as [`trig_text`] writes it.
    pub fn to_text(&self) -> (r: String)
        ensures
            r@ == trig_text(*self),
    {
        let (name, coeff) = match self {
            Trignometric::Sine { coeff } => ("sin(x)", coeff),
            Trignometric::Cosine { coeff } => ("cos(x)", coeff),
        };
        proof {
            reveal_strlit("sin(x)");
            reveal_strlit("cos(x)");
        }
        let mut s = String::new();
        if coeff.numerator == 0 && coeff.denominator == 0 {
            push_char(&mut s, '0');
        } else {
            coeff.write_coefficient(&mut s);
            push_str(&mut s, name);
        }
        assert(s@ =~= trig_text(*self));
        s
    }
}

impl BaseFuncs {
    /// This function as [`base_text`] writes it.
    pub fn to_text(&self) -> (r: String)
        ensures
            r@ == base_text(*self),
    {
        match self {
            BaseFuncs::Const(r) => r.to_text(),
            BaseFuncs::Poly(p) => p.to_text(),
            BaseFuncs::Exp(e) => e.to_text(),
            BaseFuncs::Trig(t) => t.to_text(),
        }
    }
}

/// Functions built from basic functions by arithmetic and composition.
#[derive(Debug, PartialEq)]
pub enum ComplexFuncs<F> {
    /// A basic function.
    Func(F),
    /// Sum.
    Add(Box<ComplexFuncs<F>>, Box<ComplexFuncs<F>>),
    /// Difference.
    Sub(Box<ComplexFuncs<F>>, Box<ComplexFuncs<F>>),
    /// Product.
    Mul(Box<ComplexFuncs<F>>, Box<ComplexFuncs<F>>),
    /// Quotient.
    Div(Box<ComplexFuncs<F>>, Box<ComplexFuncs<F>>),
    /// Composition: the first applied to the second.
    Comp(Box<ComplexFuncs<F>>, Box<ComplexFuncs<F>>),
}

/// The derivative of a complex function: basic functions by their own
/// derivative; sums and differences term by term; the product rule
/// `(u*v)' = u'*v + u*v'`; the quotient rule `(u/v)' = (u'*v - u*v')/(v*v)`;
/// the chain rule `(f∘g)' = (f'∘g) * g'`.
pub open spec fn complex_derivative<F: Differentiable>(c: ComplexFuncs<F>) -> ComplexFuncs<F>
    decreases c,
{
    match c {
        ComplexFuncs::Func(f) => ComplexFuncs::Func(f.derivative_of()),
        ComplexFuncs::Add(l, r) => ComplexFuncs::Add(
            Box::new(complex_derivative(*l)),
            Box::new(complex_derivative(*r)),
        ),
        ComplexFuncs::Sub(l, r) => ComplexFuncs::Sub(
            Box::new(complex_derivative(*l)),
            Box::new(complex_derivative(*r)),
        ),
        ComplexFuncs::Mul(u, v) => ComplexFuncs::Add(
            Box::new(ComplexFuncs::Mul(Box::new(complex_derivative(*u)), v)),
            Box::new(ComplexFuncs::Mul(u, Box::new(complex_derivative(*v)))),
        ),
        ComplexFuncs::Div(u, v) => ComplexFuncs::Div(
            Box::new(
                ComplexFuncs::Sub(
                    Box::new(ComplexFuncs::Mul(Box::new(complex_derivative(*u)), v)),
                    Box::new(ComplexFuncs::Mul(u, Box::new(complex_derivative(*v)))),
                ),
            ),
            Box::new(ComplexFuncs::Mul(v, v)),
        ),
        ComplexFuncs::Comp(f, g) => ComplexFuncs::Mul(
            Box::new(ComplexFuncs::Comp(Box::new(complex_derivative(*f)), g)),
            Box::new(complex_derivative(*g)),
        ),
    }
}

impl<F: Copy> ComplexFuncs<F> {
    /// A copy of the whole tree.
    pub fn duplicate(&self) -> (r: Self)
        ensures
            r == *self,
        decreases self,
    {
        match self {
            ComplexFuncs::Func(f) => ComplexFuncs::Func(*f),
            ComplexFuncs::Add(l, r) => ComplexFuncs::Add(
                Box::new(l.duplicate()),
                Box::new(r.duplicate()),
            ),
            ComplexFuncs::Sub(l, r) => ComplexFuncs::Sub(
                Box::new(l.duplicate()),
                Box::new(r.duplicate()),
            ),
            ComplexFuncs::Mul(l, r) => ComplexFuncs::Mul(
                Box::new(l.duplicate()),
                Box::new(r.duplicate()),
            ),
            ComplexFuncs::Div(l, r) => ComplexFuncs::Div(
                Box::new(l.duplicate()),
                Box::new(r.duplicate()),
            ),
            ComplexFuncs::Comp(l, r) => ComplexFuncs::Comp(
                Box::new(l.duplicate()),
                Box::new(r.duplicate()),
            ),
        }
    }
}

impl<F: Differentiable + Copy> ComplexFuncs<F> {
    /// The derivative, as [`complex_derivative`] describes.
    pub fn derivative(&self) -> (r: Self)
        ensures
            r == complex_derivative(*self),
        decreases self,
    {
        match self {
            ComplexFuncs::Func(f) => ComplexFuncs::Func(f.diff()),
            ComplexFuncs::Add(l, r) => ComplexFuncs::Add(
                Box::new(l.derivative()),
                Box::new(r.derivative()),
            ),
            ComplexFuncs::Sub(l, r) => ComplexFuncs::Sub(
                Box::new(l.derivative()),
                Box::new(r.derivative()),
            ),
            ComplexFuncs::Mul(u, v) => ComplexFuncs::Add(
                Box::new(ComplexFuncs::Mul(Box::new(u.derivative()), Box::new(v.duplicate()))),
                Box::new(ComplexFuncs::Mul(Box::new(u.duplicate()), Box::new(v.derivative()))),
            ),
            ComplexFuncs::Div(u, v) => ComplexFuncs::Div(
                Box::new(
                    ComplexFuncs::Sub(
                        Box::new(
                            ComplexFuncs::Mul(Box::new(u.derivative()), Box::new(v.duplicate())),
                        ),
                        Box::new(
                            ComplexFuncs::Mul(Box::new(u.duplicate()), Box::new(v.derivative())),
                        ),
                    ),
                ),
                Box::new(ComplexFuncs::Mul(Box::new(v.duplicate()), Box::new(v.duplicate()))),
            ),
            ComplexFuncs::Comp(f, g) => ComplexFuncs::Mul(
                Box::new(ComplexFuncs::Comp(Box::new(f.derivative()), Box::new(g.duplicate()))),
                Box::new(g.derivative()),
            ),
        }
    }
}

} // verus!
