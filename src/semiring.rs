//! Semirings and polynomials over them.

use vstd::prelude::*;

use crate::shell::{index_of, split_words, strings_view, words};
use crate::text::chars_of;

verus! {

/// A semiring: zero, one, addition and multiplication. An operation may be
/// undefined on some arguments (an integer sum that does not fit); it is
/// then never called.
pub trait Semiring: Sized + Copy {
    spec fn zero_value() -> Self;

    spec fn one_value() -> Self;

    spec fn sum(a: Self, b: Self) -> Self;

    spec fn product(a: Self, b: Self) -> Self;

    /// `a + b` can be computed.
    spec fn sum_defined(a: Self, b: Self) -> bool;

    /// `a * b` can be computed.
    spec fn product_defined(a: Self, b: Self) -> bool;

    /// Additive identity.
    fn zero() -> (r: Self)
        ensures
            r == Self::zero_value(),
    ;

    /// Multiplicative identity.
    fn one() -> (r: Self)
        ensures
            r == Self::one_value(),
    ;

    /// Addition.
    fn add(&self, rhs: &Self) -> (r: Self)
        requires
            Self::sum_defined(*self, *rhs),
        ensures
            r == Self::sum(*self, *rhs),
    ;

    /// Multiplication.
    fn mul(&self, rhs: &Self) -> (r: Self)
        requires
            Self::product_defined(*self, *rhs),
        ensures
            r == Self::product(*self, *rhs),
    ;

    /// Whether this is the additive identity.
    fn is_zero(&self) -> (r: bool)
        ensures
            r == (*self == Self::zero_value()),
    ;
}

impl Semiring for u64 {
    open spec fn zero_value() -> u64 {
        0
    }

    open spec fn one_value() -> u64 {
        1
    }

    open spec fn sum(a: u64, b: u64) -> u64 {
        (a + b) as u64
    }

    open spec fn product(a: u64, b: u64) -> u64 {
        (a * b) as u64
    }

    open spec fn sum_defined(a: u64, b: u64) -> bool {
        a + b <= u64::MAX
    }

    open spec fn product_defined(a: u64, b: u64) -> bool {
        a * b <= u64::MAX
    }

    fn zero() -> (r: u64) {
        0
    }

    fn one() -> (r: u64) {
        1
    }

    fn add(&self, rhs: &u64) -> (r: u64) {
        *self + *rhs
    }

    fn mul(&self, rhs: &u64) -> (r: u64) {
        *self * *rhs
    }

    fn is_zero(&self) -> (r: bool) {
        *self == 0
    }
}

impl Semiring for i64 {
    open spec fn zero_value() -> i64 {
        0
    }

    open spec fn one_value() -> i64 {
        1
    }

    open spec fn sum(a: i64, b: i64) -> i64 {
        (a + b) as i64
    }

    open spec fn product(a: i64, b: i64) -> i64 {
        (a * b) as i64
    }

    open spec fn sum_defined(a: i64, b: i64) -> bool {
        i64::MIN <= a + b <= i64::MAX
    }

    open spec fn product_defined(a: i64, b: i64) -> bool {
        i64::MIN <= a * b <= i64::MAX
    }

    fn zero() -> (r: i64) {
        0
    }

    fn one() -> (r: i64) {
        1
    }

    fn add(&self, rhs: &i64) -> (r: i64) {
        *self + *rhs
    }

    fn mul(&self, rhs: &i64) -> (r: i64) {
        *self * *rhs
    }

    fn is_zero(&self) -> (r: bool) {
        *self == 0
    }
}

/// `one` added `n` times to `zero`, or `None` if a sum along the way is
/// undefined.
pub open spec fn from_usize_spec<T: Semiring>(n: nat) -> Option<T>
    decreases n,
{
    if n == 0 {
        Some(T::zero_value())
    } else {
        match from_usize_spec::<T>((n - 1) as nat) {
            Some(v) => if T::sum_defined(v, T::one_value()) {
                Some(T::sum(v, T::one_value()))
            } else {
                None
            },
            None => None,
        }
    }
}

/// Converts an integer to a semiring value by adding one `value` times;
/// every sum along the way must be defined.
pub fn from_usize<T: Semiring>(value: usize) -> (r: T)
    requires
        from_usize_spec::<T>(value as nat) is Some,
    ensures
        Some(r) == from_usize_spec::<T>(value as nat),
{
    let mut result = T::zero();
    let one = T::one();
    let mut i: usize = 0;
    while i < value
        invariant
            i <= value,
            one == T::one_value(),
            from_usize_spec::<T>(value as nat) is Some,
            Some(result) == from_usize_spec::<T>(i as nat),
        decreases value - i,
    {
        proof {
            lemma_from_usize_prefix::<T>(i as nat + 1, value as nat);
        }
        result = result.add(&one);
        i += 1;
    }
    result
}

proof fn lemma_from_usize_prefix<T: Semiring>(k: nat, n: nat)
    requires
        k <= n,
        from_usize_spec::<T>(n) is Some,
    ensures
        from_usize_spec::<T>(k) is Some,
    decreases n - k,
{
    if k < n {
        lemma_from_usize_prefix::<T>(k + 1, n);
    }
}

/// `v` to the power `k` by repeated multiplication from `one`, or `None`
/// if a product along the way is undefined.
pub open spec fn power_spec<C: Semiring>(v: C, k: nat) -> Option<C>
    decreases k,
{
    if k == 0 {
        Some(C::one_value())
    } else {
        match power_spec(v, (k - 1) as nat) {
            Some(p) => if C::product_defined(p, v) {
                Some(C::product(p, v))
            } else {
                None
            },
            None => None,
        }
    }
}

/// The sum of `coef * value^deg` over the terms, added in order to `zero`,
/// or `None` if an operation along the way is undefined.
pub open spec fn eval_spec<C: Semiring>(terms: Seq<(u64, C)>, value: C) -> Option<C>
    decreases terms.len(),
{
    if terms.len() == 0 {
        Some(C::zero_value())
    } else {
        match eval_spec(terms.drop_last(), value) {
            Some(acc) => {
                let (deg, coef) = terms.last();
                match power_spec(value, deg as nat) {
                    Some(p) => if C::product_defined(coef, p) && C::sum_defined(
                        acc,
                        C::product(coef, p),
                    ) {
                        Some(C::sum(acc, C::product(coef, p)))
                    } else {
                        None
                    },
                    None => None,
                }
            },
            None => None,
        }
    }
}

proof fn lemma_power_prefix<C: Semiring>(v: C, k: nat, n: nat)
    requires
        k <= n,
        power_spec(v, n) is Some,
    ensures
        power_spec(v, k) is Some,
    decreases n - k,
{
    if k < n {
        lemma_power_prefix(v, k + 1, n);
    }
}

/// The coefficient of degree `d`, if the terms have one.
pub open spec fn coefficient<C>(terms: Seq<(u64, C)>, d: u64) -> Option<C>
    decreases terms.len(),
{
    if terms.len() == 0 {
        None
    } else if terms.last().0 == d {
        Some(terms.last().1)
    } else {
        coefficient(terms.drop_last(), d)
    }
}

/// The coefficient of a sum at one degree: the sum of both coefficients
/// (no term if it is zero), or the one coefficient present.
pub open spec fn combine<C: Semiring>(a: Option<C>, b: Option<C>) -> Option<C> {
    match (a, b) {
        (Some(x), Some(y)) => if C::sum(x, y) == C::zero_value() {
            None
        } else {
            Some(C::sum(x, y))
        },
        (Some(x), None) => Some(x),
        (None, Some(y)) => Some(y),
        (None, None) => None,
    }
}

pub open spec fn degrees_unique<C>(terms: Seq<(u64, C)>) -> bool {
    forall|i: int, j: int| 0 <= i < j < terms.len() ==> terms[i].0 != terms[j].0
}

proof fn lemma_coefficient_at<C>(terms: Seq<(u64, C)>, i: int)
    requires
        degrees_unique(terms),
        0 <= i < terms.len(),
    ensures
        coefficient(terms, terms[i].0) == Some(terms[i].1),
    decreases terms.len(),
{
    if i < terms.len() - 1 {
        lemma_coefficient_at(terms.drop_last(), i);
    }
}

proof fn lemma_coefficient_absent<C>(terms: Seq<(u64, C)>, d: u64)
    requires
        forall|i: int| 0 <= i < terms.len() ==> terms[i].0 != d,
    ensures
        coefficient(terms, d) is None,
    decreases terms.len(),
{
    if terms.len() > 0 {
        lemma_coefficient_absent(terms.drop_last(), d);
    }
}

proof fn lemma_coefficient_present<C>(terms: Seq<(u64, C)>, d: u64)
    requires
        coefficient(terms, d) is Some,
    ensures
        exists|i: int| 0 <= i < terms.len() && terms[i].0 == d,
    decreases terms.len(),
{
    if terms.last().0 != d {
        lemma_coefficient_present(terms.drop_last(), d);
        let i = choose|i: int| 0 <= i < terms.drop_last().len() && terms.drop_last()[i].0 == d;
        assert(terms[i].0 == d);
    } else {
        assert(terms[terms.len() - 1].0 == d);
    }
}

/// Under unique degrees, the coefficient at `d` is the one found at the
/// index holding `d`, or none if no index does.
proof fn lemma_coefficient_by_index<C>(terms: Seq<(u64, C)>, d: u64)
    requires
        degrees_unique(terms),
    ensures
        (exists|i: int| 0 <= i < terms.len() && terms[i].0 == d) ==> coefficient(terms, d) == Some(
            terms[choose|i: int| 0 <= i < terms.len() && terms[i].0 == d].1,
        ),
        !(exists|i: int| 0 <= i < terms.len() && terms[i].0 == d) ==> coefficient(terms, d) is None,
{
    if exists|i: int| 0 <= i < terms.len() && terms[i].0 == d {
        let i = choose|i: int| 0 <= i < terms.len() && terms[i].0 == d;
        lemma_coefficient_at(terms, i);
    } else {
        lemma_coefficient_absent(terms, d);
    }
}

proof fn lemma_coefficient_update<C>(terms: Seq<(u64, C)>, idx: int, e: (u64, C), d: u64)
    requires
        degrees_unique(terms),
        0 <= idx < terms.len(),
        e.0 == terms[idx].0,
    ensures
        degrees_unique(terms.update(idx, e)),
        coefficient(terms.update(idx, e), d) == if d == e.0 {
            Some(e.1)
        } else {
            coefficient(terms, d)
        },
    decreases terms.len(),
{
    let t = terms.update(idx, e);
    assert forall|i: int, j: int| 0 <= i < j < t.len() implies t[i].0 != t[j].0 by {
        assert(t[i].0 == terms[i].0 && t[j].0 == terms[j].0);
    }
    if idx == terms.len() - 1 {
        assert(t.drop_last() =~= terms.drop_last());
    } else {
        assert(t.drop_last() =~= terms.drop_last().update(idx, e));
        lemma_coefficient_update(terms.drop_last(), idx, e, d);
    }
}

proof fn lemma_coefficient_remove<C>(terms: Seq<(u64, C)>, idx: int, d: u64)
    requires
        degrees_unique(terms),
        0 <= idx < terms.len(),
    ensures
        degrees_unique(terms.remove(idx)),
        coefficient(terms.remove(idx), d) == if d == terms[idx].0 {
            None
        } else {
            coefficient(terms, d)
        },
    decreases terms.len(),
{
    let t = terms.remove(idx);
    assert forall|i: int, j: int| 0 <= i < j < t.len() implies t[i].0 != t[j].0 by {
        let ii = if i < idx { i } else { i + 1 };
        let jj = if j < idx { j } else { j + 1 };
        assert(t[i] == terms[ii] && t[j] == terms[jj]);
    }
    if idx == terms.len() - 1 {
        assert(t =~= terms.drop_last());
        if d == terms[idx].0 {
            lemma_coefficient_absent(t, d);
        }
    } else {
        assert(t.drop_last() =~= terms.drop_last().remove(idx));
        assert(t.last() == terms.last());
        lemma_coefficient_remove(terms.drop_last(), idx, d);
    }
}

/// The coefficient at degree `d` after adding, in order, the products of
/// term `t` with the terms of `b` whose degrees sum with `t`'s to `d`, to
/// `acc`; zero products are skipped and a zero sum leaves no term.
pub open spec fn row_fold<C: Semiring>(acc: Option<C>, t: (u64, C), b: Seq<(u64, C)>, d: u64) -> Option<C>
    decreases b.len(),
{
    if b.len() == 0 {
        acc
    } else {
        let before = row_fold(acc, t, b.drop_last(), d);
        let p = C::product(t.1, b.last().1);
        if t.0 + b.last().0 == d && p != C::zero_value() {
            combine(before, Some(p))
        } else {
            before
        }
    }
}

/// The coefficient at degree `d` of the product of `a` and `b`: the
/// products of every pair of terms whose degrees sum to `d`, added in order
/// (terms of `a` outer, terms of `b` inner), zero products skipped and zero
/// sums leaving no term.
pub open spec fn product_coefficient<C: Semiring>(a: Seq<(u64, C)>, b: Seq<(u64, C)>, d: u64) -> Option<C>
    decreases a.len(),
{
    if a.len() == 0 {
        None
    } else {
        row_fold(product_coefficient(a.drop_last(), b, d), a.last(), b, d)
    }
}

/// Every step of the product can be computed: degree sums fit in a `u64`,
/// products are defined, and so is every running sum at a degree.
pub open spec fn product_defined_all<C: Semiring>(a: Seq<(u64, C)>, b: Seq<(u64, C)>) -> bool {
    forall|i: int, j: int|
        0 <= i < a.len() && 0 <= j < b.len() ==> {
            let d = (a[i].0 + b[j].0) as u64;
            let acc = row_fold(product_coefficient(a.take(i), b, d), a[i], b.take(j), d);
            &&& a[i].0 + b[j].0 <= u64::MAX
            &&& C::product_defined(a[i].1, b[j].1)
            &&& #[trigger] C::product(a[i].1, b[j].1) != C::zero_value() && acc is Some
                ==> C::sum_defined(acc->Some_0, C::product(a[i].1, b[j].1))
        }
}

pub open spec fn is_digit_char(c: char) -> bool {
    '0' <= c && c <= '9'
}

/// The value of a run of decimal digits.
pub open spec fn digits_value(s: Seq<char>) -> nat
    decreases s.len(),
{
    if s.len() == 0 {
        0
    } else {
        10 * digits_value(s.drop_last()) + (s.last() as u32 - '0' as u32) as nat
    }
}

/// One or more decimal digits.
pub open spec fn all_digits(s: Seq<char>) -> bool {
    s.len() > 0 && forall|i: int| 0 <= i < s.len() ==> is_digit_char(s[i])
}

/// A term written `a`, `x`, `ax`, `x^n` or `ax^n`, with `a` and `n` in
/// decimal.
pub open spec fn term_well_formed(t: Seq<char>) -> bool {
    let k = index_of(t, 'x', 0);
    if k >= t.len() {
        all_digits(t)
    } else {
        &&& k == 0 || all_digits(t.take(k))
        &&& k + 1 == t.len() || (t[k + 1] == '^' && all_digits(t.skip(k + 2)))
    }
}

/// The degree and the coefficient that a well-formed term writes; a
/// missing coefficient is one, a missing power is one after `x` and zero
/// without `x`.
pub open spec fn term_parts(t: Seq<char>) -> (nat, nat) {
    let k = index_of(t, 'x', 0);
    let coef = if k == 0 {
        1
    } else {
        digits_value(t.take(k))
    };
    if k >= t.len() {
        (0, digits_value(t))
    } else if k + 1 == t.len() {
        (1, coef)
    } else {
        (digits_value(t.skip(k + 2)), coef)
    }
}

/// The words of a polynomial text alternate terms and `+`.
pub open spec fn text_well_formed(ws: Seq<Seq<char>>) -> bool {
    &&& ws.len() == 0 || ws.len() % 2 == 1
    &&& forall|i: int| 0 <= i < ws.len() && i % 2 == 1 ==> ws[i] == seq!['+']
    &&& forall|i: int| 0 <= i < ws.len() && i % 2 == 0 ==> term_well_formed(#[trigger] ws[i])
}

/// The terms of a polynomial text, in order: `(degree, coefficient)`.
pub open spec fn text_terms(ws: Seq<Seq<char>>) -> Seq<(nat, nat)> {
    Seq::new(((ws.len() + 1) / 2) as nat, |k: int| term_parts(ws[2 * k]))
}

/// The terms can be turned into a polynomial over `C`: degrees fit in a
/// `u64` and are distinct, coefficients fit in a `usize` and convert to
/// non-zero values of `C`.
pub open spec fn terms_representable<C: Semiring>(ts: Seq<(nat, nat)>) -> bool {
    &&& forall|k: int| 0 <= k < ts.len() ==> #[trigger] ts[k].0 <= u64::MAX
    &&& forall|k: int| 0 <= k < ts.len() ==> #[trigger] ts[k].1 <= usize::MAX
    &&& forall|k: int|
        0 <= k < ts.len() ==> #[trigger] from_usize_spec::<C>(ts[k].1) is Some
            && from_usize_spec::<C>(ts[k].1) != Some(C::zero_value())
    &&& forall|k: int, l: int| 0 <= k < l < ts.len() ==> ts[k].0 != ts[l].0
}

proof fn lemma_digits_prefix(s: Seq<char>, i: int)
    requires
        0 <= i <= s.len(),
        forall|j: int| 0 <= j < s.len() ==> is_digit_char(s[j]),
    ensures
        digits_value(s.take(i)) <= digits_value(s),
    decreases s.len() - i,
{
    if i < s.len() {
        lemma_digits_prefix(s, i + 1);
        assert(s.take(i + 1).drop_last() =~= s.take(i));
    } else {
        assert(s.take(i) =~= s);
    }
}

/// The value of the digits `cs[from..to]`, which must fit in a `u64`.
fn read_digits(cs: &Vec<char>, from: usize, to: usize) -> (r: u64)
    requires
        from <= to <= cs@.len(),
        forall|j: int| from <= j < to ==> is_digit_char(cs@[j]),
        digits_value(cs@.subrange(from as int, to as int)) <= u64::MAX,
    ensures
        r == digits_value(cs@.subrange(from as int, to as int)),
{
    let ghost whole = cs@.subrange(from as int, to as int);
    let mut v: u64 = 0;
    let mut i = from;
    proof {
        assert(whole.take(0) =~= Seq::<char>::empty());
    }
    while i < to
        invariant
            from <= i <= to <= cs@.len(),
            whole == cs@.subrange(from as int, to as int),
            forall|j: int| from <= j < to ==> is_digit_char(cs@[j]),
            digits_value(whole) <= u64::MAX,
            v == digits_value(whole.take(i - from)),
        decreases to - i,
    {
        proof {
            assert(whole.take(i - from + 1).drop_last() =~= whole.take(i - from));
            assert(whole.take(i - from + 1).last() == cs@[i as int]);
            lemma_digits_prefix(whole, i - from + 1);
        }
        let d = (cs[i] as u32 - '0' as u32) as u64;
        v = v * 10 + d;
        i += 1;
    }
    proof {
        assert(whole.take(i - from) =~= whole);
    }
    v
}

/// The `(degree, coefficient)` pairs with coefficients converted to `C`.
pub open spec fn converted_terms<C: Semiring>(ts: Seq<(nat, nat)>) -> Seq<(u64, C)> {
    ts.map_values(|t: (nat, nat)| (t.0 as u64, from_usize_spec::<C>(t.1)->Some_0))
}

/// A polynomial with coefficients in `C`: terms `coef * x^deg`, each degree
/// at most once, no zero coefficient.
#[derive(Debug)]
pub struct Polynomial<C> {
    coefficients: Vec<(u64, C)>,
}

impl<C: Semiring> Polynomial<C> {
    /// The terms, as `(degree, coefficient)` pairs.
    pub closed spec fn terms(&self) -> Seq<(u64, C)> {
        self.coefficients@
    }

    /// Degrees are unique and coefficients non-zero.
    pub closed spec fn wf(&self) -> bool {
        &&& forall|i: int, j: int|
            0 <= i < j < self.coefficients@.len() ==> self.coefficients@[i].0
                != self.coefficients@[j].0
        &&& forall|i: int|
            0 <= i < self.coefficients@.len() ==> self.coefficients@[i].1 != C::zero_value()
    }

    /// The zero polynomial.
    pub fn zero() -> (r: Self)
        ensures
            r.wf(),
            r.terms() == Seq::<(u64, C)>::empty(),
    {
        Polynomial { coefficients: Vec::new() }
    }

    /// The polynomial `a * x^n`; the zero polynomial when `a` is zero.
    pub fn term(a: C, n: u64) -> (r: Self)
        ensures
            r.wf(),
            r.terms() == if a == C::zero_value() {
                Seq::<(u64, C)>::empty()
            } else {
                seq![(n, a)]
            },
    {
        if a.is_zero() {
            return Polynomial { coefficients: Vec::new() };
        }
        let mut coefficients: Vec<(u64, C)> = Vec::new();
        coefficients.push((n, a));
        assert(coefficients@ =~= seq![(n, a)]);
        Polynomial { coefficients }
    }

    /// The polynomial `x`, that is `one * x^1`.
    pub fn x() -> (r: Self)
        ensures
            r.wf(),
            r.terms() == if C::one_value() == C::zero_value() {
                Seq::<(u64, C)>::empty()
            } else {
                seq![(1u64, C::one_value())]
            },
    {
        Self::term(C::one(), 1)
    }

    /// The sum of two polynomials: at each degree, the sum of the two
    /// coefficients (no term when it is zero), or the one coefficient there
    /// is. Sums at degrees where both have a term must be defined.
    pub fn plus(&self, rhs: &Self) -> (r: Self)
        requires
            self.wf(),
            rhs.wf(),
            forall|d: u64|
                coefficient(self.terms(), d) is Some && coefficient(rhs.terms(), d) is Some
                    ==> C::sum_defined(
                    coefficient(self.terms(), d)->Some_0,
                    coefficient(rhs.terms(), d)->Some_0,
                ),
        ensures
            r.wf(),
            forall|d: u64|
                #[trigger] coefficient(r.terms(), d) == combine(
                    coefficient(self.terms(), d),
                    coefficient(rhs.terms(), d),
                ),
    {
        let ghost a = self.coefficients@;
        let ghost b = rhs.coefficients@;
        let mut out: Vec<(u64, C)> = Vec::new();
        let mut i: usize = 0;
        while i < self.coefficients.len()
            invariant
                a == self.coefficients@,
                i <= a.len(),
                out@ == a.take(i as int),
            decreases self.coefficients.len() - i,
        {
            out.push(self.coefficients[i]);
            i += 1;
            assert(out@ =~= a.take(i as int));
        }
        assert(a.take(i as int) =~= a);
        let mut j: usize = 0;
        while j < rhs.coefficients.len()
            invariant
                a == self.coefficients@,
                b == rhs.coefficients@,
                self.wf(),
                rhs.wf(),
                forall|d: u64|
                    coefficient(a, d) is Some && coefficient(b, d) is Some ==> C::sum_defined(
                        coefficient(a, d)->Some_0,
                        coefficient(b, d)->Some_0,
                    ),
                j <= b.len(),
                degrees_unique(out@),
                forall|k: int| 0 <= k < out@.len() ==> out@[k].1 != C::zero_value(),
                forall|d: u64|
                    #[trigger] coefficient(out@, d) == if coefficient(b.take(j as int), d) is Some {
                        combine(coefficient(a, d), coefficient(b, d))
                    } else {
                        coefficient(a, d)
                    },
            decreases rhs.coefficients.len() - j,
        {
            let (deg, c) = rhs.coefficients[j];
            proof {
                assert(b.take(j + 1).drop_last() =~= b.take(j as int));
                lemma_coefficient_at(b, j as int);
                assert(degrees_unique(b));
                assert forall|k: int| 0 <= k < j implies b.take(j as int)[k].0 != deg by {
                    assert(b[k].0 != b[j as int].0);
                }
                lemma_coefficient_absent(b.take(j as int), deg);
            }
            let ghost before = out@;
            let mut idx: usize = 0;
            while idx < out.len() && out[idx].0 != deg
                invariant
                    idx <= out@.len(),
                    forall|k: int| 0 <= k < idx ==> out@[k].0 != deg,
                decreases out.len() - idx,
            {
                idx += 1;
            }
            if idx < out.len() {
                proof {
                    lemma_coefficient_at(out@, idx as int);
                }
                let s = out[idx].1.add(&c);
                if s.is_zero() {
                    proof {
                        assert forall|d: u64| #[trigger] coefficient(before.remove(idx as int), d)
                            == if d == deg { None } else { coefficient(before, d) } by {
                            lemma_coefficient_remove(before, idx as int, d);
                        }
                        lemma_coefficient_remove(before, idx as int, deg);
                    }
                    out.remove(idx);
                    proof {
                        assert forall|k: int| 0 <= k < out@.len() implies out@[k].1 != C::zero_value() by {
                            let kk = if k < idx { k } else { k + 1 };
                            assert(out@[k] == before[kk]);
                        }
                    }
                } else {
                    proof {
                        assert forall|d: u64| #[trigger] coefficient(before.update(idx as int, (deg, s)), d)
                            == if d == deg { Some(s) } else { coefficient(before, d) } by {
                            lemma_coefficient_update(before, idx as int, (deg, s), d);
                        }
                        lemma_coefficient_update(before, idx as int, (deg, s), deg);
                    }
                    out.set(idx, (deg, s));
                }
            } else {
                proof {
                    lemma_coefficient_absent(before, deg);
                    assert forall|x: int, y: int| 0 <= x < y < before.len() + 1 implies before.push((deg, c))[x].0
                        != before.push((deg, c))[y].0 by {
                        if y == before.len() {
                            assert(before[x].0 != deg);
                        }
                    }
                    assert forall|d: u64| #[trigger] coefficient(before.push((deg, c)), d)
                        == if d == deg { Some(c) } else { coefficient(before, d) } by {
                        assert(before.push((deg, c)).drop_last() =~= before);
                    }
                    assert(c != C::zero_value());
                }
                out.push((deg, c));
            }
            j += 1;
        }
        assert(b.take(j as int) =~= b);
        proof {
            assert forall|d: u64| #[trigger] coefficient(out@, d) == combine(
                coefficient(a, d),
                coefficient(b, d),
            ) by {
                if coefficient(b, d) is None {
                }
            }
        }
        Polynomial { coefficients: out }
    }

    /// The product of two polynomials: at each degree, as
    /// [`product_coefficient`] describes. Every step must be defined.
    pub fn times(&self, rhs: &Self) -> (r: Self)
        requires
            self.wf(),
            rhs.wf(),
            product_defined_all(self.terms(), rhs.terms()),
        ensures
            r.wf(),
            forall|d: u64|
                #[trigger] coefficient(r.terms(), d) == product_coefficient(
                    self.terms(),
                    rhs.terms(),
                    d,
                ),
    {
        let ghost a = self.coefficients@;
        let ghost b = rhs.coefficients@;
        let mut out: Vec<(u64, C)> = Vec::new();
        let mut i: usize = 0;
        while i < self.coefficients.len()
            invariant
                a == self.coefficients@,
                b == rhs.coefficients@,
                product_defined_all(a, b),
                i <= a.len(),
                degrees_unique(out@),
                forall|k: int| 0 <= k < out@.len() ==> out@[k].1 != C::zero_value(),
                forall|d: u64|
                    #[trigger] coefficient(out@, d) == product_coefficient(a.take(i as int), b, d),
            decreases self.coefficients.len() - i,
        {
            let (dl, cl) = self.coefficients[i];
            proof {
                assert(a.take(i + 1).drop_last() =~= a.take(i as int));
                assert(b.take(0) =~= Seq::<(u64, C)>::empty());
            }
            let mut j: usize = 0;
            while j < rhs.coefficients.len()
                invariant
                    a == self.coefficients@,
                    b == rhs.coefficients@,
                    product_defined_all(a, b),
                    i < a.len(),
                    (dl, cl) == a[i as int],
                    j <= b.len(),
                    degrees_unique(out@),
                    forall|k: int| 0 <= k < out@.len() ==> out@[k].1 != C::zero_value(),
                    forall|d: u64|
                        #[trigger] coefficient(out@, d) == row_fold(
                            product_coefficient(a.take(i as int), b, d),
                            (dl, cl),
                            b.take(j as int),
                            d,
                        ),
                decreases rhs.coefficients.len() - j,
            {
                let (dr, cr) = rhs.coefficients[j];
                proof {
                    assert(b.take(j + 1).drop_last() =~= b.take(j as int));
                    assert(b.take(j + 1).last() == (dr, cr));
                    let p = C::product(a[i as int].1, b[j as int].1);
                    assert(a[i as int].0 + b[j as int].0 <= u64::MAX);
                }
                let deg = dl + dr;
                let prod = cl.mul(&cr);
                let ghost before = out@;
                if !prod.is_zero() {
                    let mut idx: usize = 0;
                    while idx < out.len() && out[idx].0 != deg
                        invariant
                            idx <= out@.len(),
                            forall|k: int| 0 <= k < idx ==> out@[k].0 != deg,
                        decreases out.len() - idx,
                    {
                        idx += 1;
                    }
                    if idx < out.len() {
                        proof {
                            lemma_coefficient_at(out@, idx as int);
                        }
                        let s = out[idx].1.add(&prod);
                        if s.is_zero() {
                            proof {
                                assert forall|d: u64| #[trigger] coefficient(before.remove(idx as int), d)
                                    == if d == deg { None } else { coefficient(before, d) } by {
                                    lemma_coefficient_remove(before, idx as int, d);
                                }
                                lemma_coefficient_remove(before, idx as int, deg);
                            }
                            out.remove(idx);
                            proof {
                                assert forall|k: int| 0 <= k < out@.len() implies out@[k].1
                                    != C::zero_value() by {
                                    let kk = if k < idx { k } else { k + 1 };
                                    assert(out@[k] == before[kk]);
                                }
                            }
                        } else {
                            proof {
                                assert forall|d: u64| #[trigger] coefficient(before.update(idx as int, (deg, s)), d)
                                    == if d == deg { Some(s) } else { coefficient(before, d) } by {
                                    lemma_coefficient_update(before, idx as int, (deg, s), d);
                                }
                                lemma_coefficient_update(before, idx as int, (deg, s), deg);
                            }
                            out.set(idx, (deg, s));
                        }
                    } else {
                        proof {
                            lemma_coefficient_absent(before, deg);
                            assert forall|x: int, y: int| 0 <= x < y < before.len() + 1 implies before.push(
                                (deg, prod),
                            )[x].0 != before.push((deg, prod))[y].0 by {
                                if y == before.len() {
                                    assert(before[x].0 != deg);
                                }
                            }
                            assert forall|d: u64| #[trigger] coefficient(before.push((deg, prod)), d)
                                == if d == deg { Some(prod) } else { coefficient(before, d) } by {
                                assert(before.push((deg, prod)).drop_last() =~= before);
                            }
                        }
                        out.push((deg, prod));
                    }
                }
                j += 1;
            }
            proof {
                assert(b.take(j as int) =~= b);
            }
            i += 1;
        }
        proof {
            assert(a.take(i as int) =~= a);
        }
        Polynomial { coefficients: out }
    }

    /// Reads a polynomial written as terms `a`, `x`, `ax`, `x^n` or `ax^n`
    /// (decimal `a` and `n`) joined by `+` between spaces, for example
    /// `3x^2 + x + 1`; each coefficient `a` becomes [`from_usize`] of it.
    /// Blank text gives the zero polynomial. The text must be well formed,
    /// with distinct degrees and coefficients that convert to non-zero
    /// values.
    pub fn parse(s: &str) -> (r: Self)
        requires
            text_well_formed(words(s@)),
            terms_representable::<C>(text_terms(words(s@))),
        ensures
            r.wf(),
            r.terms() == converted_terms::<C>(text_terms(words(s@))),
    {
        let cs = chars_of(s);
        let mut ws: Vec<String> = Vec::new();
        split_words(&cs, &mut ws);
        assert(strings_view(ws@) =~= words(s@));
        let ghost w = words(s@);
        let ghost ts = text_terms(w);
        let ghost expected = converted_terms::<C>(ts);
        let m = ws.len() / 2 + ws.len() % 2;
        let mut out: Vec<(u64, C)> = Vec::new();
        let mut j: usize = 0;
        while j < m
            invariant
                w == strings_view(ws@),
                text_well_formed(w),
                terms_representable::<C>(ts),
                ts == text_terms(w),
                expected == converted_terms::<C>(ts),
                m == ws@.len() / 2 + ws@.len() % 2,
                m == ts.len(),
                j <= m,
                out@ == expected.take(j as int),
            decreases m - j,
        {
            let len = ws.len();
            assert(2 * j < len) by {
                assert(len == 2 * (len / 2) + len % 2);
            }
            let t = chars_of(ws[2 * j].as_str());
            let ghost tw = w[2 * j];
            assert(t@ == tw);
            assert(term_well_formed(tw));
            let n = t.len();
            let mut x: usize = 0;
            while x < n && t[x] != 'x'
                invariant
                    x <= n,
                    n == t@.len(),
                    index_of(t@, 'x', 0) == index_of(t@, 'x', x as int),
                decreases n - x,
            {
                x += 1;
            }
            let ghost parts = term_parts(tw);
            assert(ts[j as int] == parts);
            assert(index_of(t@, 'x', x as int) == x);
            assert(ts[j as int].0 <= u64::MAX && ts[j as int].1 <= usize::MAX);
            assert(from_usize_spec::<C>(ts[j as int].1) is Some);
            let (deg, coef): (u64, u64) = if x >= n {
                assert(t@.subrange(0, n as int) =~= t@);
                assert(forall|i: int| 0 <= i < n ==> is_digit_char(t@[i]));
                (0, read_digits(&t, 0, n))
            } else {
                let coef = if x == 0 {
                    1
                } else {
                    assert(t@.subrange(0, x as int) =~= t@.take(x as int));
                    assert forall|i: int| 0 <= i < x implies is_digit_char(t@[i]) by {
                        assert(t@.take(x as int)[i] == t@[i]);
                    }
                    read_digits(&t, 0, x)
                };
                if x + 1 == n {
                    (1, coef)
                } else {
                    assert(t@.subrange(x + 2, n as int) =~= t@.skip(x + 2));
                    assert forall|i: int| x + 2 <= i < n implies is_digit_char(t@[i]) by {
                        assert(t@.skip(x + 2)[i - (x + 2)] == t@[i]);
                    }
                    (read_digits(&t, x + 2, n), coef)
                }
            };
            assert(deg == parts.0 && coef == parts.1);
            let value = from_usize::<C>(coef as usize);
            out.push((deg, value));
            j += 1;
            assert(out@ =~= expected.take(j as int));
        }
        assert(expected.take(j as int) =~= expected);
        Polynomial { coefficients: out }
    }

    /// The value of the polynomial at `value`, adding its terms in order
    /// (see [`eval_spec`]); every operation along the way must be defined.
    pub fn eval(&self, value: C) -> (r: C)
        requires
            eval_spec(self.terms(), value) is Some,
        ensures
            Some(r) == eval_spec(self.terms(), value),
    {
        let mut result = C::zero();
        let mut i: usize = 0;
        while i < self.coefficients.len()
            invariant
                i <= self.coefficients@.len(),
                eval_spec(self.coefficients@, value) is Some,
                Some(result) == eval_spec(self.coefficients@.take(i as int), value),
            decreases self.coefficients.len() - i,
        {
            let ghost terms = self.coefficients@;
            proof {
                assert(terms.take(0) =~= Seq::<(u64, C)>::empty());
                lemma_eval_prefix(terms, value, i + 1);
                assert(terms.take(i + 1).drop_last() =~= terms.take(i as int));
            }
            let (deg, coef) = self.coefficients[i];
            let mut pow = C::one();
            let mut k: u64 = 0;
            proof {
                assert(power_spec(value, deg as nat) is Some);
            }
            while k < deg
                invariant
                    k <= deg,
                    power_spec(value, deg as nat) is Some,
                    Some(pow) == power_spec(value, k as nat),
                decreases deg - k,
            {
                proof {
                    lemma_power_prefix(value, k as nat + 1, deg as nat);
                }
                pow = pow.mul(&value);
                k += 1;
            }
            let t = coef.mul(&pow);
            result = result.add(&t);
            i += 1;
        }
        assert(self.coefficients@.take(i as int) =~= self.coefficients@);
        result
    }
}

proof fn lemma_eval_prefix<C: Semiring>(terms: Seq<(u64, C)>, value: C, k: int)
    requires
        0 <= k <= terms.len(),
        eval_spec(terms, value) is Some,
    ensures
        eval_spec(terms.take(k), value) is Some,
    decreases terms.len() - k,
{
    if k < terms.len() {
        lemma_eval_prefix(terms, value, k + 1);
        assert(terms.take(k + 1).drop_last() =~= terms.take(k));
    } else {
        assert(terms.take(k) =~= terms);
    }
}

} // verus!
