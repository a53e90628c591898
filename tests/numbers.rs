use cs220::generator::{collatz_step, fib_step};
use cs220::grid::{sigma, sum_is_n, two_dimensional_sum};
use cs220::numeric::{chooses, fib, gcd, is_fibonacci, sum_array, up3, zip};
use cs220::means::{class_totals, k_smallest_sum};
use cs220::pythagorean::pythagorean;
use cs220::semiring::{from_usize, Polynomial, Semiring};
use cs220::rational::{
    lcm, BaseFuncs, ComplexFuncs, Differentiable, Exp, Rational, SingletonPolynomial,
    Trignometric,
};
use cs220::bigint::BigInt;

#[test]
fn sum_array_adds_all() {
    assert_eq!(sum_array(&[]), 0);
    assert_eq!(sum_array(&[1, 2, 3, 4]), 10);
    assert_eq!(sum_array(&[u64::MAX - 1, 1]), u64::MAX);
}

#[test]
fn up3_rounds_up_to_power_of_three() {
    assert_eq!(up3(0), 1);
    assert_eq!(up3(1), 1);
    assert_eq!(up3(6), 9);
    assert_eq!(up3(9), 9);
    assert_eq!(up3(10), 27);
    assert_eq!(up3(12157665459056928801), 12157665459056928801);
    assert_eq!(up3(12157665459056928802), u64::MAX);
}

#[test]
fn gcd_examples() {
    assert_eq!(gcd(12, 18), 6);
    assert_eq!(gcd(0, 5), 5);
    assert_eq!(gcd(17, 5), 1);
    assert_eq!(gcd(5, 5), 5);
    assert_eq!(gcd(7, 0), 7);
    assert_eq!(gcd(0, 0), 0);
}

#[test]
fn zip_drops_unpaired() {
    assert_eq!(zip(vec![1, 2, 3], vec![4, 5]), vec![(1, 4), (2, 5)]);
    assert_eq!(zip(vec![], vec![4, 5]), vec![]);
}

#[test]
fn fibonacci_checks() {
    assert!(is_fibonacci(vec![1, 1, 2, 3, 5, 8, 13]));
    assert!(!is_fibonacci(vec![1, 1, 2, 3, 5, 8, 14]));
    assert!(is_fibonacci(vec![]));
    assert!(is_fibonacci(vec![7, -3]));
    assert!(!is_fibonacci(vec![i64::MAX, 1, i64::MIN]));
}

#[test]
fn fib_terms() {
    assert_eq!(fib(0, 1, 8), vec![0, 1, 1, 2, 3, 5, 8, 13]);
    assert_eq!(fib(2, 5, 4), vec![2, 5, 7, 12]);
    assert_eq!(fib(3, 4, 0), vec![]);
    assert_eq!(fib(3, u64::MAX, 2), vec![3, u64::MAX]);
}

#[test]
fn lcm_examples() {
    assert_eq!(lcm(4, 6), 12);
    assert_eq!(lcm(3, 5), 15);
    assert_eq!(lcm(7, 7), 7);
    assert_eq!(lcm(0, 5), 0);
}

#[test]
fn rational_normalization() {
    assert_eq!(Rational::new(2, 4).normalized(), Rational::new(1, 2));
    assert_eq!(Rational::new(3, -6).normalized(), Rational::new(-1, 2));
    assert_eq!(Rational::new(0, 7).normalized(), Rational::new(0, 1));
    assert_eq!(Rational::new(2, 3).times(Rational::new(3, 4)), Rational::new(1, 2));
    assert_eq!(Rational::new(5, 9).diff(), Rational::new(0, 0));
}

#[test]
fn function_constructors_and_derivatives() {
    let c = Rational::new(2, 3);
    assert_eq!(SingletonPolynomial::new_c(c), SingletonPolynomial::Const(c));
    assert_eq!(
        SingletonPolynomial::new_poly(c, Rational::new(2, 1)),
        SingletonPolynomial::Polynomial { coeff: c, power: Rational::new(2, 1) }
    );
    assert_eq!(Exp::new().diff(), Exp::new());
    assert_eq!(Trignometric::new_sine(c).derivative(), Trignometric::new_cosine(c));
    assert_eq!(
        Trignometric::new_cosine(c).derivative(),
        Trignometric::new_sine(Rational::new(-2, 3))
    );
}

#[test]
fn bigint_constructors() {
    assert_eq!(BigInt::new(7).carrier, vec![7]);
    assert_eq!(BigInt::new_large(vec![1, 2, 3]).carrier, vec![1, 2, 3]);
}

#[test]
fn pascal_rows() {
    assert_eq!(chooses(0), vec![1]);
    assert_eq!(chooses(1), vec![1, 1]);
    assert_eq!(chooses(5), vec![1, 5, 10, 10, 5, 1]);
    let row = chooses(67);
    assert_eq!(row[33], 14226520737620288370);
    assert_eq!(row[1], 67);
}

#[test]
fn two_dimensional_sums() {
    assert_eq!(two_dimensional_sum(vec![vec![1, 2, 3], vec![4, 5, 6]]), 21);
    assert_eq!(two_dimensional_sum(vec![]), 0);
    assert_eq!(two_dimensional_sum(vec![vec![], vec![-4]]), -4);
}

#[test]
fn cartesian_sums() {
    assert_eq!(sum_is_n(vec![vec![1, 2, 3], vec![2, 3]], 3), 1);
    assert_eq!(sum_is_n(vec![vec![1, 2, 3], vec![2, 3]], 4), 2);
    assert_eq!(sum_is_n(vec![vec![1, 2, 3], vec![2, 3]], 5), 2);
    assert_eq!(sum_is_n(vec![vec![1, 2, 3], vec![2, 3]], 6), 1);
    assert_eq!(sum_is_n(vec![vec![1, 2, 3], vec![2, 3]], 2), 0);
    assert_eq!(sum_is_n(vec![vec![1, 1], vec![1, 1], vec![0]], 2), 4);
    assert_eq!(sum_is_n(vec![], 0), 0);
}

#[test]
fn sigma_sums_results() {
    assert_eq!(sigma(vec![1, 2], |x| x + 2), 7);
    assert_eq!(sigma(vec![1, 2], |x| x * 4), 12);
    assert_eq!(sigma(Vec::<i64>::new(), |x| x), 0);
    assert_eq!(sigma(vec!["ab", "c"], |s: &str| s.len() as i64), 3);
}

#[test]
fn rational_arithmetic() {
    let half = Rational::new(1, 2);
    let third = Rational::new(1, 3);
    assert_eq!(half.plus(third), Rational::new(5, 6));
    assert_eq!(half.minus(third), Rational::new(1, 6));
    assert_eq!(half.plus(half), Rational::new(1, 1));
    assert_eq!(half.minus(half), Rational::new(0, 1));
    assert_eq!(Rational::new(1, 4).plus(Rational::new(1, 6)), Rational::new(5, 12));
    assert_eq!(half.divided_by(third), Rational::new(3, 2));
    assert_eq!(half.divided_by(Rational::new(-1, 3)), Rational::new(-3, 2));
    assert_eq!(lcm(-2, 3), -6);
}

#[test]
fn derivatives_of_basic_functions() {
    let c = Rational::new(3, 1);
    assert_eq!(
        SingletonPolynomial::new_poly(c, Rational::new(1, 1)).derivative(),
        SingletonPolynomial::new_c(c)
    );
    assert_eq!(
        SingletonPolynomial::new_poly(c, Rational::new(2, 1)).derivative(),
        SingletonPolynomial::new_poly(Rational::new(6, 1), Rational::new(1, 1))
    );
    assert_eq!(
        SingletonPolynomial::new_poly(Rational::new(1, 2), Rational::new(1, 2)).derivative(),
        SingletonPolynomial::new_poly(Rational::new(1, 4), Rational::new(-1, 2))
    );
    assert_eq!(
        SingletonPolynomial::new_c(c).derivative(),
        SingletonPolynomial::new_c(Rational::new(0, 0))
    );
    assert_eq!(BaseFuncs::Exp(Exp::new()).derivative(), BaseFuncs::Exp(Exp::new()));
    assert_eq!(
        BaseFuncs::Trig(Trignometric::new_cosine(c)).derivative(),
        BaseFuncs::Trig(Trignometric::new_sine(Rational::new(-3, 1)))
    );
    assert_eq!(BaseFuncs::Const(c).derivative(), BaseFuncs::Const(Rational::new(0, 0)));
}

#[test]
fn fibonacci_steps() {
    let mut state = (0usize, 1usize);
    let mut seen = vec![];
    for _ in 0..7 {
        seen.push(fib_step(&mut state));
    }
    assert_eq!(seen, vec![0, 1, 1, 2, 3, 5, 8]);
    assert_eq!(state, (13, 21));
}

#[test]
fn collatz_steps() {
    let mut state = 6usize;
    let mut seen = vec![];
    while let Some(n) = collatz_step(&mut state) {
        seen.push(n);
    }
    assert_eq!(seen, vec![6, 3, 10, 5, 16, 8, 4, 2, 1]);
    assert_eq!(state, 0);
    let mut zero = 0usize;
    assert_eq!(collatz_step(&mut zero), None);
    let mut big = usize::MAX;
    assert_eq!(collatz_step(&mut big), Some(usize::MAX));
    assert_eq!(big, usize::MAX - 1);
}

#[test]
fn semiring_conversions() {
    assert_eq!(from_usize::<u64>(5), 5);
    assert_eq!(from_usize::<i64>(0), 0);
    assert_eq!(<u64 as Semiring>::zero(), 0);
    assert_eq!(<i64 as Semiring>::one(), 1);
    assert_eq!(3u64.add(&4), 7);
    assert_eq!((-3i64).mul(&4), -12);
    assert!(0u64.is_zero());
}

#[test]
fn polynomial_evaluation() {
    assert_eq!(Polynomial::<u64>::x().eval(7), 7);
    assert_eq!(Polynomial::term(3u64, 2).eval(2), 12);
    assert_eq!(Polynomial::term(0u64, 2).eval(2), 0);
    assert_eq!(Polynomial::<i64>::zero().eval(5), 0);
    assert_eq!(Polynomial::term(-2i64, 3).eval(3), -54);
    assert_eq!(Polynomial::term(5u64, 0).eval(100), 5);
}

#[test]
fn polynomial_addition() {
    let p = Polynomial::term(3u64, 2).plus(&Polynomial::term(1, 0));
    let q = Polynomial::term(2u64, 2).plus(&Polynomial::<u64>::x());
    let sum = p.plus(&q);
    assert_eq!(sum.eval(2), 23);
    assert_eq!(sum.eval(0), 1);
    let cancel = Polynomial::term(2i64, 1).plus(&Polynomial::term(-2i64, 1));
    assert_eq!(cancel.eval(9), 0);
    let again = cancel.plus(&Polynomial::term(4i64, 1));
    assert_eq!(again.eval(3), 12);
}

#[test]
fn functions_as_text() {
    assert_eq!(Rational::new(0, 0).to_text(), "0");
    assert_eq!(Rational::new(-3, 1).to_text(), "-3");
    assert_eq!(Rational::new(2, -5).to_text(), "2/-5");
    assert_eq!(SingletonPolynomial::new_poly(Rational::new(1, 1), Rational::new(1, 1)).to_text(), "x");
    assert_eq!(
        SingletonPolynomial::new_poly(Rational::new(-1, 1), Rational::new(3, 1)).to_text(),
        "-x^(3)"
    );
    assert_eq!(
        SingletonPolynomial::new_poly(Rational::new(1, 2), Rational::new(1, 2)).to_text(),
        "(1/2)x^(1/2)"
    );
    assert_eq!(SingletonPolynomial::new_c(Rational::new(7, 1)).to_text(), "7");
    assert_eq!(Exp::new().to_text(), "exp(x)");
    assert_eq!(Trignometric::new_sine(Rational::new(1, 1)).to_text(), "sin(x)");
    assert_eq!(Trignometric::new_cosine(Rational::new(2, 3)).to_text(), "(2/3)cos(x)");
    assert_eq!(Trignometric::new_cosine(Rational::new(0, 0)).to_text(), "0");
    assert_eq!(BaseFuncs::Exp(Exp::new()).to_text(), "exp(x)");
    assert_eq!(Rational::new(4, 9).numerator(), 4);
    assert_eq!(Rational::new(4, 9).denominator(), 9);
}

#[test]
fn polynomial_multiplication() {
    let p = Polynomial::<u64>::x().plus(&Polynomial::term(1, 0));
    let q = Polynomial::<u64>::x().plus(&Polynomial::term(2, 0));
    let pq = p.times(&q);
    assert_eq!(pq.eval(3), 20);
    assert_eq!(pq.eval(0), 2);
    let a = Polynomial::<i64>::x().plus(&Polynomial::term(-1, 0));
    let b = Polynomial::<i64>::x().plus(&Polynomial::term(1, 0));
    assert_eq!(a.times(&b).eval(4), 15);
    assert_eq!(a.times(&Polynomial::zero()).eval(4), 0);
}

#[test]
fn polynomial_from_text() {
    let p = Polynomial::<u64>::parse("x^2 + 5x + 6");
    assert_eq!(p.eval(2), 20);
    assert_eq!(Polynomial::<u64>::parse("3").eval(9), 3);
    assert_eq!(Polynomial::<u64>::parse("").eval(9), 0);
    assert_eq!(Polynomial::<i64>::parse("7x^3 + x").eval(-2), -58);
    assert_eq!(Polynomial::<u64>::parse("12x^10").eval(1), 12);
}

#[test]
fn complex_function_derivatives() {
    let e = || Box::new(ComplexFuncs::Func(Exp::new()));
    let product = ComplexFuncs::Mul(e(), e());
    assert_eq!(
        product.derivative(),
        ComplexFuncs::Add(
            Box::new(ComplexFuncs::Mul(e(), e())),
            Box::new(ComplexFuncs::Mul(e(), e()))
        )
    );
    let c = |n| Box::new(ComplexFuncs::Func(Rational::new(n, 1)));
    let zero = || Box::new(ComplexFuncs::Func(Rational::new(0, 0)));
    assert_eq!(
        ComplexFuncs::Div(c(1), c(2)).derivative(),
        ComplexFuncs::Div(
            Box::new(ComplexFuncs::Sub(
                Box::new(ComplexFuncs::Mul(zero(), c(2))),
                Box::new(ComplexFuncs::Mul(c(1), zero()))
            )),
            Box::new(ComplexFuncs::Mul(c(2), c(2)))
        )
    );
    assert_eq!(
        ComplexFuncs::Comp(c(5), c(3)).derivative(),
        ComplexFuncs::Mul(Box::new(ComplexFuncs::Comp(zero(), c(3))), zero())
    );
    assert_eq!(
        ComplexFuncs::Sub(e(), e()).derivative(),
        ComplexFuncs::Sub(e(), e())
    );
    assert_eq!(ComplexFuncs::Func(Exp::new()).duplicate(), ComplexFuncs::Func(Exp::new()));
}

#[test]
fn pythagorean_triples_in_order() {
    let mut g = pythagorean();
    let mut seen = vec![];
    for _ in 0..11 {
        seen.push(g.next_triple().unwrap());
    }
    assert_eq!(
        seen,
        vec![
            (3, 4, 5),
            (5, 12, 13),
            (8, 15, 17),
            (7, 24, 25),
            (20, 21, 29),
            (12, 35, 37),
            (9, 40, 41),
            (28, 45, 53),
            (11, 60, 61),
            (16, 63, 65),
            (33, 56, 65)
        ]
    );
}

#[test]
fn smallest_sums_and_class_totals() {
    assert_eq!(k_smallest_sum(vec![1, 3, 2], 2), 3);
    assert_eq!(k_smallest_sum(vec![7, 5, 3, 6], 3), 14);
    assert_eq!(k_smallest_sum(vec![4], 5), 4);
    assert_eq!(k_smallest_sum(vec![i64::MAX, i64::MAX], 2), 2 * (i64::MAX as i128));
    let totals = class_totals(vec![
        ("CS100".to_string(), 60),
        ("CS200".to_string(), 60),
        ("CS200".to_string(), 80),
        ("CS300".to_string(), 100),
    ]);
    assert_eq!(
        totals,
        vec![
            ("CS100".to_string(), 60, 1),
            ("CS200".to_string(), 140, 2),
            ("CS300".to_string(), 100, 1)
        ]
    );
}
