use exact_arith::errors::MathError;
use exact_arith::polynomial::Polynomial;

#[test]
fn test_polynomial_ops() {
    let p = Polynomial { coeffs: vec![1, 1] };
    let q = Polynomial { coeffs: vec![1, 2, 1] };
    let r = Polynomial { coeffs: vec![2, 3, 1] };
    assert_eq!(p.mul(&p), q);
    assert_eq!(p.add(&q), r);

    //  trailing zero test
    let t = Polynomial { coeffs: vec![1, 1] };
    let u = Polynomial { coeffs: vec![1, 1, 0] };
    assert_eq!(t, u);
}

#[test]
fn test_polynomial_call() {
    let q = Polynomial { coeffs: vec![1, 2, 1] };
    assert_eq!(q.call(0), 1);
    assert_eq!(q.call(-1), 0);
}

#[test]
fn test_polynomials() {
    let p = Polynomial { coeffs: vec![1, 1] };
    let q = Polynomial { coeffs: vec![1, 2, 1] };
    let r = Polynomial { coeffs: vec![2, 3, 1] };
    assert_eq!(p.mul(&p), q);
    assert_eq!(p.add(&q), r);
}

#[test]
fn test_polynomial_queries() {
    let p = Polynomial { coeffs: vec![4, 0, 7, 0, 0] };
    assert_eq!(p.degree(), 2);
    assert_eq!(p.leading_coefficient(), 7);
    assert_eq!(p.nth_coeff(&0), 4);
    assert_eq!(p.nth_coeff(&1), 0);
    assert_eq!(p.nth_coeff(&2), 7);
    assert_eq!(p.nth_coeff(&99), 0);
    assert_eq!(p.drop_trailing_zeros().coeffs, vec![4, 0, 7]);
    // the zero polynomial keeps degree 0 by convention
    let z = Polynomial { coeffs: vec![0, 0, 0] };
    assert_eq!(z.degree(), 0);
    assert_eq!(z.drop_trailing_zeros().coeffs, vec![0]);
}

#[test]
fn test_polynomial_identities() {
    assert!(Polynomial::zero().is_zero());
    assert!(!Polynomial::zero().is_one());
    assert!(Polynomial::one().is_one());
    assert!(!Polynomial::one().is_zero());
    let almost = Polynomial { coeffs: vec![0, 0] };
    assert!(almost.is_zero());
    let shifted = Polynomial { coeffs: vec![0, 1] };
    assert!(!shifted.is_zero());
    assert!(!shifted.is_one());
}

#[test]
fn test_polynomial_sub() {
    let p = Polynomial { coeffs: vec![5, 3, 2] };
    let q = Polynomial { coeffs: vec![1, 3] };
    let d = p.sub(&q);
    assert_eq!(d, Polynomial { coeffs: vec![4, 0, 2] });
    // subtracting a polynomial from itself leaves the zero polynomial
    assert!(p.sub(&p).is_zero());
}

#[test]
fn test_polynomial_scalar_ops() {
    let p = Polynomial { coeffs: vec![3, 5, 7] };
    // scalar add and sub only touch the constant-term coefficient
    assert_eq!(p.add_scalar(10), Polynomial { coeffs: vec![13, 5, 7] });
    assert_eq!(p.sub_scalar(1), Polynomial { coeffs: vec![2, 5, 7] });
    // scalar mul, div and rem touch every coefficient
    assert_eq!(p.mul_scalar(-2), Polynomial { coeffs: vec![-6, -10, -14] });
    let q = Polynomial { coeffs: vec![7, -8, 9] };
    assert_eq!(q.div_scalar(2), Polynomial { coeffs: vec![3, -4, 4] });
    assert_eq!(q.rem_scalar(2), Polynomial { coeffs: vec![1, 0, 1] });
}

#[test]
fn test_div_rem_exact() {
    // (x + 1)(x + 2) == x^2 + 3x + 2
    let p = Polynomial { coeffs: vec![2, 3, 1] };
    let q = Polynomial { coeffs: vec![1, 1] };
    let (quo, rem) = exact_arith::polynomial::div_rem(&p, &q).unwrap();
    assert_eq!(quo, Polynomial { coeffs: vec![2, 1] });
    assert!(rem.is_zero());
    // round trip: (p / q) * q + (p % q) == p
    assert_eq!(quo.mul(&q).add(&rem), p);
}

#[test]
fn test_div_rem_with_remainder() {
    // x^2 + 1 == (x - 1)(x + 1) + 2
    let p = Polynomial { coeffs: vec![1, 0, 1] };
    let q = Polynomial { coeffs: vec![1, 1] };
    let (quo, rem) = exact_arith::polynomial::div_rem(&p, &q).unwrap();
    assert_eq!(quo, Polynomial { coeffs: vec![-1, 1] });
    assert_eq!(rem, Polynomial { coeffs: vec![2] });
    assert!(rem.degree() < q.degree());
    assert_eq!(quo.mul(&q).add(&rem), p);
}

#[test]
fn test_div_rem_small_dividend() {
    // a dividend of smaller degree divides out to zero with itself as rest
    let p = Polynomial { coeffs: vec![5, 7] };
    let q = Polynomial { coeffs: vec![1, 2, 1] };
    let (quo, rem) = exact_arith::polynomial::div_rem(&p, &q).unwrap();
    assert!(quo.is_zero());
    assert_eq!(rem, p);
    assert_eq!(quo.mul(&q).add(&rem), p);
}

#[test]
fn test_div_rem_errors() {
    let p = Polynomial { coeffs: vec![1, 2, 1] };
    let z = Polynomial { coeffs: vec![0, 0] };
    assert_eq!(
        exact_arith::polynomial::div_rem(&p, &z).unwrap_err(),
        MathError::DivisionByZero
    );
    // an inexact leading ratio cannot be represented over the integers
    let one = Polynomial { coeffs: vec![1] };
    let two = Polynomial { coeffs: vec![2] };
    assert_eq!(
        exact_arith::polynomial::div_rem(&one, &two).unwrap_err(),
        MathError::Unrepresentable
    );
}

#[test]
fn test_polynomial_eval_larger() {
    // 2 - 3x + x^3 at x = 4: 2 - 12 + 64 == 54
    let p = Polynomial { coeffs: vec![2, -3, 0, 1] };
    assert_eq!(p.call(4), 54);
    assert_eq!(p.call(1), 0);
}
