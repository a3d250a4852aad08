use exact_arith::errors::MathError;
use exact_arith::utils::{bgcd, bit_length, gcd, is_perfect_kth_power, is_perfect_power, jacobi,
    mod_exp, PerfectPower};

#[test]
fn main_test_gcd() {
    let a: u64 = 82289148;
    let b: u64 = 61345370799;
    let c: u64 = 25515131265;
    assert_eq!(gcd(a, a), a);
    assert_eq!(bgcd(a, a), a);
    assert_eq!(bgcd(0 as u64, a), a);
    assert_eq!(gcd(0 as u64, a), a);
    assert_eq!(gcd(b, c), 9 as u64);
    assert_eq!(bgcd(b, c), 9 as u64);
}

#[test]
fn tests_test_gcd() {
    assert_eq!(gcd(82289148, 82289148), 82289148);
    assert_eq!(bgcd(82289148, 82289148), 82289148);
    assert_eq!(bgcd(0, 82289148), 82289148);
    assert_eq!(gcd(0, 82289148), 82289148);
    assert_eq!(gcd(61345370799, 25515131265), 9);
    assert_eq!(bgcd(61345370799, 25515131265), 9);
    assert_eq!(gcd(45068332734, 75461940078), bgcd(45068332734, 75461940078));
    assert_eq!(gcd(1125899906842624, 1024), bgcd(1125899906842624, 1024));
}

#[test]
fn main_test_jacobi() {
    assert_eq!(jacobi(610, 987).unwrap(), -1);
    assert_eq!(jacobi(1001, 9907).unwrap(), -1);
    assert_eq!(jacobi(219, 383).unwrap(), 1);
    assert_eq!(jacobi(3, 27).unwrap(), 0);
}

#[test]
fn tests_test_jacobi() {
    assert_eq!(jacobi(610, 987).unwrap(), -1);
    assert_eq!(jacobi(1001, 9907).unwrap(), -1);
    assert_eq!(jacobi(219, 383).unwrap(), 1);
    // An even modulus is outside the Jacobi symbol's domain.
    assert_eq!(jacobi(123, 1234), Err(MathError::InvalidArgument));
    assert_eq!(jacobi(2, 1234), Err(MathError::InvalidArgument));
    assert_eq!(jacobi(3, 27).unwrap(), 0);
}

#[test]
fn main_test_is_perfect_power() {
    assert!(matches!(
        is_perfect_kth_power(2 * 2 * 2 * 2 * 2, 5),
        Ok(PerfectPower::Decomp(2, 5))
    ));
    assert!(matches!(
        is_perfect_power(2 * 2 * 2 * 2 * 2 * 3),
        PerfectPower::NotPerfectPower
    ));
}

#[test]
fn tests_test_is_perfect_power() {
    assert!(matches!(
        is_perfect_power(2 * 2 * 2 * 2 * 2),
        PerfectPower::Decomp(2, 5)
    ));
    assert!(matches!(
        is_perfect_power(2 * 2 * 2 * 2 * 2 * 3),
        PerfectPower::NotPerfectPower
    ));
}

#[test]
fn test_is_perfect_power_more() {
    // a square is found with the smallest exponent first
    assert!(matches!(is_perfect_power(64), PerfectPower::Decomp(8, 2)));
    assert!(matches!(is_perfect_power(27), PerfectPower::Decomp(3, 3)));
    assert!(matches!(is_perfect_power(0), PerfectPower::NotPerfectPower));
    assert!(matches!(is_perfect_power(1), PerfectPower::NotPerfectPower));
    assert!(matches!(is_perfect_power(2), PerfectPower::NotPerfectPower));
    assert!(matches!(
        is_perfect_power(u64::MAX),
        PerfectPower::NotPerfectPower
    ));
    // 2^63 == (2^21)^3 with smallest exponent 3
    assert!(matches!(
        is_perfect_power(1 << 63),
        PerfectPower::Decomp(2097152, 3)
    ));
}

#[test]
fn test_is_perfect_kth_power_errors() {
    assert_eq!(
        is_perfect_kth_power(1, 5).unwrap_err(),
        MathError::InvalidArgument
    );
    assert_eq!(
        is_perfect_kth_power(10, 1).unwrap_err(),
        MathError::InvalidArgument
    );
    assert!(matches!(
        is_perfect_kth_power(36, 2),
        Ok(PerfectPower::Decomp(6, 2))
    ));
    assert!(matches!(
        is_perfect_kth_power(36, 3),
        Ok(PerfectPower::NotPerfectPower)
    ));
}

#[test]
fn test_mod_exp() {
    assert_eq!(mod_exp(123414124213, 1231234, 10), 9);
    assert_eq!(mod_exp(2, 10, 1000000), 1024);
    assert_eq!(mod_exp(5, 0, 7), 1);
    assert_eq!(mod_exp(5, 0, 1), 0);
    // squaring stays sound at word-size moduli
    assert_eq!(mod_exp(u64::MAX - 1, 2, u64::MAX), 1);
}

#[test]
fn test_gcd_binary_agreement() {
    let pairs: [(u64, u64); 6] = [
        (0, 0),
        (1, u64::MAX),
        (12, 18),
        (270, 192),
        (1 << 40, 3 << 20),
        (999999937, 999999893),
    ];
    for (a, b) in pairs {
        assert_eq!(gcd(a, b), bgcd(a, b));
    }
}

#[test]
fn test_bit_length() {
    assert_eq!(bit_length(0), 1);
    assert_eq!(bit_length(1), 1);
    assert_eq!(bit_length(2), 2);
    assert_eq!(bit_length(255), 8);
    assert_eq!(bit_length(256), 9);
    assert_eq!(bit_length(u64::MAX), 64);
}
