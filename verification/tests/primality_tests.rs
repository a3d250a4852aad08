use exact_arith::errors::MathError;
use exact_arith::primality::{fermat_primality_test, fermat_test_witnesses,
    miller_rabin_primality_test, miller_rabin_test_witnesses, solovay_strassen_primality_test,
    solovay_strassen_test_witnesses, Primality};

#[test]
fn test_agreement_on_composites() {
    // all three tests agree on these composites: every witness listed
    // rejects, whichever test examines it
    let nine_witnesses: Vec<u64> = vec![2, 3, 4, 5, 6, 7];
    assert_eq!(
        fermat_test_witnesses(9, &nine_witnesses),
        Primality::Composite
    );
    assert_eq!(
        solovay_strassen_test_witnesses(9, &nine_witnesses),
        Primality::Composite
    );
    assert_eq!(
        miller_rabin_test_witnesses(9, &nine_witnesses, 6),
        Primality::Composite
    );
    let fifteen_witnesses: Vec<u64> = vec![2, 3, 4, 5, 6, 7, 8, 9, 10, 11, 12, 13];
    assert_eq!(
        fermat_test_witnesses(15, &fifteen_witnesses),
        Primality::Composite
    );
    assert_eq!(
        solovay_strassen_test_witnesses(15, &fifteen_witnesses),
        Primality::Composite
    );
    assert_eq!(
        miller_rabin_test_witnesses(15, &fifteen_witnesses, 12),
        Primality::Composite
    );
    // an even number is rejected outright by the two tests that check
    // parity, and by Fermat through its witnesses
    assert_eq!(
        solovay_strassen_test_witnesses(100, &vec![]),
        Primality::Composite
    );
    assert_eq!(
        miller_rabin_test_witnesses(100, &vec![], 0),
        Primality::Composite
    );
    assert_eq!(fermat_test_witnesses(100, &vec![3]), Primality::Composite);
}

#[test]
fn test_agreement_on_primes() {
    // every witness in {2, ..., n-1} passes all three tests for these
    // primes; the sets include witnesses with a^d congruent to 1 (2 and 4
    // for n = 7, 3 for n = 13), which Miller-Rabin must accept
    let seven_witnesses: Vec<u64> = vec![2, 3, 4, 5, 6];
    assert_eq!(
        fermat_test_witnesses(7, &seven_witnesses),
        Primality::ProbablyPrime
    );
    assert_eq!(
        solovay_strassen_test_witnesses(7, &seven_witnesses),
        Primality::ProbablyPrime
    );
    assert_eq!(
        miller_rabin_test_witnesses(7, &seven_witnesses, 5),
        Primality::ProbablyPrime
    );
    let thirteen_witnesses: Vec<u64> = vec![2, 3, 4, 5, 6, 7, 8, 9, 10, 11, 12];
    assert_eq!(
        fermat_test_witnesses(13, &thirteen_witnesses),
        Primality::ProbablyPrime
    );
    assert_eq!(
        solovay_strassen_test_witnesses(13, &thirteen_witnesses),
        Primality::ProbablyPrime
    );
    assert_eq!(
        miller_rabin_test_witnesses(13, &thirteen_witnesses, 11),
        Primality::ProbablyPrime
    );
}

#[test]
fn test_miller_rabin_accepts_unit_power_witness() {
    // 2^3 mod 7 == 1 and 3^3 mod 13 == 1: such witnesses pass
    assert_eq!(
        miller_rabin_test_witnesses(7, &vec![2], 1),
        Primality::ProbablyPrime
    );
    assert_eq!(
        miller_rabin_test_witnesses(13, &vec![3], 1),
        Primality::ProbablyPrime
    );
    // the same witnesses pass the Fermat test, so the tests agree
    assert_eq!(fermat_test_witnesses(7, &vec![2]), Primality::ProbablyPrime);
    assert_eq!(
        fermat_test_witnesses(13, &vec![3]),
        Primality::ProbablyPrime
    );
}

#[test]
fn test_miller_rabin_prime_escalation() {
    // asking for at least n witnesses escalates a clean verdict to Prime
    assert_eq!(
        miller_rabin_test_witnesses(3, &vec![2], 3),
        Primality::Prime
    );
    assert_eq!(
        miller_rabin_test_witnesses(3, &vec![2], 2),
        Primality::ProbablyPrime
    );
}

#[test]
fn test_randomized_tests_on_full_range() {
    // with the whole range {2, ..., n-1} sampled, the verdicts are
    // deterministic whatever the random order
    assert_eq!(fermat_primality_test(9, 7), Ok(Primality::Composite));
    assert_eq!(
        solovay_strassen_primality_test(9, 7),
        Ok(Primality::Composite)
    );
    assert_eq!(miller_rabin_primality_test(9, 7), Ok(Primality::Composite));
    // a prime passes all three tests with any witness
    assert_eq!(fermat_primality_test(7, 5), Ok(Primality::ProbablyPrime));
    assert_eq!(
        solovay_strassen_primality_test(13, 11),
        Ok(Primality::ProbablyPrime)
    );
    assert_eq!(
        miller_rabin_primality_test(13, 11),
        Ok(Primality::ProbablyPrime)
    );
}

#[test]
fn test_randomized_tests_reject_oversized_iteration_counts() {
    assert_eq!(
        fermat_primality_test(5, 10),
        Err(MathError::InvalidArgument)
    );
    assert_eq!(
        solovay_strassen_primality_test(5, 4),
        Err(MathError::InvalidArgument)
    );
    assert_eq!(
        miller_rabin_primality_test(5, 4),
        Err(MathError::InvalidArgument)
    );
    assert_eq!(fermat_primality_test(0, 0), Err(MathError::InvalidArgument));
    assert_eq!(fermat_primality_test(1, 0), Err(MathError::InvalidArgument));
    // the largest admissible count is n - 2
    assert_eq!(fermat_primality_test(5, 3), Ok(Primality::ProbablyPrime));
}
