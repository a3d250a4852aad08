//! Probabilistic primality classification: the Fermat, Solovay–Strassen and
//! Miller–Rabin tests. Each test draws its witnesses uniformly at random
//! without replacement from `{2, ..., n-1}`; the classification of a number
//! against a given witness list is a pure, verified function, and only the
//! drawing of the witnesses is left to the random source.

use vstd::prelude::*;

use rand::seq::IteratorRandom;

verus! {

use vstd::arithmetic::div_mod::lemma_mod_multiples_basic;
use vstd::arithmetic::div_mod::lemma_mul_mod_noop_general;
use vstd::arithmetic::div_mod::lemma_small_mod;
use vstd::arithmetic::power::lemma_pow_multiplies;
use vstd::arithmetic::power::lemma_square_is_pow2;
use vstd::arithmetic::power::pow;
use vstd::arithmetic::power2::lemma2_to64;
use vstd::arithmetic::power2::lemma_pow2_adds;
use vstd::arithmetic::power2::pow2;
use crate::errors::MathError;
use crate::utils::jacobi;
use crate::utils::jacobi_sym;
use crate::utils::lemma_jacobi_sym_bounds;
use crate::utils::mod_exp;

/// The three-way primality verdict. `Prime` is only produced when the
/// requested number of witnesses reaches `n` itself, a deliberately weak
/// deterministic escalation.
#[derive(Clone, Copy, Debug, PartialEq, Eq, Structural)]
pub enum Primality {
    Prime,
    Composite,
    ProbablyPrime,
}

/// A Fermat rejection: the witness proves `n` composite because
/// `a^(n-1) mod n != 1`.
pub open spec fn fermat_rejects(a: nat, n: nat) -> bool {
    pow(a as int, (n - 1) as nat) % (n as int) != 1
}

/// A Solovay–Strassen rejection: the Jacobi symbol `(a / n)` is zero, or
/// `a^((n-1)/2) mod n` disagrees with the symbol (reading `-1` as `n - 1`).
pub open spec fn ss_rejects(a: nat, n: nat) -> bool {
    jacobi_sym(a, n) == 0 || pow(a as int, (n - 1) as nat / 2) % (n as int) != (if jacobi_sym(
        a,
        n,
    ) == 1 {
        1int
    } else {
        n - 1
    })
}

/// The odd part of `m`: what remains after stripping every factor of two.
pub open spec fn odd_part(m: nat) -> nat
    decreases m,
{
    if m == 0 {
        0
    } else if m % 2 == 1 {
        m
    } else {
        odd_part(m / 2)
    }
}

/// The number of factors of two in `m`.
pub open spec fn two_adic(m: nat) -> nat
    decreases m,
{
    if m == 0 {
        0
    } else if m % 2 == 1 {
        0
    } else {
        1 + two_adic(m / 2)
    }
}

/// The Miller–Rabin squaring chain: entry `j` is `a^(d * 2^j) mod n`.
pub open spec fn mr_chain(a: nat, d: nat, n: nat, j: nat) -> int {
    pow(a as int, d * pow2(j)) % (n as int)
}

/// A Miller–Rabin rejection, for odd `n` with `n - 1 == 2^s * d` and `d`
/// odd: the witness passes when `a^d mod n == 1` or when its squaring chain
/// `a^d, a^2d, a^4d, ...` reaches `n - 1` within its first `s` entries; it
/// rejects otherwise.
pub open spec fn mr_rejects(a: nat, n: nat) -> bool {
    &&& mr_chain(a, odd_part((n - 1) as nat), n, 0) != 1
    &&& forall|j: nat|
        j < two_adic((n - 1) as nat) ==> #[trigger] mr_chain(
            a,
            odd_part((n - 1) as nat),
            n,
            j,
        ) != n - 1
}

/// The split into odd part and two-adic valuation is unique: if
/// `m == 2^s * d` with `d` odd, then `d` and `s` are exactly `odd_part(m)`
/// and `two_adic(m)`.
proof fn lemma_pow2_split_unique(s: nat, d: nat)
    requires
        d % 2 == 1,
    ensures
        odd_part(pow2(s) * d) == d,
        two_adic(pow2(s) * d) == s,
    decreases s,
{
    lemma2_to64();
    if s == 0 {
        assert(pow2(0) * d == d);
    } else {
        lemma_pow2_adds(1, (s - 1) as nat);
        let half = pow2((s - 1) as nat) * d;
        assert(pow2(s) * d == 2 * half) by (nonlinear_arith)
            requires
                pow2(s) == 2 * pow2((s - 1) as nat),
                half == pow2((s - 1) as nat) * d,
        ;
        lemma_mod_multiples_basic(half as int, 2);
        assert((half as int) * 2 == 2 * (half as int));
        assert((pow2(s) * d) % 2 == 0);
        assert((2 * half) / 2 == half as int);
        lemma_pow2_split_unique((s - 1) as nat, d);
    }
}

/// Squaring advances the Miller–Rabin chain by one step.
proof fn lemma_mr_chain_square(a: nat, d: nat, n: nat, j: nat)
    requires
        n >= 1,
    ensures
        mr_chain(a, d, n, j + 1) == (mr_chain(a, d, n, j) * mr_chain(a, d, n, j)) % (n as int),
{
    lemma_pow2_adds(j, 1);
    lemma2_to64();
    let e = d * pow2(j);
    assert(d * pow2(j + 1) == e * 2) by (nonlinear_arith)
        requires
            pow2(j + 1) == pow2(j) * 2,
            e == d * pow2(j),
    ;
    lemma_pow_multiplies(a as int, e, 2);
    lemma_square_is_pow2(pow(a as int, e));
    assert(pow(a as int, e * 2) == pow(a as int, e) * pow(a as int, e));
    lemma_mul_mod_noop_general(pow(a as int, e), pow(a as int, e), n as int);
}

/// Once the chain value is 1 it stays 1 forever.
proof fn lemma_mr_chain_one_forever(a: nat, d: nat, n: nat, k: nat, t: nat)
    requires
        n >= 2,
        k <= t,
        mr_chain(a, d, n, k) == 1,
    ensures
        mr_chain(a, d, n, t) == 1,
    decreases t - k,
{
    if t > k {
        lemma_mr_chain_one_forever(a, d, n, k, (t - 1) as nat);
        lemma_mr_chain_square(a, d, n, (t - 1) as nat);
        lemma_small_mod(1, n);
    }
}

/// Fermat test against an explicit witness list: `Composite` exactly when
/// some listed witness `a` has `a^(n-1) mod n != 1`, else `ProbablyPrime`.
pub fn fermat_test_witnesses(n: u64, witnesses: &Vec<u64>) -> (r: Primality)
    requires
        n >= 2,
    ensures
        r == Primality::Composite || r == Primality::ProbablyPrime,
        r == Primality::Composite <==> exists|i: int|
            0 <= i < witnesses@.len() && fermat_rejects(#[trigger] witnesses@[i] as nat, n as nat),
{
    let mut i: usize = 0;
    while i < witnesses.len()
        invariant
            n >= 2,
            i <= witnesses@.len(),
            forall|j: int|
                0 <= j < i ==> !fermat_rejects(#[trigger] witnesses@[j] as nat, n as nat),
        decreases witnesses@.len() - i,
    {
        let a = witnesses[i];
        if mod_exp(a, n - 1, n) != 1 {
            proof {
                assert(fermat_rejects(witnesses@[i as int] as nat, n as nat));
            }
            return Primality::Composite;
        }
        i = i + 1;
    }
    Primality::ProbablyPrime
}

/// Solovay–Strassen test against an explicit witness list. An even `n` is
/// `Composite` outright; otherwise `Composite` exactly when some listed
/// witness has a zero Jacobi symbol or an Euler-criterion mismatch.
pub fn solovay_strassen_test_witnesses(n: u64, witnesses: &Vec<u64>) -> (r: Primality)
    requires
        n >= 2,
    ensures
        r == Primality::Composite || r == Primality::ProbablyPrime,
        r == Primality::Composite <==> (n % 2 == 0 || exists|i: int|
            0 <= i < witnesses@.len() && ss_rejects(#[trigger] witnesses@[i] as nat, n as nat)),
{
    if n % 2 == 0 {
        return Primality::Composite;
    }
    let mut i: usize = 0;
    while i < witnesses.len()
        invariant
            n >= 2,
            n % 2 == 1,
            i <= witnesses@.len(),
            forall|j: int| 0 <= j < i ==> !ss_rejects(#[trigger] witnesses@[j] as nat, n as nat),
        decreases witnesses@.len() - i,
    {
        let a = witnesses[i];
        let sym = match jacobi(a, n) {
            Ok(v) => v,
            Err(_) => {
                proof {
                    assert(false);
                }
                0
            },
        };
        proof {
            lemma_jacobi_sym_bounds(a as nat, n as nat);
        }
        let mapped: u64 = if sym == 0 {
            0
        } else if sym == 1 {
            1
        } else {
            n - 1
        };
        if mapped == 0 {
            proof {
                assert(ss_rejects(witnesses@[i as int] as nat, n as nat));
            }
            return Primality::Composite;
        } else if mod_exp(a, (n - 1) / 2, n) != mapped {
            proof {
                assert(ss_rejects(witnesses@[i as int] as nat, n as nat));
            }
            return Primality::Composite;
        }
        i = i + 1;
    }
    Primality::ProbablyPrime
}

/// Miller–Rabin test against an explicit witness list. An even `n` is
/// `Composite` outright. Writing `n - 1 = 2^s * d` with `d` odd, a witness
/// passes when `a^d mod n == 1` or when its squaring chain
/// `a^d, a^(2d), ...` reaches `n - 1` within `s` entries, and rejects
/// otherwise. When every witness passes, the verdict escalates from
/// `ProbablyPrime` to `Prime` only if `n_iter >= n`.
pub fn miller_rabin_test_witnesses(n: u64, witnesses: &Vec<u64>, n_iter: u64) -> (r: Primality)
    requires
        n >= 2,
    ensures
        r == Primality::Composite <==> (n % 2 == 0 || exists|i: int|
            0 <= i < witnesses@.len() && mr_rejects(#[trigger] witnesses@[i] as nat, n as nat)),
        r != Primality::Composite ==> (r == Primality::Prime <==> n_iter >= n),
{
    if n % 2 == 0 {
        return Primality::Composite;
    }
    let (d, s) = crate::utils::strip_twos(n - 1);
    proof {
        lemma_pow2_split_unique(s as nat, d as nat);
        assert(odd_part((n - 1) as nat) == d as nat);
        assert(two_adic((n - 1) as nat) == s as nat);
        lemma2_to64();
        if s == 0 {
            assert(pow2(0) * d as nat == d as nat);
            assert(false);
        }
    }
    let mut i: usize = 0;
    while i < witnesses.len()
        invariant
            n >= 3,
            n % 2 == 1,
            1 <= s < 64,
            d as nat == odd_part((n - 1) as nat),
            s as nat == two_adic((n - 1) as nat),
            i <= witnesses@.len(),
            forall|t: int|
                0 <= t < i ==> !mr_rejects(#[trigger] witnesses@[t] as nat, n as nat),
        decreases witnesses@.len() - i,
    {
        let a = witnesses[i];
        let mut b = mod_exp(a, d, n);
        proof {
            lemma2_to64();
            assert(pow2(0) == 1);
            assert(d as nat * pow2(0) == d as nat);
            assert(b as int == mr_chain(a as nat, d as nat, n as nat, 0));
        }
        if b == 1 {
            // a^d is congruent to 1, so the witness passes outright
            proof {
                assert(!mr_rejects(a as nat, n as nat));
                assert(witnesses@[i as int] as nat == a as nat);
            }
            i = i + 1;
            continue;
        }
        let mut j: u64 = 0;
        while j + 2 <= s && b != n - 1
            invariant
                n >= 3,
                n % 2 == 1,
                1 <= s < 64,
                d as nat == odd_part((n - 1) as nat),
                s as nat == two_adic((n - 1) as nat),
                i < witnesses@.len(),
                a == witnesses@[i as int],
                j <= s - 1,
                b < n,
                b as int == mr_chain(a as nat, d as nat, n as nat, j as nat),
                mr_chain(a as nat, d as nat, n as nat, 0) != 1,
                forall|t: nat| t < j ==> #[trigger] mr_chain(a as nat, d as nat, n as nat, t) != n - 1,
            decreases s - j,
        {
            let ghost bj = b as int;
            proof {
                vstd::arithmetic::mul::lemma_mul_upper_bound(
                    b as int,
                    u64::MAX as int,
                    b as int,
                    u64::MAX as int,
                );
                lemma_mr_chain_square(a as nat, d as nat, n as nat, j as nat);
            }
            let b2 = ((b as u128 * b as u128) % n as u128) as u64;
            proof {
                assert(b2 as int == mr_chain(a as nat, d as nat, n as nat, j as nat + 1));
            }
            if b2 == 1 {
                proof {
                    assert forall|t: nat|
                        t < two_adic((n - 1) as nat) implies #[trigger] mr_chain(
                        a as nat,
                        odd_part((n - 1) as nat),
                        n as nat,
                        t,
                    ) != n - 1 by {
                        if t < j as nat {
                        } else if t == j as nat {
                            assert(b != n - 1);
                        } else {
                            lemma_mr_chain_one_forever(
                                a as nat,
                                d as nat,
                                n as nat,
                                j as nat + 1,
                                t,
                            );
                        }
                    }
                    assert(mr_rejects(a as nat, n as nat));
                    assert(witnesses@[i as int] as nat == a as nat);
                }
                return Primality::Composite;
            }
            b = b2;
            j = j + 1;
        }
        if b != n - 1 {
            proof {
                assert(j == s - 1);
                assert forall|t: nat|
                    t < two_adic((n - 1) as nat) implies #[trigger] mr_chain(
                    a as nat,
                    odd_part((n - 1) as nat),
                    n as nat,
                    t,
                ) != n - 1 by {
                    if t == j as nat {
                        assert(b != n - 1);
                    }
                }
                assert(mr_rejects(a as nat, n as nat));
                assert(witnesses@[i as int] as nat == a as nat);
            }
            return Primality::Composite;
        }
        proof {
            assert(mr_chain(a as nat, d as nat, n as nat, j as nat) == n - 1);
            assert(j < s);
            assert(!mr_rejects(a as nat, n as nat));
            assert(witnesses@[i as int] as nat == a as nat);
        }
        i = i + 1;
    }
    if n_iter < n {
        Primality::ProbablyPrime
    } else {
        Primality::Prime
    }
}

/// Relies on rand's `IteratorRandom::sample` over the range `2..n`
/// (reservoir sampling): the result holds exactly `k` items when the range
/// offers at least `k`, every item comes from the range, and items occupy
/// pairwise distinct positions of a strictly increasing range, so they are
/// pairwise distinct.
#[verifier::external_body]
fn sample_witnesses(n: u64, k: usize) -> (r: Vec<u64>)
    requires
        k + 2 <= n,
    ensures
        r@.len() == k,
        forall|i: int| 0 <= i < r@.len() ==> 2 <= #[trigger] r@[i] < n,
        forall|i: int, j: int| 0 <= i < j < r@.len() ==> r@[i] != r@[j],
{
    let mut rng = rand::rng();
    (2..n).sample(&mut rng, k)
}

/// Fermat primality test with `n_iter` distinct witnesses drawn uniformly
/// at random without replacement from `{2, ..., n-1}`. Fails with
/// `InvalidArgument` exactly when that range cannot supply `n_iter`
/// witnesses. A `Composite` verdict always comes with a rejecting witness
/// in the range; a `ProbablyPrime` verdict always comes with `n_iter`
/// distinct in-range witnesses that all passed.
pub fn fermat_primality_test(n: u64, n_iter: usize) -> (r: Result<Primality, MathError>)
    ensures
        match r {
            Err(e) => e == MathError::InvalidArgument && n_iter + 2 > n,
            Ok(v) => {
                &&& n_iter + 2 <= n
                &&& (v == Primality::Composite || v == Primality::ProbablyPrime)
                &&& (v == Primality::Composite ==> exists|a: nat|
                    2 <= a < n && fermat_rejects(a, n as nat))
                &&& (v == Primality::ProbablyPrime ==> exists|ws: Seq<u64>|
                    {
                        &&& #[trigger] ws.len() == n_iter
                        &&& forall|i: int| 0 <= i < ws.len() ==> 2 <= #[trigger] ws[i] < n
                        &&& forall|i: int, j: int| 0 <= i < j < ws.len() ==> ws[i] != ws[j]
                        &&& forall|i: int|
                            0 <= i < ws.len() ==> !fermat_rejects(
                                #[trigger] ws[i] as nat,
                                n as nat,
                            )
                    })
            },
        },
{
    if n < 2 || n_iter as u64 > n - 2 {
        return Err(MathError::InvalidArgument);
    }
    let witnesses = sample_witnesses(n, n_iter);
    let v = fermat_test_witnesses(n, &witnesses);
    proof {
        if v == Primality::Composite {
            let i = choose|i: int|
                0 <= i < witnesses@.len() && fermat_rejects(
                    #[trigger] witnesses@[i] as nat,
                    n as nat,
                );
            assert(2 <= witnesses@[i] < n);
            assert(fermat_rejects(witnesses@[i] as nat, n as nat));
        } else {
            // every sampled witness passed
            assert forall|i: int|
                0 <= i < witnesses@.len() implies !fermat_rejects(
                #[trigger] witnesses@[i] as nat,
                n as nat,
            ) by {
                if fermat_rejects(witnesses@[i] as nat, n as nat) {
                    assert(false);
                }
            }
            assert(witnesses@.len() == n_iter);
        }
    }
    Ok(v)
}

/// Solovay–Strassen primality test with `n_iter` distinct random
/// witnesses. An even `n` is `Composite` outright, before any witness is
/// drawn; otherwise the verdicts come with witnesses as in
/// `fermat_primality_test`, over the Euler-criterion rejection.
pub fn solovay_strassen_primality_test(n: u64, n_iter: usize) -> (r: Result<
    Primality,
    MathError,
>)
    ensures
        match r {
            Err(e) => e == MathError::InvalidArgument && n_iter + 2 > n,
            Ok(v) => {
                &&& n_iter + 2 <= n
                &&& (v == Primality::Composite || v == Primality::ProbablyPrime)
                &&& (n % 2 == 0 ==> v == Primality::Composite)
                &&& (v == Primality::Composite ==> n % 2 == 0 || exists|a: nat|
                    2 <= a < n && ss_rejects(a, n as nat))
                &&& (v == Primality::ProbablyPrime ==> n % 2 == 1 && exists|ws: Seq<u64>|
                    {
                        &&& #[trigger] ws.len() == n_iter
                        &&& forall|i: int| 0 <= i < ws.len() ==> 2 <= #[trigger] ws[i] < n
                        &&& forall|i: int, j: int| 0 <= i < j < ws.len() ==> ws[i] != ws[j]
                        &&& forall|i: int|
                            0 <= i < ws.len() ==> !ss_rejects(#[trigger] ws[i] as nat, n as nat)
                    })
            },
        },
{
    if n < 2 || n_iter as u64 > n - 2 {
        return Err(MathError::InvalidArgument);
    }
    let witnesses = sample_witnesses(n, n_iter);
    let v = solovay_strassen_test_witnesses(n, &witnesses);
    proof {
        if v == Primality::Composite && n % 2 == 1 {
            let i = choose|i: int|
                0 <= i < witnesses@.len() && ss_rejects(
                    #[trigger] witnesses@[i] as nat,
                    n as nat,
                );
            assert(2 <= witnesses@[i] < n);
            assert(ss_rejects(witnesses@[i] as nat, n as nat));
        }
        if v != Primality::Composite {
            // every drawn witness passed, and n cannot be even
            assert forall|i: int|
                0 <= i < witnesses@.len() implies !ss_rejects(
                #[trigger] witnesses@[i] as nat,
                n as nat,
            ) by {
                if ss_rejects(witnesses@[i] as nat, n as nat) {
                    assert(false);
                }
            }
            assert(witnesses@.len() == n_iter);
        }
    }
    Ok(v)
}

/// Miller–Rabin primality test with `n_iter` distinct random witnesses. An
/// even `n` is `Composite` outright; otherwise the verdicts come with
/// witnesses as in `fermat_primality_test`, over the squaring-chain
/// rejection. The witness-range check caps `n_iter` at `n - 2`, so the
/// `Prime` escalation (which would need `n_iter >= n`) is never reached
/// from here.
pub fn miller_rabin_primality_test(n: u64, n_iter: u64) -> (r: Result<Primality, MathError>)
    ensures
        match r {
            Err(e) => e == MathError::InvalidArgument && n_iter + 2 > n,
            Ok(v) => {
                &&& n_iter + 2 <= n
                &&& (v == Primality::Composite || v == Primality::ProbablyPrime)
                &&& (n % 2 == 0 ==> v == Primality::Composite)
                &&& (v == Primality::Composite ==> n % 2 == 0 || exists|a: nat|
                    2 <= a < n && mr_rejects(a, n as nat))
                &&& (v == Primality::ProbablyPrime ==> n % 2 == 1 && exists|ws: Seq<u64>|
                    {
                        &&& #[trigger] ws.len() == n_iter as usize
                        &&& forall|i: int| 0 <= i < ws.len() ==> 2 <= #[trigger] ws[i] < n
                        &&& forall|i: int, j: int| 0 <= i < j < ws.len() ==> ws[i] != ws[j]
                        &&& forall|i: int|
                            0 <= i < ws.len() ==> !mr_rejects(#[trigger] ws[i] as nat, n as nat)
                    })
            },
        },
{
    if n < 2 || n_iter > n - 2 {
        return Err(MathError::InvalidArgument);
    }
    let witnesses = sample_witnesses(n, #[verifier::truncate] (n_iter as usize));
    let v = miller_rabin_test_witnesses(n, &witnesses, n_iter);
    proof {
        if v == Primality::Composite && n % 2 == 1 {
            let i = choose|i: int|
                0 <= i < witnesses@.len() && mr_rejects(
                    #[trigger] witnesses@[i] as nat,
                    n as nat,
                );
            assert(2 <= witnesses@[i] < n);
            assert(mr_rejects(witnesses@[i] as nat, n as nat));
        }
        if v != Primality::Composite {
            // every drawn witness passed, and n cannot be even
            assert forall|i: int|
                0 <= i < witnesses@.len() implies !mr_rejects(
                #[trigger] witnesses@[i] as nat,
                n as nat,
            ) by {
                if mr_rejects(witnesses@[i] as nat, n as nat) {
                    assert(false);
                }
            }
            assert(witnesses@.len() == n_iter as usize);
        }
    }
    Ok(v)
}

} // verus!
