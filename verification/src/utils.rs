//! Integer number-theoretic primitives: gcd by the Euclidean and binary
//! algorithms, modular exponentiation, the Jacobi symbol, and perfect-power
//! detection by integer root extraction.

use vstd::prelude::*;

verus! {

use vstd::arithmetic::div_mod::lemma_fundamental_div_mod;
use vstd::arithmetic::div_mod::lemma_mul_mod_noop_left;
use vstd::arithmetic::div_mod::lemma_small_mod;
use vstd::arithmetic::power::lemma_pow1;
use vstd::arithmetic::power::lemma_pow_increases;
use vstd::arithmetic::power::lemma_pow_adds;
use vstd::arithmetic::power::lemma_pow_mod_noop;
use vstd::arithmetic::power::lemma_pow_multiplies;
use vstd::arithmetic::power::lemma_square_is_pow2;
use vstd::arithmetic::power::pow;
use vstd::arithmetic::power2::lemma2_to64;
use vstd::arithmetic::power2::lemma2_to64_rest;
use vstd::arithmetic::power2::lemma_pow2_adds;
use vstd::arithmetic::power2::lemma_pow2_strictly_increases;
use vstd::arithmetic::power2::pow2;
use vstd::bits::lemma_u64_shl_is_mul;
use vstd::bits::lemma_u64_shr_is_div;
use crate::divisibility::gcd_nat;
use crate::errors::MathError;
use crate::divisibility::lemma_divides_le;
use crate::divisibility::lemma_gcd_divides;
use crate::divisibility::lemma_gcd_identities;
use crate::divisibility::lemma_gcd_pow2;
use crate::divisibility::lemma_gcd_sym;
use crate::divisibility::lemma_gcd_sub;

/// Greatest common divisor by the Euclidean algorithm.
pub fn gcd(a: u64, b: u64) -> (r: u64)
    ensures
        r as nat == gcd_nat(a as nat, b as nat),
{
    if a == 0 {
        proof {
            lemma_gcd_identities(b as nat);
        }
        return b;
    } else if b == 0 {
        return a;
    }
    let mut x = a;
    let mut y = b;
    while y != 0
        invariant
            gcd_nat(x as nat, y as nat) == gcd_nat(a as nat, b as nat),
        decreases y,
    {
        let t = y;
        y = x % y;
        x = t;
    }
    x
}

/// A power of two that fits under a `u64` bound has exponent below 64.
proof fn lemma_pow2_fits_u64(s: nat, v: nat)
    requires
        pow2(s) <= v,
        v <= u64::MAX,
    ensures
        s < 64,
{
    if s >= 64 {
        lemma2_to64_rest();
        if s > 64 {
            lemma_pow2_strictly_increases(64, s);
        }
        assert(false);
    }
}

/// Splits `v > 0` as `2^e * x` with `x` odd.
pub(crate) fn strip_twos(v: u64) -> (r: (u64, u64))
    requires
        v > 0,
    ensures
        r.0 % 2 == 1,
        r.0 > 0,
        r.1 < 64,
        pow2(r.1 as nat) * r.0 as nat == v as nat,
    decreases v,
{
    let mut x = v;
    let mut s: u64 = 0;
    proof {
        lemma2_to64();
        assert(pow2(0) * v as nat == v as nat);
    }
    while x & 1 == 0
        invariant
            x > 0,
            s < 64,
            pow2(s as nat) * x as nat == v as nat,
        decreases x,
    {
        proof {
            assert(x & 1 == x % 2) by (bit_vector);
            lemma_fundamental_div_mod(x as int, 2);
            lemma_u64_shr_is_div(x, 1);
            lemma2_to64();
            lemma_pow2_adds(s as nat, 1);
            assert(pow2((s + 1) as nat) * ((x as nat) / 2) == pow2(s as nat) * x as nat)
                by (nonlinear_arith)
                requires
                    pow2((s + 1) as nat) == pow2(s as nat) * 2,
                    x as int == 2 * (x as int / 2),
                    x > 0,
            ;
            assert(pow2((s + 1) as nat) <= pow2((s + 1) as nat) * ((x as nat) / 2))
                by (nonlinear_arith)
                requires
                    x as nat / 2 >= 1,
            ;
            lemma_pow2_fits_u64((s + 1) as nat, v as nat);
        }
        s = s + 1;
        x = x >> 1;
    }
    proof {
        assert(x & 1 == x % 2) by (bit_vector);
    }
    (x, s)
}

/// Greatest common divisor by Stein's binary algorithm: extract the common
/// power of two, then repeatedly subtract the smaller odd operand from the
/// larger and re-strip factors of two, until one operand reaches zero.
/// Produces exactly the same results as `gcd`.
pub fn bgcd(a: u64, b: u64) -> (r: u64)
    ensures
        r as nat == gcd_nat(a as nat, b as nat),
{
    if a == 0 {
        proof {
            lemma_gcd_identities(b as nat);
        }
        return b;
    } else if b == 0 {
        return a;
    }
    let (x0, s) = strip_twos(a);
    let (y0, t) = strip_twos(b);
    let shift = if s <= t {
        s
    } else {
        t
    };
    let mut x = x0;
    let mut y = y0;
    proof {
        lemma_gcd_pow2(s as nat, t as nat, x as nat, y as nat);
    }
    while y != 0
        invariant
            x % 2 == 1,
            x > 0,
            y == 0 || y % 2 == 1,
            shift < 64,
            a > 0,
            pow2(shift as nat) * gcd_nat(x as nat, y as nat) == gcd_nat(a as nat, b as nat),
        decreases x + y,
    {
        if x > y {
            let d = x - y;
            let (nx, _e) = strip_twos(d);
            proof {
                lemma_gcd_sub(x as nat, y as nat);
                lemma_gcd_pow2(_e as nat, 0, nx as nat, y as nat);
                lemma2_to64();
                assert(pow2(0) * y as nat == y as nat);
                assert(pow2(0) * gcd_nat(nx as nat, y as nat) == gcd_nat(nx as nat, y as nat));
                vstd::arithmetic::power2::lemma_pow2_pos(_e as nat);
                assert(nx <= pow2(_e as nat) * nx as nat) by (nonlinear_arith)
                    requires
                        nx >= 1,
                        pow2(_e as nat) >= 1,
                ;
            }
            x = nx;
        } else if x < y {
            let d = y - x;
            let (ny, _e) = strip_twos(d);
            proof {
                lemma_gcd_sub(y as nat, x as nat);
                lemma_gcd_sym(x as nat, y as nat);
                lemma_gcd_sym((y - x) as nat, x as nat);
                lemma_gcd_pow2(_e as nat, 0, ny as nat, x as nat);
                lemma_gcd_sym(ny as nat, x as nat);
                lemma2_to64();
                assert(pow2(0) * x as nat == x as nat);
                assert(pow2(0) * gcd_nat(ny as nat, x as nat) == gcd_nat(ny as nat, x as nat));
                vstd::arithmetic::power2::lemma_pow2_pos(_e as nat);
                assert(ny <= pow2(_e as nat) * ny as nat) by (nonlinear_arith)
                    requires
                        ny >= 1,
                        pow2(_e as nat) >= 1,
                ;
            }
            y = ny;
        } else {
            proof {
                lemma_gcd_identities(x as nat);
            }
            y = 0;
        }
    }
    proof {
        lemma_gcd_divides(a as nat, b as nat);
        assert(gcd_nat(x as nat, 0) == x as nat);
        vstd::arithmetic::power2::lemma_pow2_pos(shift as nat);
        assert(pow2(shift as nat) * x as nat >= 1) by (nonlinear_arith)
            requires
                pow2(shift as nat) >= 1,
                x >= 1,
        ;
        lemma_divides_le(gcd_nat(a as nat, b as nat) as int, a as int);
        assert(x as nat * pow2(shift as nat) == pow2(shift as nat) * x as nat)
            by (nonlinear_arith);
        lemma_u64_shl_is_mul(x, shift);
    }
    x << shift
}

/// Modular exponentiation by right-to-left binary exponentiation
/// ("square-and-multiply"): returns `base^exponent mod modulus`; in
/// particular a zero exponent yields `1 mod modulus`.
pub fn mod_exp(a: u64, n: u64, m: u64) -> (r: u64)
    requires
        m > 0,
    ensures
        r as int == pow(a as int, n as nat) % (m as int),
        r < m,
{
    let mut result: u64 = 1 % m;
    let mut base: u64 = a % m;
    let mut e: u64 = n;
    proof {
        lemma_pow_mod_noop(a as int, n as nat, m as int);
        lemma_mul_mod_noop_left(1int, pow(base as int, n as nat), m as int);
    }
    while e > 0
        invariant
            m > 0,
            result < m,
            base < m,
            (result as int * pow(base as int, e as nat)) % (m as int) == pow(a as int, n as nat)
                % (m as int),
        decreases e,
    {
        proof {
            assert(e & 1 == e % 2) by (bit_vector);
            lemma_u64_shr_is_div(e, 1);
            lemma2_to64();
            lemma_fundamental_div_mod(e as int, 2);
        }
        let ghost result0 = result as int;
        let ghost base0 = base as int;
        let ghost half = (e / 2) as nat;
        if e & 1 == 1 {
            proof {
                vstd::arithmetic::mul::lemma_mul_upper_bound(
                    result as int,
                    u64::MAX as int,
                    base as int,
                    u64::MAX as int,
                );
            }
            result = ((result as u128 * base as u128) % m as u128) as u64;
            proof {
                // result' == (result0 * base0) % m
                assert(result as int == (result0 * base0) % (m as int));
                // pow(base0, e) == base0 * pow(base0 * base0, e/2)
                lemma_pow_multiplies(base0, 2, half);
                lemma_square_is_pow2(base0);
                lemma_pow1(base0);
                lemma_pow_adds(base0, 1, (2 * half) as nat);
                assert(pow(base0, e as nat) == base0 * pow(base0 * base0, half));
                // fold the new result into the running congruence
                lemma_mul_mod_noop_left(
                    result0 * base0,
                    pow(base0 * base0, half),
                    m as int,
                );
                assert((result0 * base0) % (m as int) * pow(base0 * base0, half) == result as int
                    * pow(base0 * base0, half));
                assert(result0 * base0 * pow(base0 * base0, half) == result0 * pow(
                    base0,
                    e as nat,
                )) by (nonlinear_arith)
                    requires
                        pow(base0, e as nat) == base0 * pow(base0 * base0, half),
                ;
                assert((result as int * pow(base0 * base0, half)) % (m as int) == pow(
                    a as int,
                    n as nat,
                ) % (m as int));
            }
        } else {
            proof {
                lemma_pow_multiplies(base0, 2, half);
                lemma_square_is_pow2(base0);
                assert(pow(base0, e as nat) == pow(base0 * base0, half));
            }
        }
        proof {
            vstd::arithmetic::mul::lemma_mul_upper_bound(
                base as int,
                u64::MAX as int,
                base as int,
                u64::MAX as int,
            );
        }
        base = ((base as u128 * base as u128) % m as u128) as u64;
        proof {
            assert(base as int == (base0 * base0) % (m as int));
            lemma_pow_mod_noop(base0 * base0, half, m as int);
            // pow(base', e/2) % m == pow(base0^2, e/2) % m
            lemma_mul_mod_noop_left(
                pow(base as int, half),
                result as int,
                m as int,
            );
            // join: (result * pow(base', e/2)) % m unchanged
            assert((result as int * pow(base as int, half)) % (m as int) == (result as int * pow(
                base0 * base0,
                half,
            )) % (m as int)) by {
                assert(pow(base as int, half) % (m as int) == pow(base0 * base0, half) % (
                m as int));
                vstd::arithmetic::div_mod::lemma_mul_mod_noop_right(
                    result as int,
                    pow(base as int, half),
                    m as int,
                );
                vstd::arithmetic::div_mod::lemma_mul_mod_noop_right(
                    result as int,
                    pow(base0 * base0, half),
                    m as int,
                );
            }
        }
        e = e >> 1;
    }
    proof {
        vstd::arithmetic::power::lemma_pow0(base as int);
        lemma_small_mod(result as nat, m as nat);
    }
    result
}

/// The Jacobi symbol `(a / n)` for odd `n >= 1`, by its standard recurrence:
/// reduce `a` modulo `n`; strip factors of two from `a`, each contributing
/// `-1` exactly when `n mod 8` is 3 or 5; swap by quadratic reciprocity,
/// contributing `-1` exactly when both arguments are 3 modulo 4; the symbol
/// is 1 on `(0, 1)` and 0 on `(0, n)` for `n > 1`.
pub open spec fn jacobi_sym(a: nat, n: nat) -> int
    decreases a,
{
    if n == 0 {
        0
    } else if a == 0 {
        if n == 1 {
            1
        } else {
            0
        }
    } else if a >= n {
        jacobi_sym(a % n, n)
    } else if a % 2 == 0 {
        (if n % 8 == 3 || n % 8 == 5 {
            -1
        } else {
            1
        }) * jacobi_sym(a / 2, n)
    } else {
        (if a % 4 == 3 && n % 4 == 3 {
            -1
        } else {
            1
        }) * jacobi_sym(n % a, a)
    }
}

/// Multiplying by a sign: `1 * j == j` and `-1 * j == -j`, and folding a
/// sign into a running sign accumulator reassociates.
proof fn lemma_sign_fold(t0: int, s: int, j: int)
    requires
        t0 == 1 || t0 == -1,
        s == 1 || s == -1,
    ensures
        s * j == (if s == 1 {
            j
        } else {
            -j
        }),
        t0 * (s * j) == (if s == 1 {
            t0
        } else {
            -t0
        }) * j,
{
    assert(1int * j == j) by (nonlinear_arith);
    assert((-1int) * j == -j) by (nonlinear_arith);
    assert(t0 * (s * j) == (t0 * s) * j) by (nonlinear_arith);
    assert(t0 * s == (if s == 1 {
        t0
    } else {
        -t0
    })) by (nonlinear_arith)
        requires
            t0 == 1 || t0 == -1,
            s == 1 || s == -1,
    ;
}

/// The Jacobi symbol only takes the values -1, 0 and 1.
pub proof fn lemma_jacobi_sym_bounds(a: nat, n: nat)
    ensures
        -1 <= jacobi_sym(a, n) <= 1,
    decreases a,
{
    if n == 0 {
    } else if a == 0 {
    } else if a >= n {
        lemma_jacobi_sym_bounds(a % n, n);
    } else if a % 2 == 0 {
        lemma_jacobi_sym_bounds(a / 2, n);
        assert(1int * jacobi_sym(a / 2, n) == jacobi_sym(a / 2, n)) by (nonlinear_arith);
        assert((-1int) * jacobi_sym(a / 2, n) == -jacobi_sym(a / 2, n)) by (nonlinear_arith);
    } else {
        lemma_jacobi_sym_bounds(n % a, a);
        assert(1int * jacobi_sym(n % a, a) == jacobi_sym(n % a, a)) by (nonlinear_arith);
        assert((-1int) * jacobi_sym(n % a, a) == -jacobi_sym(n % a, a)) by (nonlinear_arith);
    }
}

/// The Jacobi symbol `(a / n)`. Fails with `InvalidArgument` exactly when
/// the modulus `n` is even: the symbol is not defined there.
pub fn jacobi(a: u64, n: u64) -> (r: Result<i8, MathError>)
    ensures
        match r {
            Ok(v) => n % 2 == 1 && v as int == jacobi_sym(a as nat, n as nat),
            Err(e) => n % 2 == 0 && e == MathError::InvalidArgument,
        },
{
    if n % 2 == 0 {
        return Err(MathError::InvalidArgument);
    }
    let mut x = a % n;
    let mut m = n;
    let mut t: i8 = 1;
    proof {
        if a < n {
            lemma_small_mod(a as nat, n as nat);
        }
    }
    while x > 0
        invariant
            m % 2 == 1,
            m >= 1,
            x < m,
            t == 1 || t == -1,
            (t as int) * jacobi_sym(x as nat, m as nat) == jacobi_sym(a as nat, n as nat),
        decreases x,
    {
        let ghost x_entry = x;
        while x % 2 == 0
            invariant
                m % 2 == 1,
                1 <= x <= x_entry,
                x < m,
                t == 1 || t == -1,
                (t as int) * jacobi_sym(x as nat, m as nat) == jacobi_sym(a as nat, n as nat),
            decreases x,
        {
            let ghost x0 = x as nat;
            let ghost t0 = t as int;
            x = x >> 1;
            let r8 = m % 8;
            if r8 == 3 || r8 == 5 {
                t = -t;
            }
            proof {
                assert(x as nat == x0 / 2) by {
                    lemma_u64_shr_is_div((x0) as u64, 1);
                    lemma2_to64();
                }
                let s8: int = if m as nat % 8 == 3 || m as nat % 8 == 5 {
                    -1int
                } else {
                    1int
                };
                assert(jacobi_sym(x0, m as nat) == s8 * jacobi_sym(x0 / 2, m as nat));
                lemma_sign_fold(t0, s8, jacobi_sym(x0 / 2, m as nat));
            }
        }
        // x is odd here; swap the arguments and reduce, flipping the sign
        // when both are 3 modulo 4.
        let ghost xs = x as nat;
        let ghost ms = m as nat;
        let ghost ts = t as int;
        proof {
            let s4: int = if xs % 4 == 3 && ms % 4 == 3 {
                -1int
            } else {
                1int
            };
            assert(jacobi_sym(xs, ms) == s4 * jacobi_sym(ms % xs, xs));
            lemma_sign_fold(ts, s4, jacobi_sym(ms % xs, xs));
        }
        let r = m;
        m = x;
        x = r;
        if x % 4 == 3 && m % 4 == 3 {
            t = -t;
        }
        x = x % m;
    }
    if m == 1 {
        Ok(t)
    } else {
        Ok(0)
    }
}

/// The number of binary digits of `n`, with both 0 and 1 having one digit.
pub open spec fn spec_bit_length(n: nat) -> nat
    decreases n,
{
    if n <= 1 {
        1
    } else {
        1 + spec_bit_length(n / 2)
    }
}

/// The bit length is pinned down by its power-of-two bracket.
proof fn lemma_bit_length_unique(n: nat, t: nat)
    requires
        t >= 1,
        n < pow2(t),
        t == 1 || pow2((t - 1) as nat) <= n,
    ensures
        t == spec_bit_length(n),
    decreases n,
{
    lemma2_to64();
    if n <= 1 {
        if t >= 2 {
            if t - 1 > 1 {
                lemma_pow2_strictly_increases(1, (t - 1) as nat);
            }
            assert(false);
        }
    } else {
        if t == 1 {
            assert(false);
        }
        lemma_pow2_adds((t - 1) as nat, 1);
        if t >= 3 {
            lemma_pow2_adds((t - 2) as nat, 1);
        }
        lemma_bit_length_unique(n / 2, (t - 1) as nat);
    }
}

/// The smallest `t >= 1` with `n >> t == 0`, scanning upward from 1.
pub fn bit_length(n: u64) -> (r: u64)
    ensures
        r as nat == spec_bit_length(n as nat),
        1 <= r <= 64,
{
    let mut t: u64 = 1;
    while t < 64 && (n >> t) != 0
        invariant
            1 <= t <= 64,
            t == 1 || pow2((t - 1) as nat) <= n as nat,
        decreases 64 - t,
    {
        proof {
            lemma_u64_shr_is_div(n, t);
            vstd::arithmetic::power2::lemma_pow2_pos(t as nat);
            lemma_fundamental_div_mod(n as int, pow2(t as nat) as int);
            assert(n as int >= 1 * (pow2(t as nat) as int)) by (nonlinear_arith)
                requires
                    n as int == (n as int / pow2(t as nat) as int) * (pow2(t as nat) as int) + (
                    n as int % pow2(t as nat) as int),
                    n as int / pow2(t as nat) as int >= 1,
                    n as int % pow2(t as nat) as int >= 0,
                    pow2(t as nat) as int > 0,
            ;
        }
        t = t + 1;
    }
    proof {
        if t == 64 {
            lemma2_to64_rest();
        } else {
            lemma_u64_shr_is_div(n, t);
            vstd::arithmetic::power2::lemma_pow2_pos(t as nat);
            vstd::arithmetic::div_mod::lemma_small_div_converse(
                n as int,
                pow2(t as nat) as int,
            );
        }
        lemma_bit_length_unique(n as nat, t as nat);
    }
    t
}

/// The outcome of a perfect-power query: either a decomposition
/// `base^exponent == n` with `base >= 2` and `exponent >= 2`, or the verdict
/// that none exists.
#[derive(Debug)]
pub enum PerfectPower<T, U> {
    NotPerfectPower,
    Decomp(T, U),
}

/// The bit length brackets its argument between powers of two.
proof fn lemma_spec_bit_length_bounds(n: nat)
    ensures
        spec_bit_length(n) >= 1,
        n < pow2(spec_bit_length(n)),
        n >= 2 ==> pow2((spec_bit_length(n) - 1) as nat) <= n,
    decreases n,
{
    lemma2_to64();
    if n <= 1 {
    } else {
        lemma_spec_bit_length_bounds(n / 2);
        let blh = spec_bit_length(n / 2);
        lemma_pow2_adds(blh, 1);
        if n / 2 >= 2 {
            lemma_pow2_adds((blh - 1) as nat, 1);
        }
    }
}

/// Exponentiation is monotone in a non-negative base.
proof fn lemma_pow_base_monotone(b1: int, b2: int, e: nat)
    ensures
        0 <= b1 <= b2 ==> pow(b1, e) <= pow(b2, e),
    decreases e,
{
    reveal(pow);
    if 0 <= b1 <= b2 && e > 0 {
        lemma_pow_base_monotone(b1, b2, (e - 1) as nat);
        if b1 == 0 {
            vstd::arithmetic::power::lemma0_pow(e);
            if b2 == 0 {
                vstd::arithmetic::power::lemma0_pow(e);
            } else {
                vstd::arithmetic::power::lemma_pow_positive(b2, e);
            }
        } else {
            vstd::arithmetic::power::lemma_pow_positive(b1, (e - 1) as nat);
            assert(b1 * pow(b1, (e - 1) as nat) <= b2 * pow(b2, (e - 1) as nat))
                by (nonlinear_arith)
                requires
                    0 < b1 <= b2,
                    0 < pow(b1, (e - 1) as nat) <= pow(b2, (e - 1) as nat),
            ;
        }
    }
}

/// Computes `b^k` as long as it stays within `cap`; reports only that the
/// power exceeds the cap otherwise.
fn pow_capped(b: u64, k: u64, cap: u64) -> (r: Option<u64>)
    requires
        b >= 1,
        cap >= 1,
    ensures
        match r {
            Some(v) => v as int == pow(b as int, k as nat) && v <= cap,
            None => pow(b as int, k as nat) > cap,
        },
{
    let mut acc: u64 = 1;
    let mut i: u64 = 0;
    proof {
        vstd::arithmetic::power::lemma_pow0(b as int);
    }
    while i < k
        invariant
            b >= 1,
            cap >= 1,
            i <= k,
            acc as int == pow(b as int, i as nat),
            acc <= cap,
        decreases k - i,
    {
        let ghost acc0 = acc as int;
        proof {
            // pow(b, i+1) == acc * b
            lemma_pow1(b as int);
            lemma_pow_adds(b as int, i as nat, 1);
            assert(pow(b as int, (i + 1) as nat) == acc0 * (b as int));
            lemma_pow_increases(b as nat, (i + 1) as nat, k as nat);
        }
        match acc.checked_mul(b) {
            Some(v) => {
                if v > cap {
                    return None;
                }
                acc = v;
            },
            None => {
                return None;
            },
        }
        i = i + 1;
    }
    Some(acc)
}

/// Tests whether `n` is an exact `power`-th power by bracketing the integer
/// root with a binary search seeded from the bit length, then checking the
/// candidate root exactly. Fails with `InvalidArgument` unless `n > 1` and
/// `power > 1`.
pub fn is_perfect_kth_power(n: u64, power: u64) -> (r: Result<PerfectPower<u64, u64>, MathError>)
    ensures
        match r {
            Err(e) => (n <= 1 || power <= 1) && e == MathError::InvalidArgument,
            Ok(pp) => n > 1 && power > 1 && match pp {
                PerfectPower::Decomp(base, p) => p == power && base >= 2 && pow(
                    base as int,
                    power as nat,
                ) == n as int,
                PerfectPower::NotPerfectPower => forall|b: int|
                    b >= 0 ==> pow(b, power as nat) != n as int,
            },
        },
{
    if n <= 1 || power <= 1 {
        return Err(MathError::InvalidArgument);
    }
    let bl = bit_length(n);
    proof {
        lemma_spec_bit_length_bounds(n as nat);
        lemma2_to64();
        if spec_bit_length(n as nat) < 2 {
            assert(false);
        }
    }
    // e == ceil(bl / power), so that 2^e is a strict upper bound on the root.
    let e: u64 = if power >= 64 {
        1
    } else {
        (bl + power - 1) / power
    };
    proof {
        if power < 64 {
            lemma_fundamental_div_mod((bl + power - 1) as int, power as int);
            vstd::arithmetic::div_mod::lemma_div_non_zero(
                (bl + power - 1) as int,
                power as int,
            );
            vstd::arithmetic::div_mod::lemma_div_is_ordered(
                (bl + power - 1) as int,
                (63 + power) as int,
                power as int,
            );
            vstd::arithmetic::div_mod::lemma_hoist_over_denominator(63, 1, power as nat);
            vstd::arithmetic::div_mod::lemma_div_is_ordered_by_denominator(63, 2, power as int);
        }
        assert(e >= 1);
        assert(e <= 63);
        assert(e as int * power as int >= bl as int) by (nonlinear_arith)
            requires
                power >= 2,
                bl >= 2,
                e >= 1,
                power >= 64 ==> e == 1,
                power < 64 ==> (bl + power - 1) as int == (power as int) * (e as int) + ((bl
                    + power - 1) as int % (power as int)),
                power < 64 ==> 0 <= (bl + power - 1) as int % (power as int) < power as int,
                bl <= 64,
        ;
    }
    let hi: u64 = 1u64 << e;
    proof {
        vstd::bits::lemma_u64_pow2_no_overflow(e as nat);
        lemma_u64_shl_is_mul(1u64, e);
        // n < 2^bl <= 2^(e*power) == (2^e)^power == hi^power
        vstd::arithmetic::power2::lemma_pow2(e as nat);
        vstd::arithmetic::power2::lemma_pow2((e as nat) * (power as nat));
        vstd::arithmetic::power2::lemma_pow2(spec_bit_length(n as nat));
        if (spec_bit_length(n as nat)) < (e as nat) * (power as nat) {
            lemma_pow2_strictly_increases(
                spec_bit_length(n as nat),
                (e as nat) * (power as nat),
            );
        }
        lemma_pow_multiplies(2, e as nat, power as nat);
        assert(pow(hi as int, power as nat) > n as int);
        lemma2_to64();
        if e > 1 {
            lemma_pow2_strictly_increases(1, e as nat);
        }
        assert(hi >= 2);
        vstd::arithmetic::power::lemma1_pow(power as nat);
        assert(pow(1int, power as nat) == 1);
    }
    let mut lo: u64 = 1;
    let mut hi_v: u64 = hi;
    while hi_v - lo > 1
        invariant
            1 <= lo < hi_v,
            n > 1,
            power > 1,
            pow(lo as int, power as nat) <= n as int,
            pow(hi_v as int, power as nat) > n as int,
        decreases hi_v - lo,
    {
        let mid = lo + (hi_v - lo) / 2;
        match pow_capped(mid, power, n) {
            Some(_v) => {
                lo = mid;
            },
            None => {
                hi_v = mid;
            },
        }
    }
    match pow_capped(lo, power, n) {
        Some(v) => {
            if v == n {
                proof {
                    vstd::arithmetic::power::lemma1_pow(power as nat);
                    if lo == 1 {
                        assert(false);
                    }
                }
                return Ok(PerfectPower::Decomp(lo, power));
            }
        },
        None => {
        },
    }
    proof {
        assert forall|b: int| b >= 0 implies pow(b, power as nat) != n as int by {
            if b <= lo {
                lemma_pow_base_monotone(b, lo as int, power as nat);
            } else {
                lemma_pow_base_monotone(hi_v as int, b, power as nat);
            }
        }
    }
    Ok(PerfectPower::NotPerfectPower)
}

/// Scans every exponent from 2 up to the bit length of `n` and returns the
/// decomposition with the smallest exponent, or the verdict that `n` is not
/// a perfect power.
pub fn is_perfect_power(n: u64) -> (r: PerfectPower<u64, u64>)
    ensures
        match r {
            PerfectPower::Decomp(base, k) => 2 <= k && base >= 2 && pow(base as int, k as nat)
                == n as int && forall|j: nat, c: int|
                2 <= j < k && c >= 0 ==> pow(c, j) != n as int,
            PerfectPower::NotPerfectPower => forall|j: nat, c: int|
                j >= 2 && c >= 2 ==> pow(c, j) != n as int,
        },
{
    let bl = bit_length(n);
    proof {
        lemma_spec_bit_length_bounds(n as nat);
    }
    let mut k: u64 = 2;
    while k < bl + 1
        invariant
            2 <= k <= bl + 1,
            bl == spec_bit_length(n as nat),
            bl < 66,
            forall|j: nat, c: int| 2 <= j < k && c >= 0 ==> pow(c, j) != n as int,
        decreases bl + 1 - k,
    {
        proof {
            lemma_spec_bit_length_bounds(n as nat);
            lemma2_to64();
            if n <= 1 {
                assert(spec_bit_length(n as nat) == 1);
                assert(false);
            }
        }
        let step = is_perfect_kth_power(n, k);
        match step {
            Ok(PerfectPower::Decomp(base, p)) => {
                return PerfectPower::Decomp(base, p);
            },
            Ok(PerfectPower::NotPerfectPower) => {
                proof {
                    assert forall|j: nat, c: int|
                        2 <= j < k + 1 && c >= 0 implies pow(c, j) != n as int by {
                        if j == k as nat {
                            assert(pow(c, k as nat) != n as int);
                        }
                    }
                }
            },
            Err(_) => {
                proof {
                    assert(false);
                }
                return PerfectPower::NotPerfectPower;
            },
        }
        k = k + 1;
    }
    proof {
        lemma2_to64();
        assert forall|j: nat, c: int| j >= 2 && c >= 2 implies pow(c, j) != n as int by {
            if pow(c, j) == n as int {
                lemma_pow_base_monotone(2, c, j);
                vstd::arithmetic::power2::lemma_pow2(j);
                assert(pow(2int, j) <= n as int);
                if n <= 1 {
                    vstd::arithmetic::power::lemma_pow_increases(2, 2, j);
                    assert(pow(2int, 2) == 4) by {
                        lemma_square_is_pow2(2);
                    }
                    assert(false);
                } else {
                    // pow2(j) <= n < pow2(bl), so j < bl and the loop covered j.
                    if j >= spec_bit_length(n as nat) {
                        if j > spec_bit_length(n as nat) {
                            lemma_pow2_strictly_increases(spec_bit_length(n as nat), j);
                        }
                        assert(false);
                    }
                    assert(2 <= j < k);
                    assert(false);
                }
            }
        }
    }
    PerfectPower::NotPerfectPower
}

} // verus!
