//! Divisibility and greatest-common-divisor theory: the `gcd_nat` spec
//! function, its characterisation as the greatest common divisor, and the
//! transformation lemmas (symmetry, subtraction, factors of two) that justify
//! both the Euclidean and the binary gcd algorithms.

use vstd::prelude::*;

verus! {

use vstd::arithmetic::div_mod::lemma_fundamental_div_mod;
use vstd::arithmetic::div_mod::lemma_mod_self_0;
use vstd::arithmetic::div_mod::lemma_mod_multiples_basic;
use vstd::arithmetic::div_mod::lemma_mod_multiples_vanish;
use vstd::arithmetic::div_mod::lemma_small_mod;
use vstd::arithmetic::mul::lemma_mul_inequality;
use vstd::arithmetic::power2::lemma2_to64;
use vstd::arithmetic::power2::lemma_pow2_adds;
use vstd::arithmetic::power2::pow2;

/// `d` divides `n`.
pub open spec fn divides(d: int, n: int) -> bool {
    exists|k: int| n == #[trigger] (d * k)
}

/// The greatest common divisor of two naturals, by the Euclidean recursion.
/// `gcd_nat(a, 0) == a`, so `gcd_nat(0, 0) == 0`.
pub open spec fn gcd_nat(a: nat, b: nat) -> nat
    decreases b,
{
    if b == 0 {
        a
    } else {
        gcd_nat(b, a % b)
    }
}

pub proof fn lemma_divides_refl(n: int)
    ensures
        divides(n, n),
{
    assert(n == n * 1);
}

pub proof fn lemma_divides_zero(d: int)
    ensures
        divides(d, 0),
{
    assert(0int == d * 0);
}

/// Divisibility is preserved by linear combinations: if `d` divides `x` and
/// `y`, it divides `c*x + y`.
pub proof fn lemma_divides_linear(d: int, x: int, y: int, c: int)
    requires
        divides(d, x),
        divides(d, y),
    ensures
        divides(d, c * x + y),
{
    let k1 = choose|k: int| x == #[trigger] (d * k);
    let k2 = choose|k: int| y == #[trigger] (d * k);
    assert(c * x + y == d * (c * k1 + k2)) by (nonlinear_arith)
        requires
            x == d * k1,
            y == d * k2,
    ;
}

/// A positive divisor of a positive number is no larger than it.
pub proof fn lemma_divides_le(d: int, n: int)
    requires
        divides(d, n),
        d > 0,
        n > 0,
    ensures
        d <= n,
{
    let k = choose|k: int| n == #[trigger] (d * k);
    assert(k >= 1) by (nonlinear_arith)
        requires
            n == d * k,
            d > 0,
            n > 0,
    ;
    lemma_mul_inequality(1, k, d);
}

/// Two naturals that divide each other are equal.
pub proof fn lemma_divides_antisym(x: nat, y: nat)
    requires
        divides(x as int, y as int),
        divides(y as int, x as int),
    ensures
        x == y,
{
    if x == 0 {
        let k = choose|k: int| y as int == #[trigger] (x as int * k);
        assert(y as int == 0 * k);
        assert(0 * k == 0) by (nonlinear_arith);
    } else if y == 0 {
        let k = choose|k: int| x as int == #[trigger] (y as int * k);
        assert(x as int == 0 * k);
        assert(0 * k == 0) by (nonlinear_arith);
    } else {
        lemma_divides_le(x as int, y as int);
        lemma_divides_le(y as int, x as int);
    }
}

/// `gcd_nat(a, b)` divides both `a` and `b`.
pub proof fn lemma_gcd_divides(a: nat, b: nat)
    ensures
        divides(gcd_nat(a, b) as int, a as int),
        divides(gcd_nat(a, b) as int, b as int),
    decreases b,
{
    if b == 0 {
        lemma_divides_refl(a as int);
        lemma_divides_zero(a as int);
    } else {
        lemma_gcd_divides(b, a % b);
        let g = gcd_nat(b, a % b) as int;
        lemma_fundamental_div_mod(a as int, b as int);
        assert(a as int == (a as int / b as int) * (b as int) + (a % b) as int);
        lemma_divides_linear(g, b as int, (a % b) as int, a as int / b as int);
    }
}

/// Every common divisor of `a` and `b` divides `gcd_nat(a, b)`.
pub proof fn lemma_gcd_greatest(a: nat, b: nat, d: int)
    requires
        divides(d, a as int),
        divides(d, b as int),
    ensures
        divides(d, gcd_nat(a, b) as int),
    decreases b,
{
    if b == 0 {
    } else {
        lemma_fundamental_div_mod(a as int, b as int);
        let q = a as int / b as int;
        assert((-q) * (b as int) == -(q * (b as int))) by (nonlinear_arith);
        assert((a % b) as int == (-q) * (b as int) + a as int);
        lemma_divides_linear(d, b as int, a as int, -q);
        lemma_gcd_greatest(b, a % b, d);
    }
}

/// The two facts above pin `gcd_nat` down: anything that divides both
/// arguments and is divisible by every common divisor is the gcd.
pub proof fn lemma_gcd_unique(a: nat, b: nat, g: nat)
    requires
        divides(g as int, a as int),
        divides(g as int, b as int),
        forall|d: int| divides(d, a as int) && divides(d, b as int) ==> divides(d, g as int),
    ensures
        g == gcd_nat(a, b),
{
    lemma_gcd_divides(a, b);
    lemma_gcd_greatest(a, b, g as int);
    assert(divides(gcd_nat(a, b) as int, g as int));
    lemma_divides_antisym(g, gcd_nat(a, b));
}

/// The boundary identities of the gcd: `gcd(a, a) == gcd(a, 0) == gcd(0, a) == a`.
pub proof fn lemma_gcd_identities(a: nat)
    ensures
        gcd_nat(a, a) == a,
        gcd_nat(a, 0) == a,
        gcd_nat(0, a) == a,
{
    if a > 0 {
        lemma_mod_self_0(a as int);
        assert(gcd_nat(a, a) == gcd_nat(a, 0));
        lemma_small_mod(0, a);
        assert(gcd_nat(0, a) == gcd_nat(a, 0));
    }
}

/// The gcd is symmetric.
pub proof fn lemma_gcd_sym(a: nat, b: nat)
    ensures
        gcd_nat(a, b) == gcd_nat(b, a),
{
    let g = gcd_nat(b, a);
    lemma_gcd_divides(b, a);
    assert forall|d: int| divides(d, a as int) && divides(d, b as int) implies divides(
        d,
        g as int,
    ) by {
        lemma_gcd_greatest(b, a, d);
    }
    lemma_gcd_unique(a, b, g);
}

/// Subtracting the smaller argument from the larger keeps the gcd.
pub proof fn lemma_gcd_sub(a: nat, b: nat)
    requires
        b <= a,
    ensures
        gcd_nat((a - b) as nat, b) == gcd_nat(a, b),
{
    let g = gcd_nat(a, b);
    lemma_gcd_divides(a, b);
    assert(a as int - b as int == (-1) * (b as int) + a as int);
    lemma_divides_linear(g as int, b as int, a as int, -1);
    assert(divides(g as int, a as int - b as int));
    assert forall|d: int|
        divides(d, a as int - b as int) && divides(d, b as int) implies divides(
        d,
        g as int,
    ) by {
        assert(a as int == 1 * (b as int) + (a as int - b as int));
        lemma_divides_linear(d, b as int, a as int - b as int, 1);
        lemma_gcd_greatest(a, b, d);
    }
    lemma_gcd_unique((a - b) as nat, b, g);
}

/// A divisor of an odd number is odd.
proof fn lemma_odd_divisor(d: nat, n: nat)
    requires
        divides(d as int, n as int),
        n % 2 == 1,
    ensures
        d % 2 == 1,
{
    if d % 2 == 0 {
        let k = choose|k: int| n as int == #[trigger] (d as int * k);
        lemma_fundamental_div_mod(d as int, 2);
        let h = d as int / 2;
        assert(n as int == (h * k) * 2) by (nonlinear_arith)
            requires
                n as int == d as int * k,
                d as int == 2 * h,
        ;
        lemma_mod_multiples_basic(h * k, 2);
        assert(false);
    }
}

/// An odd number that divides `2*b` divides `b`.
proof fn lemma_odd_divides_twice(d: nat, b: nat)
    requires
        d % 2 == 1,
        divides(d as int, 2 * b as int),
    ensures
        divides(d as int, b as int),
{
    let m = choose|k: int| 2 * b as int == #[trigger] (d as int * k);
    lemma_fundamental_div_mod(m, 2);
    if m % 2 == 0 {
        let h = m / 2;
        assert(b as int == d as int * h) by (nonlinear_arith)
            requires
                2 * b as int == d as int * m,
                m == 2 * h,
        ;
    } else {
        // An odd multiple of an odd number is odd, yet `2*b` is even.
        lemma_fundamental_div_mod(d as int, 2);
        let dh = d as int / 2;
        let mh = m / 2;
        let q = 2 * dh * mh + dh + mh;
        assert(d as int * m == 2 * q + 1) by (nonlinear_arith)
            requires
                d as int == 2 * dh + 1,
                m == 2 * mh + 1,
                q == 2 * dh * mh + dh + mh,
        ;
        lemma_mod_multiples_vanish(q, 1, 2);
        lemma_small_mod(1, 2);
        lemma_mod_multiples_basic(b as int, 2);
        assert((b as int) * 2 == 2 * q + 1);
        assert(false);
    }
}

/// Pulling a common factor of two out of both arguments halves the gcd.
proof fn lemma_gcd_even_even(a: nat, b: nat)
    ensures
        gcd_nat(2 * a, 2 * b) == 2 * gcd_nat(a, b),
{
    let g = gcd_nat(a, b);
    let gg = gcd_nat(2 * a, 2 * b);
    lemma_gcd_divides(a, b);
    lemma_gcd_divides(2 * a, 2 * b);
    // 2*g divides both doubled arguments, hence divides their gcd.
    let ka = choose|k: int| a as int == #[trigger] (g as int * k);
    assert(2 * a as int == (2 * g as int) * ka) by (nonlinear_arith)
        requires
            a as int == g as int * ka,
    ;
    let kb = choose|k: int| b as int == #[trigger] (g as int * k);
    assert(2 * b as int == (2 * g as int) * kb) by (nonlinear_arith)
        requires
            b as int == g as int * kb,
    ;
    assert(divides(2 * g as int, 2 * a as int));
    assert(divides(2 * g as int, 2 * b as int));
    lemma_gcd_greatest(2 * a, 2 * b, 2 * g as int);
    // Conversely the gcd of the doubled arguments is even, and its half
    // divides both halves.
    assert(2 * a as int == 2 * (a as int));
    assert(divides(2, 2 * a as int));
    assert(divides(2, 2 * b as int));
    lemma_gcd_greatest(2 * a, 2 * b, 2);
    let h = choose|k: int| gg as int == #[trigger] (2 * k);
    assert(h >= 0);
    let ma = choose|k: int| 2 * a as int == #[trigger] (gg as int * k);
    assert(a as int == h * ma) by (nonlinear_arith)
        requires
            2 * a as int == gg as int * ma,
            gg as int == 2 * h,
    ;
    let mb = choose|k: int| 2 * b as int == #[trigger] (gg as int * k);
    assert(b as int == h * mb) by (nonlinear_arith)
        requires
            2 * b as int == gg as int * mb,
            gg as int == 2 * h,
    ;
    assert(divides(h, a as int));
    assert(divides(h, b as int));
    lemma_gcd_greatest(a, b, h);
    let t = choose|k: int| g as int == #[trigger] (h * k);
    assert(2 * g as int == gg as int * t) by (nonlinear_arith)
        requires
            g as int == h * t,
            gg as int == 2 * h,
    ;
    assert(divides(gg as int, 2 * g as int));
    lemma_divides_antisym((2 * g) as nat, gg);
}

/// A factor of two in one argument only is invisible to the gcd when the
/// other argument is odd.
proof fn lemma_gcd_odd_even(a: nat, b: nat)
    requires
        a % 2 == 1,
    ensures
        gcd_nat(a, 2 * b) == gcd_nat(a, b),
{
    let g = gcd_nat(a, b);
    let gg = gcd_nat(a, 2 * b);
    lemma_gcd_divides(a, b);
    lemma_gcd_divides(a, 2 * b);
    let kb = choose|k: int| b as int == #[trigger] (g as int * k);
    assert(2 * b as int == g as int * (2 * kb)) by (nonlinear_arith)
        requires
            b as int == g as int * kb,
    ;
    assert(divides(g as int, 2 * b as int));
    lemma_gcd_greatest(a, 2 * b, g as int);
    lemma_odd_divisor(gg, a);
    lemma_odd_divides_twice(gg, b);
    lemma_gcd_greatest(a, b, gg as int);
    lemma_divides_antisym(g, gg);
}

/// Splitting out all factors of two: for odd `a` and `b`,
/// `gcd(2^s * a, 2^t * b) == 2^min(s,t) * gcd(a, b)`.
pub proof fn lemma_gcd_pow2(s: nat, t: nat, a: nat, b: nat)
    requires
        a % 2 == 1,
        b % 2 == 1,
    ensures
        gcd_nat(pow2(s) * a, pow2(t) * b) == pow2(if s <= t {
            s
        } else {
            t
        }) * gcd_nat(a, b),
    decreases s + t, s,
{
    lemma2_to64();
    if s == 0 && t == 0 {
        assert(pow2(0) * a == a);
        assert(pow2(0) * b == b);
        assert(pow2(0) * gcd_nat(a, b) == gcd_nat(a, b));
    } else if s == 0 {
        lemma_pow2_adds(1, (t - 1) as nat);
        assert(pow2(t) * b == 2 * (pow2((t - 1) as nat) * b)) by (nonlinear_arith)
            requires
                pow2(t) == 2 * pow2((t - 1) as nat),
        ;
        lemma_gcd_odd_even(a, pow2((t - 1) as nat) * b);
        lemma_gcd_pow2(0, (t - 1) as nat, a, b);
        assert(pow2(0) * a == a);
    } else if t == 0 {
        lemma_gcd_sym(pow2(s) * a, pow2(0) * b);
        lemma_gcd_pow2(0, s, b, a);
        lemma_gcd_sym(a, b);
    } else {
        lemma_pow2_adds(1, (s - 1) as nat);
        lemma_pow2_adds(1, (t - 1) as nat);
        assert(pow2(s) * a == 2 * (pow2((s - 1) as nat) * a)) by (nonlinear_arith)
            requires
                pow2(s) == 2 * pow2((s - 1) as nat),
        ;
        assert(pow2(t) * b == 2 * (pow2((t - 1) as nat) * b)) by (nonlinear_arith)
            requires
                pow2(t) == 2 * pow2((t - 1) as nat),
        ;
        lemma_gcd_even_even(pow2((s - 1) as nat) * a, pow2((t - 1) as nat) * b);
        lemma_gcd_pow2((s - 1) as nat, (t - 1) as nat, a, b);
        let m = if s <= t {
            s
        } else {
            t
        };
        lemma_pow2_adds(1, (m - 1) as nat);
        assert(2 * (pow2((m - 1) as nat) * gcd_nat(a, b)) == pow2(m) * gcd_nat(a, b))
            by (nonlinear_arith)
            requires
                pow2(m) == 2 * pow2((m - 1) as nat),
        ;
    }
}

} // verus!
