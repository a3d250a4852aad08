//! Dense polynomials over the machine integers, stored as a coefficient
//! vector in ascending order of power. The canonical form of a polynomial has
//! no trailing zero coefficient (except the singleton zero polynomial), and
//! equality, degree and the leading coefficient are defined on it; the stored
//! representation may carry trailing zeros.

use vstd::prelude::*;

verus! {

use vstd::arithmetic::power::lemma_pow1;
use vstd::arithmetic::power::lemma_pow_adds;
use vstd::arithmetic::power::pow;
use crate::errors::MathError;

/// A dense polynomial; `coeffs[i]` is the coefficient of `x^i`.
#[derive(Debug)]
pub struct Polynomial {
    pub coeffs: Vec<i64>,
}

/// The coefficient of `x^i` in `s`, reading past the stored length as zero.
pub open spec fn poly_coeff(s: Seq<i64>, i: int) -> int {
    if 0 <= i < s.len() {
        s[i] as int
    } else {
        0
    }
}

/// The canonical length of a coefficient sequence: the stored length with
/// trailing zeros dropped, never dropping below one element (the algorithms
/// treat `[0]` as the canonical zero polynomial).
pub open spec fn canon_len(s: Seq<i64>) -> nat
    decreases s.len(),
{
    if s.len() <= 1 {
        s.len()
    } else if s[s.len() - 1] == 0 {
        canon_len(s.drop_last())
    } else {
        s.len()
    }
}

/// The canonical form: the coefficients up to the canonical length.
pub open spec fn canon(s: Seq<i64>) -> Seq<i64> {
    s.take(canon_len(s) as int)
}

/// The degree: canonical length minus one. The zero polynomial has degree 0
/// by this library's convention, and the empty sequence is also mapped to 0
/// so that degree queries never fail.
pub open spec fn poly_deg(s: Seq<i64>) -> nat {
    if canon_len(s) == 0 {
        0
    } else {
        (canon_len(s) - 1) as nat
    }
}

/// A polynomial is (semantically) zero when every coefficient is zero.
pub open spec fn poly_is_zero(s: Seq<i64>) -> bool {
    forall|i: int| poly_coeff(s, i) == 0
}

/// The canonical length never exceeds the stored length.
pub proof fn lemma_canon_len_le(s: Seq<i64>)
    ensures
        canon_len(s) <= s.len(),
    decreases s.len(),
{
    if s.len() > 1 && s[s.len() - 1] == 0 {
        lemma_canon_len_le(s.drop_last());
    }
}

/// Every stored coefficient at or past the canonical length is zero.
pub proof fn lemma_canon_trailing_zeros(s: Seq<i64>)
    ensures
        forall|i: int| canon_len(s) <= i < s.len() ==> s[i] == 0,
    decreases s.len(),
{
    if s.len() > 1 && s[s.len() - 1] == 0 {
        lemma_canon_trailing_zeros(s.drop_last());
        assert forall|i: int| canon_len(s) <= i < s.len() implies s[i] == 0 by {
            if i < s.len() - 1 {
                assert(s.drop_last()[i] == s[i]);
            }
        }
    }
}

/// Reading any coefficient at or past the canonical length gives zero.
pub proof fn lemma_coeff_beyond_canon(s: Seq<i64>, i: int)
    requires
        i >= canon_len(s),
    ensures
        poly_coeff(s, i) == 0,
{
    lemma_canon_trailing_zeros(s);
}

/// A non-empty coefficient sequence has canonical length at least one.
pub proof fn lemma_canon_len_pos(s: Seq<i64>)
    ensures
        s.len() >= 1 ==> canon_len(s) >= 1,
    decreases s.len(),
{
    if s.len() > 1 && s[s.len() - 1] == 0 {
        lemma_canon_len_pos(s.drop_last());
    }
}

/// A canonical form of length at least two ends in a non-zero coefficient.
pub proof fn lemma_canon_last_nonzero(s: Seq<i64>)
    ensures
        canon_len(s) >= 2 ==> s[canon_len(s) - 1] != 0,
    decreases s.len(),
{
    if s.len() > 1 && s[s.len() - 1] == 0 {
        lemma_canon_last_nonzero(s.drop_last());
        lemma_canon_len_le(s.drop_last());
        if canon_len(s) >= 2 {
            assert(s.drop_last()[canon_len(s) - 1] == s[canon_len(s) - 1]);
        }
    }
}

/// Two coefficient sequences with the same coefficient reading everywhere
/// and at least one stored coefficient each have equal canonical forms.
pub proof fn lemma_canon_eq_from_coeffs(s1: Seq<i64>, s2: Seq<i64>)
    requires
        s1.len() >= 1,
        s2.len() >= 1,
        forall|i: int| poly_coeff(s1, i) == poly_coeff(s2, i),
    ensures
        canon(s1) == canon(s2),
{
    lemma_canon_len_le(s1);
    lemma_canon_len_le(s2);
    lemma_canon_len_pos(s1);
    lemma_canon_len_pos(s2);
    lemma_canon_last_nonzero(s1);
    lemma_canon_last_nonzero(s2);
    lemma_canon_trailing_zeros(s1);
    lemma_canon_trailing_zeros(s2);
    let l1 = canon_len(s1) as int;
    let l2 = canon_len(s2) as int;
    if l1 >= 2 {
        assert(poly_coeff(s1, l1 - 1) != 0);
        assert(poly_coeff(s2, l1 - 1) != 0);
        assert(l2 >= l1);
    }
    if l2 >= 2 {
        assert(poly_coeff(s2, l2 - 1) != 0);
        assert(poly_coeff(s1, l2 - 1) != 0);
        assert(l1 >= l2);
    }
    assert(l1 == l2);
    assert forall|i: int| 0 <= i < l1 implies canon(s1)[i] == canon(s2)[i] by {
        assert(poly_coeff(s1, i) == s1[i]);
        assert(poly_coeff(s2, i) == s2[i]);
    }
    assert(canon(s1) =~= canon(s2));
}

impl Polynomial {
    /// The canonical length of the stored coefficients: the index one past
    /// the last non-zero coefficient, but at least one when any coefficient
    /// is stored.
    fn canon_length(&self) -> (r: usize)
        ensures
            r as nat == canon_len(self.coeffs@),
    {
        let ghost s = self.coeffs@;
        let mut l: usize = self.coeffs.len();
        proof {
            assert(s.take(l as int) =~= s);
        }
        while l > 1 && self.coeffs[l - 1] == 0
            invariant
                l <= s.len(),
                s == self.coeffs@,
                canon_len(s.take(l as int)) == canon_len(s),
            decreases l,
        {
            proof {
                assert(s.take(l as int).drop_last() =~= s.take(l as int - 1));
            }
            l = l - 1;
        }
        proof {
            lemma_canon_len_le(s);
            if l > 1 {
                assert(s.take(l as int)[l as int - 1] == s[l as int - 1]);
                assert(canon_len(s.take(l as int)) == l);
            }
        }
        l
    }

    /// The coefficient of `x^n`, where indices past the stored length read
    /// as the additive identity. This is what lets the ring operations
    /// iterate past either operand's stored length safely.
    pub fn nth_coeff(&self, n: &usize) -> (r: i64)
        ensures
            r as int == poly_coeff(self.coeffs@, *n as int),
    {
        if *n < self.coeffs.len() {
            self.coeffs[*n]
        } else {
            0
        }
    }

    /// A copy with the trailing zero coefficients dropped: the canonical
    /// form. A single stored coefficient is kept even when it is zero.
    pub fn drop_trailing_zeros(&self) -> (r: Polynomial)
        ensures
            r.coeffs@ == canon(self.coeffs@),
    {
        let l = self.canon_length();
        let mut c: Vec<i64> = Vec::new();
        let mut i: usize = 0;
        proof {
            lemma_canon_len_le(self.coeffs@);
        }
        while i < l
            invariant
                i <= l,
                l as nat == canon_len(self.coeffs@),
                l <= self.coeffs@.len(),
                c@ =~= self.coeffs@.take(i as int),
            decreases l - i,
        {
            c.push(self.coeffs[i]);
            i = i + 1;
        }
        proof {
            assert(c@ =~= canon(self.coeffs@));
        }
        Polynomial { coeffs: c }
    }

    /// The degree: the canonical length minus one. The zero polynomial has
    /// degree 0 by this library's convention, and an empty coefficient
    /// vector is also reported as degree 0 rather than failing.
    pub fn degree(&self) -> (r: usize)
        ensures
            r as nat == poly_deg(self.coeffs@),
    {
        let l = self.canon_length();
        if l == 0 {
            0
        } else {
            l - 1
        }
    }

    /// The coefficient of the highest power in canonical form; for the zero
    /// polynomial this is 0.
    pub fn leading_coefficient(&self) -> (r: i64)
        requires
            self.coeffs@.len() > 0,
        ensures
            r == self.coeffs@[canon_len(self.coeffs@) - 1],
    {
        let l = self.canon_length();
        proof {
            lemma_canon_len_pos(self.coeffs@);
            lemma_canon_len_le(self.coeffs@);
        }
        self.coeffs[l - 1]
    }

    /// The canonical zero polynomial `[0]`.
    pub fn zero() -> (r: Polynomial)
        ensures
            r.coeffs@ =~= seq![0i64],
    {
        let mut c: Vec<i64> = Vec::new();
        c.push(0);
        Polynomial { coeffs: c }
    }

    /// The canonical one polynomial `[1]`.
    pub fn one() -> (r: Polynomial)
        ensures
            r.coeffs@ =~= seq![1i64],
    {
        let mut c: Vec<i64> = Vec::new();
        c.push(1);
        Polynomial { coeffs: c }
    }

    /// Whether the canonical form is exactly `[0]`. An empty coefficient
    /// vector is not the canonical zero polynomial.
    pub fn is_zero(&self) -> (r: bool)
        ensures
            r == (canon(self.coeffs@) == seq![0i64]),
    {
        let l = self.canon_length();
        let r = l == 1 && self.coeffs[0] == 0;
        proof {
            lemma_canon_len_le(self.coeffs@);
            if r {
                assert(canon(self.coeffs@) =~= seq![0i64]);
            } else if canon(self.coeffs@) == seq![0i64] {
                assert(canon(self.coeffs@).len() == seq![0i64].len());
                assert(seq![0i64].len() == 1);
                assert(canon_len(self.coeffs@) == 1);
                assert(canon(self.coeffs@)[0] == self.coeffs@[0]);
                assert(false);
            }
        }
        r
    }

    /// Whether the canonical form is exactly `[1]`.
    pub fn is_one(&self) -> (r: bool)
        ensures
            r == (canon(self.coeffs@) == seq![1i64]),
    {
        let l = self.canon_length();
        let r = l == 1 && self.coeffs[0] == 1;
        proof {
            lemma_canon_len_le(self.coeffs@);
            if r {
                assert(canon(self.coeffs@) =~= seq![1i64]);
            } else if canon(self.coeffs@) == seq![1i64] {
                assert(canon(self.coeffs@).len() == seq![1i64].len());
                assert(seq![1i64].len() == 1);
                assert(canon_len(self.coeffs@) == 1);
                assert(canon(self.coeffs@)[0] == self.coeffs@[0]);
                assert(false);
            }
        }
        r
    }
}

impl PartialEq for Polynomial {
    /// Two polynomials are equal exactly when their canonical coefficient
    /// sequences are equal, element for element and in length.
    fn eq(&self, other: &Polynomial) -> (r: bool) {
        let l1 = self.canon_length();
        let l2 = other.canon_length();
        if l1 != l2 {
            proof {
                assert(canon(self.coeffs@).len() != canon(other.coeffs@).len()) by {
                    lemma_canon_len_le(self.coeffs@);
                    lemma_canon_len_le(other.coeffs@);
                }
            }
            return false;
        }
        let mut i: usize = 0;
        proof {
            lemma_canon_len_le(self.coeffs@);
            lemma_canon_len_le(other.coeffs@);
        }
        while i < l1
            invariant
                i <= l1,
                l1 as nat == canon_len(self.coeffs@),
                l1 as nat == canon_len(other.coeffs@),
                l1 <= self.coeffs@.len(),
                l1 <= other.coeffs@.len(),
                forall|j: int| 0 <= j < i ==> self.coeffs@[j] == other.coeffs@[j],
            decreases l1 - i,
        {
            if self.coeffs[i] != other.coeffs[i] {
                proof {
                    assert(canon(self.coeffs@)[i as int] != canon(other.coeffs@)[i as int]);
                }
                return false;
            }
            i = i + 1;
        }
        proof {
            assert(canon(self.coeffs@) =~= canon(other.coeffs@));
        }
        true
    }
}

impl vstd::std_specs::cmp::PartialEqSpecImpl for Polynomial {
    open spec fn obeys_eq_spec() -> bool {
        true
    }

    open spec fn eq_spec(&self, other: &Polynomial) -> bool {
        canon(self.coeffs@) == canon(other.coeffs@)
    }
}

/// The value of the polynomial at `x`: the sum of `s[i] * x^i`.
pub open spec fn poly_eval(s: Seq<i64>, x: int) -> int
    decreases s.len(),
{
    if s.len() == 0 {
        0
    } else {
        poly_eval(s.drop_last(), x) + (s.last() as int) * pow(x, (s.len() - 1) as nat)
    }
}

/// Truncating (Rust-style) integer division on mathematical integers.
pub open spec fn tdiv(x: int, d: int) -> int {
    if x >= 0 && d > 0 {
        x / d
    } else if x >= 0 {
        -(x / (-d))
    } else if d > 0 {
        -((-x) / d)
    } else {
        (-x) / (-d)
    }
}

/// Truncating (Rust-style) integer remainder on mathematical integers.
pub open spec fn trem(x: int, d: int) -> int {
    if x >= 0 && d > 0 {
        x % d
    } else if x >= 0 {
        x % (-d)
    } else if d > 0 {
        -((-x) % d)
    } else {
        -((-x) % (-d))
    }
}

/// When the truncating remainder vanishes, the divisor times the truncating
/// quotient restores the dividend exactly.
pub proof fn lemma_tdiv_exact(x: int, d: int)
    requires
        d != 0,
        trem(x, d) == 0,
    ensures
        d * tdiv(x, d) == x,
{
    if x >= 0 && d > 0 {
        vstd::arithmetic::div_mod::lemma_fundamental_div_mod(x, d);
    } else if x >= 0 {
        vstd::arithmetic::div_mod::lemma_fundamental_div_mod(x, -d);
        assert(d * (-(x / (-d))) == (-d) * (x / (-d))) by (nonlinear_arith);
    } else if d > 0 {
        vstd::arithmetic::div_mod::lemma_fundamental_div_mod(-x, d);
        assert(d * (-((-x) / d)) == -(d * ((-x) / d))) by (nonlinear_arith);
    } else {
        vstd::arithmetic::div_mod::lemma_fundamental_div_mod(-x, -d);
        assert(d * ((-x) / (-d)) == -((-d) * ((-x) / (-d)))) by (nonlinear_arith);
    }
}

impl Polynomial {
    /// Evaluates the polynomial at `x` by iterative power accumulation:
    /// `sum = coeffs[0] + coeffs[1]*x + ... + coeffs[d]*x^d`.
    ///
    /// The preconditions say only that no intermediate value leaves the
    /// machine range: every partial sum, every needed power of `x` and every
    /// coefficient-times-power product fits in an `i64`.
    pub fn call(&self, x: i64) -> (r: i64)
        requires
            forall|m: int|
                0 <= m <= self.coeffs@.len() ==> i64::MIN <= poly_eval(
                    #[trigger] self.coeffs@.take(m),
                    x as int,
                ) <= i64::MAX,
            forall|m: int|
                0 <= m < self.coeffs@.len() ==> i64::MIN <= #[trigger] pow(x as int, m as nat)
                    <= i64::MAX,
            forall|m: int|
                0 <= m < self.coeffs@.len() ==> i64::MIN <= poly_coeff(self.coeffs@, m)
                    * #[trigger] pow(x as int, m as nat) <= i64::MAX,
        ensures
            r as int == poly_eval(self.coeffs@, x as int),
    {
        let ghost s = self.coeffs@;
        let mut sum: i64 = 0;
        let mut t: i64 = 1;
        let len = self.coeffs.len();
        let mut i: usize = 0;
        proof {
            vstd::arithmetic::power::lemma_pow0(x as int);
            assert(s.take(0) =~= Seq::<i64>::empty());
        }
        while i < len
            invariant
                i <= len,
                len == s.len(),
                s == self.coeffs@,
                sum as int == poly_eval(s.take(i as int), x as int),
                i < len ==> t as int == pow(x as int, i as nat),
                forall|m: int|
                    0 <= m <= s.len() ==> i64::MIN <= poly_eval(#[trigger] s.take(m), x as int)
                        <= i64::MAX,
                forall|m: int|
                    0 <= m < s.len() ==> i64::MIN <= #[trigger] pow(x as int, m as nat)
                        <= i64::MAX,
                forall|m: int|
                    0 <= m < s.len() ==> i64::MIN <= poly_coeff(s, m) * #[trigger] pow(
                        x as int,
                        m as nat,
                    ) <= i64::MAX,
            decreases len - i,
        {
            let c = self.coeffs[i];
            let ghost mi: int = i as int;
            proof {
                assert(poly_coeff(s, mi) == c as int);
                assert(i64::MIN <= poly_coeff(s, mi) * pow(x as int, mi as nat) <= i64::MAX);
                assert(pow(x as int, mi as nat) == pow(x as int, i as nat));
                assert(i64::MIN <= poly_coeff(s, i as int) * pow(x as int, i as nat)
                    <= i64::MAX);
                assert(s.take(i as int + 1).drop_last() =~= s.take(i as int));
                assert(s.take(i as int + 1).last() == s[i as int]);
                assert(poly_eval(s.take(i as int + 1), x as int) == poly_eval(
                    s.take(i as int),
                    x as int,
                ) + (c as int) * pow(x as int, i as nat));
            }
            let prod = c * t;
            sum = sum + prod;
            if i + 1 < len {
                proof {
                    lemma_pow1(x as int);
                    lemma_pow_adds(x as int, i as nat, 1);
                    assert(i64::MIN <= pow(x as int, (i + 1) as nat) <= i64::MAX);
                }
                t = t * x;
            }
            i = i + 1;
        }
        proof {
            assert(s.take(len as int) =~= s);
        }
        sum
    }

    /// Coefficientwise sum over the index range up to the larger degree,
    /// reading missing coefficients as zero. The result has exactly
    /// `max(degree) + 1` stored coefficients and may itself end in zeros.
    pub fn add(&self, other: &Polynomial) -> (r: Polynomial)
        requires
            forall|i: int|
                i64::MIN <= #[trigger] poly_coeff(self.coeffs@, i) + poly_coeff(other.coeffs@, i)
                    <= i64::MAX,
        ensures
            r.coeffs@.len() == 1 + (if poly_deg(self.coeffs@) >= poly_deg(other.coeffs@) {
                poly_deg(self.coeffs@)
            } else {
                poly_deg(other.coeffs@)
            }),
            forall|i: int|
                #[trigger] poly_coeff(r.coeffs@, i) == poly_coeff(self.coeffs@, i) + poly_coeff(
                    other.coeffs@,
                    i,
                ),
    {
        let ghost s1 = self.coeffs@;
        let ghost s2 = other.coeffs@;
        let d1 = self.degree();
        let d2 = other.degree();
        let dm = if d1 >= d2 {
            d1
        } else {
            d2
        };
        let mut c: Vec<i64> = Vec::new();
        let mut i: usize = 0;
        proof {
            lemma_canon_len_le(s1);
            lemma_canon_len_le(s2);
            assert(s1.len() == self.coeffs.len());
            assert(s2.len() == other.coeffs.len());
        }
        while i <= dm
            invariant
                i <= dm + 1,
                dm < usize::MAX,
                dm as nat == (if poly_deg(s1) >= poly_deg(s2) {
                    poly_deg(s1)
                } else {
                    poly_deg(s2)
                }),
                s1 == self.coeffs@,
                s2 == other.coeffs@,
                c@.len() == i,
                forall|j: int| 0 <= j < i ==> c@[j] as int == poly_coeff(s1, j) + poly_coeff(s2, j),
                forall|j: int|
                    i64::MIN <= #[trigger] poly_coeff(s1, j) + poly_coeff(s2, j) <= i64::MAX,
            decreases dm + 1 - i,
        {
            let v = self.nth_coeff(&i) + other.nth_coeff(&i);
            c.push(v);
            i = i + 1;
        }
        proof {
            lemma_canon_len_le(c@);
            assert forall|j: int| #[trigger] poly_coeff(c@, j) == poly_coeff(s1, j) + poly_coeff(
                s2,
                j,
            ) by {
                if j < 0 {
                } else if j <= dm {
                } else {
                    lemma_coeff_beyond_deg(s1, j);
                    lemma_coeff_beyond_deg(s2, j);
                }
            }
        }
        Polynomial { coeffs: c }
    }

    /// Coefficientwise difference; the shape mirrors `add`.
    pub fn sub(&self, other: &Polynomial) -> (r: Polynomial)
        requires
            forall|i: int|
                i64::MIN <= #[trigger] poly_coeff(self.coeffs@, i) - poly_coeff(other.coeffs@, i)
                    <= i64::MAX,
        ensures
            r.coeffs@.len() == 1 + (if poly_deg(self.coeffs@) >= poly_deg(other.coeffs@) {
                poly_deg(self.coeffs@)
            } else {
                poly_deg(other.coeffs@)
            }),
            forall|i: int|
                #[trigger] poly_coeff(r.coeffs@, i) == poly_coeff(self.coeffs@, i) - poly_coeff(
                    other.coeffs@,
                    i,
                ),
    {
        let ghost s1 = self.coeffs@;
        let ghost s2 = other.coeffs@;
        let d1 = self.degree();
        let d2 = other.degree();
        let dm = if d1 >= d2 {
            d1
        } else {
            d2
        };
        let mut c: Vec<i64> = Vec::new();
        let mut i: usize = 0;
        proof {
            lemma_canon_len_le(s1);
            lemma_canon_len_le(s2);
            assert(s1.len() == self.coeffs.len());
            assert(s2.len() == other.coeffs.len());
        }
        while i <= dm
            invariant
                i <= dm + 1,
                dm < usize::MAX,
                dm as nat == (if poly_deg(s1) >= poly_deg(s2) {
                    poly_deg(s1)
                } else {
                    poly_deg(s2)
                }),
                s1 == self.coeffs@,
                s2 == other.coeffs@,
                c@.len() == i,
                forall|j: int| 0 <= j < i ==> c@[j] as int == poly_coeff(s1, j) - poly_coeff(s2, j),
                forall|j: int|
                    i64::MIN <= #[trigger] poly_coeff(s1, j) - poly_coeff(s2, j) <= i64::MAX,
            decreases dm + 1 - i,
        {
            let v = self.nth_coeff(&i) - other.nth_coeff(&i);
            c.push(v);
            i = i + 1;
        }
        proof {
            assert forall|j: int| #[trigger] poly_coeff(c@, j) == poly_coeff(s1, j) - poly_coeff(
                s2,
                j,
            ) by {
                if j < 0 {
                } else if j <= dm {
                } else {
                    lemma_coeff_beyond_deg(s1, j);
                    lemma_coeff_beyond_deg(s2, j);
                }
            }
        }
        Polynomial { coeffs: c }
    }
}

/// Reading any coefficient past the degree gives zero (the degree bounds
/// the canonical length from above by one).
pub proof fn lemma_coeff_beyond_deg(s: Seq<i64>, i: int)
    requires
        i > poly_deg(s),
    ensures
        poly_coeff(s, i) == 0,
{
    lemma_coeff_beyond_canon(s, i);
}

/// For machine-range operands (outside the one overflowing pair), the
/// truncating quotient and remainder stay in the machine range.
proof fn lemma_trunc_div_rem_range(x: int, d: int)
    requires
        i64::MIN <= x <= i64::MAX,
        i64::MIN <= d <= i64::MAX,
        d != 0,
        !(x == i64::MIN && d == -1),
    ensures
        i64::MIN <= tdiv(x, d) <= i64::MAX,
        i64::MIN <= trem(x, d) <= i64::MAX,
{
    let a = if x >= 0 {
        x
    } else {
        -x
    };
    let b = if d > 0 {
        d
    } else {
        -d
    };
    vstd::arithmetic::div_mod::lemma_div_pos_is_pos(a, b);
    vstd::arithmetic::div_mod::lemma_div_nonincreasing(a, b);
    vstd::arithmetic::div_mod::lemma_div_basics(a);
    vstd::arithmetic::div_mod::lemma_mod_pos_bound(a, b);
    vstd::arithmetic::div_mod::lemma_small_mod(0, b as nat);
    if b >= 2 {
        vstd::arithmetic::div_mod::lemma_div_is_ordered_by_denominator(a, 2, b);
    }
}

/// The partial convolution: the sum of `a[j] * b[k-j]` over `j < m`.
pub open spec fn conv_partial(a: Seq<i64>, b: Seq<i64>, k: int, m: int) -> int
    decreases m,
{
    if m <= 0 {
        0
    } else {
        conv_partial(a, b, k, m - 1) + poly_coeff(a, m - 1) * poly_coeff(b, k - (m - 1))
    }
}

/// The coefficient of `x^k` in the product of `a` and `b`: the full
/// convolution sum over `j` from 0 to `k`.
pub open spec fn conv(a: Seq<i64>, b: Seq<i64>, k: int) -> int {
    conv_partial(a, b, k, k + 1)
}

/// Past the sum of the degrees every convolution coefficient vanishes.
pub proof fn lemma_conv_partial_beyond(a: Seq<i64>, b: Seq<i64>, k: int, m: int)
    requires
        k > poly_deg(a) + poly_deg(b),
    ensures
        conv_partial(a, b, k, m) == 0,
    decreases m,
{
    if m > 0 {
        lemma_conv_partial_beyond(a, b, k, m - 1);
        let j = m - 1;
        if j > poly_deg(a) {
            lemma_coeff_beyond_deg(a, j);
            assert(poly_coeff(a, j) * poly_coeff(b, k - j) == 0) by (nonlinear_arith)
                requires
                    poly_coeff(a, j) == 0,
            ;
        } else {
            lemma_coeff_beyond_deg(b, k - j);
            assert(poly_coeff(a, j) * poly_coeff(b, k - j) == 0) by (nonlinear_arith)
                requires
                    poly_coeff(b, k - j) == 0,
            ;
        }
    }
}

impl Polynomial {
    /// Adds the scalar to the constant-term coefficient only; the other
    /// coefficients are copied unchanged. (The asymmetry is deliberate:
    /// scalar addition touches `coeffs[0]`, it is not a uniform shift.)
    pub fn add_scalar(&self, rhs: i64) -> (r: Polynomial)
        requires
            self.coeffs@.len() > 0,
            i64::MIN <= self.coeffs@[0] + rhs <= i64::MAX,
        ensures
            r.coeffs@.len() == self.coeffs@.len(),
            r.coeffs@[0] as int == self.coeffs@[0] + rhs,
            forall|i: int| 1 <= i < r.coeffs@.len() ==> r.coeffs@[i] == self.coeffs@[i],
    {
        let mut c: Vec<i64> = Vec::new();
        c.push(self.coeffs[0] + rhs);
        let mut i: usize = 1;
        while i < self.coeffs.len()
            invariant
                1 <= i <= self.coeffs@.len(),
                c@.len() == i,
                c@[0] as int == self.coeffs@[0] + rhs,
                i64::MIN <= self.coeffs@[0] + rhs <= i64::MAX,
                forall|j: int| 1 <= j < i ==> c@[j] == self.coeffs@[j],
            decreases self.coeffs@.len() - i,
        {
            c.push(self.coeffs[i]);
            i = i + 1;
        }
        Polynomial { coeffs: c }
    }

    /// Subtracts the scalar from the constant-term coefficient only.
    pub fn sub_scalar(&self, rhs: i64) -> (r: Polynomial)
        requires
            self.coeffs@.len() > 0,
            i64::MIN <= self.coeffs@[0] - rhs <= i64::MAX,
        ensures
            r.coeffs@.len() == self.coeffs@.len(),
            r.coeffs@[0] as int == self.coeffs@[0] - rhs,
            forall|i: int| 1 <= i < r.coeffs@.len() ==> r.coeffs@[i] == self.coeffs@[i],
    {
        let mut c: Vec<i64> = Vec::new();
        c.push(self.coeffs[0] - rhs);
        let mut i: usize = 1;
        while i < self.coeffs.len()
            invariant
                1 <= i <= self.coeffs@.len(),
                c@.len() == i,
                c@[0] as int == self.coeffs@[0] - rhs,
                i64::MIN <= self.coeffs@[0] - rhs <= i64::MAX,
                forall|j: int| 1 <= j < i ==> c@[j] == self.coeffs@[j],
            decreases self.coeffs@.len() - i,
        {
            c.push(self.coeffs[i]);
            i = i + 1;
        }
        Polynomial { coeffs: c }
    }

    /// Multiplies every stored coefficient by the scalar.
    pub fn mul_scalar(&self, rhs: i64) -> (r: Polynomial)
        requires
            forall|i: int|
                0 <= i < self.coeffs@.len() ==> i64::MIN <= #[trigger] (self.coeffs@[i] * rhs)
                    <= i64::MAX,
        ensures
            r.coeffs@.len() == self.coeffs@.len(),
            forall|i: int|
                0 <= i < r.coeffs@.len() ==> r.coeffs@[i] as int == self.coeffs@[i] * rhs,
    {
        let mut c: Vec<i64> = Vec::new();
        let mut i: usize = 0;
        while i < self.coeffs.len()
            invariant
                i <= self.coeffs@.len(),
                c@.len() == i,
                forall|j: int| 0 <= j < i ==> c@[j] as int == self.coeffs@[j] * rhs,
                forall|j: int|
                    0 <= j < self.coeffs@.len() ==> i64::MIN <= #[trigger] (self.coeffs@[j]
                        * rhs) <= i64::MAX,
            decreases self.coeffs@.len() - i,
        {
            c.push(self.coeffs[i] * rhs);
            i = i + 1;
        }
        Polynomial { coeffs: c }
    }

    /// Divides every stored coefficient by the scalar, with Rust's
    /// truncating division. The scalar must be non-zero, and the one
    /// overflowing pair (`i64::MIN / -1`) is excluded.
    pub fn div_scalar(&self, rhs: i64) -> (r: Polynomial)
        requires
            rhs != 0,
            forall|i: int|
                0 <= i < self.coeffs@.len() ==> !(#[trigger] self.coeffs@[i] == i64::MIN && rhs
                    == -1),
        ensures
            r.coeffs@.len() == self.coeffs@.len(),
            forall|i: int|
                0 <= i < r.coeffs@.len() ==> r.coeffs@[i] as int == tdiv(
                    self.coeffs@[i] as int,
                    rhs as int,
                ),
    {
        let mut c: Vec<i64> = Vec::new();
        let mut i: usize = 0;
        while i < self.coeffs.len()
            invariant
                i <= self.coeffs@.len(),
                rhs != 0,
                c@.len() == i,
                forall|j: int|
                    0 <= j < i ==> c@[j] as int == tdiv(self.coeffs@[j] as int, rhs as int),
                forall|j: int|
                    0 <= j < self.coeffs@.len() ==> !(#[trigger] self.coeffs@[j] == i64::MIN
                        && rhs == -1),
            decreases self.coeffs@.len() - i,
        {
            proof {
                lemma_trunc_div_rem_range(self.coeffs@[i as int] as int, rhs as int);
            }
            match self.coeffs[i].checked_div(rhs) {
                Some(v) => {
                    c.push(v);
                },
                None => {
                    proof {
                        assert(false);
                    }
                },
            }
            i = i + 1;
        }
        Polynomial { coeffs: c }
    }

    /// Reduces every stored coefficient modulo the scalar, with Rust's
    /// truncating remainder.
    pub fn rem_scalar(&self, rhs: i64) -> (r: Polynomial)
        requires
            rhs != 0,
            forall|i: int|
                0 <= i < self.coeffs@.len() ==> !(#[trigger] self.coeffs@[i] == i64::MIN && rhs
                    == -1),
        ensures
            r.coeffs@.len() == self.coeffs@.len(),
            forall|i: int|
                0 <= i < r.coeffs@.len() ==> r.coeffs@[i] as int == trem(
                    self.coeffs@[i] as int,
                    rhs as int,
                ),
    {
        let mut c: Vec<i64> = Vec::new();
        let mut i: usize = 0;
        while i < self.coeffs.len()
            invariant
                i <= self.coeffs@.len(),
                rhs != 0,
                c@.len() == i,
                forall|j: int|
                    0 <= j < i ==> c@[j] as int == trem(self.coeffs@[j] as int, rhs as int),
                forall|j: int|
                    0 <= j < self.coeffs@.len() ==> !(#[trigger] self.coeffs@[j] == i64::MIN
                        && rhs == -1),
            decreases self.coeffs@.len() - i,
        {
            proof {
                lemma_trunc_div_rem_range(self.coeffs@[i as int] as int, rhs as int);
            }
            match self.coeffs[i].checked_rem(rhs) {
                Some(v) => {
                    proof {
                        // case on the signs, mirroring the shape of `trem`
                        let x = self.coeffs@[i as int] as int;
                        let d = rhs as int;
                        if x == 0 {
                            assert(v as int == trem(x, d));
                        } else if x > 0 && d > 0 {
                            assert(v as int == trem(x, d));
                        } else if x < 0 && d < 0 {
                            assert(v as int == trem(x, d));
                        } else if x < 0 {
                            assert(v as int == trem(x, d));
                        } else {
                            assert(v as int == trem(x, d));
                        }
                    }
                    c.push(v);
                },
                None => {
                    proof {
                        assert(false);
                    }
                },
            }
            i = i + 1;
        }
        Polynomial { coeffs: c }
    }

    /// The product, by convolution: the coefficient of `x^k` in the result
    /// is the sum of `self[j] * other[k-j]`. Quadratic time; no fast
    /// multiplication.
    pub fn mul(&self, other: &Polynomial) -> (r: Polynomial)
        requires
            poly_deg(self.coeffs@) + poly_deg(other.coeffs@) + 1 <= usize::MAX,
            forall|k: int, m: int|
                0 <= k <= poly_deg(self.coeffs@) + poly_deg(other.coeffs@) && 0 <= m <= k + 1
                    ==> i64::MIN <= #[trigger] conv_partial(self.coeffs@, other.coeffs@, k, m)
                    <= i64::MAX,
            forall|k: int, j: int|
                0 <= j <= k <= poly_deg(self.coeffs@) + poly_deg(other.coeffs@) ==> i64::MIN
                    <= #[trigger] (poly_coeff(self.coeffs@, j) * poly_coeff(other.coeffs@, k - j))
                    <= i64::MAX,
        ensures
            r.coeffs@.len() == poly_deg(self.coeffs@) + poly_deg(other.coeffs@) + 1,
            forall|k: int| #[trigger] poly_coeff(r.coeffs@, k) == conv(
                self.coeffs@,
                other.coeffs@,
                k,
            ),
    {
        let ghost s1 = self.coeffs@;
        let ghost s2 = other.coeffs@;
        let d1 = self.degree();
        let d2 = other.degree();
        let dm = d1 + d2;
        let mut c: Vec<i64> = Vec::new();
        let mut k: usize = 0;
        while k <= dm
            invariant
                k <= dm + 1,
                dm < usize::MAX,
                dm as nat == poly_deg(s1) + poly_deg(s2),
                s1 == self.coeffs@,
                s2 == other.coeffs@,
                c@.len() == k,
                forall|t: int| 0 <= t < k ==> c@[t] as int == conv(s1, s2, t),
                forall|kk: int, m: int|
                    0 <= kk <= poly_deg(s1) + poly_deg(s2) && 0 <= m <= kk + 1 ==> i64::MIN
                        <= #[trigger] conv_partial(s1, s2, kk, m) <= i64::MAX,
                forall|kk: int, j: int|
                    0 <= j <= kk <= poly_deg(s1) + poly_deg(s2) ==> i64::MIN <= #[trigger] (
                    poly_coeff(s1, j) * poly_coeff(s2, kk - j)) <= i64::MAX,
            decreases dm + 1 - k,
        {
            let mut acc: i64 = 0;
            let mut j: usize = 0;
            while j <= k
                invariant
                    j <= k + 1,
                    k <= dm,
                    dm < usize::MAX,
                    dm as nat == poly_deg(s1) + poly_deg(s2),
                    s1 == self.coeffs@,
                    s2 == other.coeffs@,
                    acc as int == conv_partial(s1, s2, k as int, j as int),
                    forall|kk: int, m: int|
                        0 <= kk <= poly_deg(s1) + poly_deg(s2) && 0 <= m <= kk + 1 ==> i64::MIN
                            <= #[trigger] conv_partial(s1, s2, kk, m) <= i64::MAX,
                    forall|kk: int, jj: int|
                        0 <= jj <= kk <= poly_deg(s1) + poly_deg(s2) ==> i64::MIN <= #[trigger] (
                        poly_coeff(s1, jj) * poly_coeff(s2, kk - jj)) <= i64::MAX,
                decreases k + 1 - j,
            {
                let a = self.nth_coeff(&j);
                let b = other.nth_coeff(&(k - j));
                proof {
                    assert(i64::MIN <= poly_coeff(s1, j as int) * poly_coeff(
                        s2,
                        k as int - j as int,
                    ) <= i64::MAX);
                    assert(i64::MIN <= conv_partial(s1, s2, k as int, j as int + 1)
                        <= i64::MAX);
                }
                acc = acc + a * b;
                j = j + 1;
            }
            c.push(acc);
            k = k + 1;
        }
        proof {
            assert forall|t: int| #[trigger] poly_coeff(c@, t) == conv(s1, s2, t) by {
                if t < 0 {
                } else if t <= dm {
                } else {
                    lemma_conv_partial_beyond(s1, s2, t, t + 1);
                }
            }
        }
        Polynomial { coeffs: c }
    }
}

/// The semantic zero test agrees with the canonical shape: a polynomial is
/// zero exactly when its canonical form is empty or the single zero.
pub proof fn lemma_poly_zero_shape(s: Seq<i64>)
    ensures
        poly_is_zero(s) <==> (canon_len(s) == 0 || (canon_len(s) == 1 && poly_coeff(s, 0) == 0)),
{
    lemma_canon_len_le(s);
    lemma_canon_len_pos(s);
    lemma_canon_trailing_zeros(s);
    lemma_canon_last_nonzero(s);
    if canon_len(s) == 0 {
        assert(s.len() == 0);
        assert(poly_is_zero(s));
    } else if canon_len(s) == 1 && poly_coeff(s, 0) == 0 {
        assert forall|i: int| poly_coeff(s, i) == 0 by {
            if 1 <= i < s.len() {
                assert(s[i] == 0);
            }
        }
    } else {
        if canon_len(s) >= 2 {
            assert(poly_coeff(s, canon_len(s) - 1) != 0);
        }
    }
}

/// When every stored coefficient from position `t` on is zero, the canonical
/// length is at most `t`.
proof fn lemma_canon_len_bound(s: Seq<i64>, t: int)
    requires
        1 <= t,
        forall|j: int| t <= j < s.len() ==> s[j] == 0,
    ensures
        canon_len(s) <= t,
    decreases s.len(),
{
    if s.len() > t {
        assert(s[s.len() - 1] == 0);
        assert(forall|j: int| t <= j < s.drop_last().len() ==> s.drop_last()[j] == s[j]);
        lemma_canon_len_bound(s.drop_last(), t);
    } else {
        lemma_canon_len_le(s);
    }
}

/// Convolving against an all-zero polynomial gives zero.
proof fn lemma_conv_zero_left(a: Seq<i64>, b: Seq<i64>, k: int, m: int)
    requires
        poly_is_zero(a),
    ensures
        conv_partial(a, b, k, m) == 0,
    decreases m,
{
    if m > 0 {
        lemma_conv_zero_left(a, b, k, m - 1);
        assert(poly_coeff(a, m - 1) * poly_coeff(b, k - (m - 1)) == 0) by (nonlinear_arith)
            requires
                poly_coeff(a, m - 1) == 0,
        ;
    }
}

/// The canonical form reads coefficientwise the same as the full sequence.
proof fn lemma_canon_coeffs(s: Seq<i64>)
    ensures
        forall|k: int| #[trigger] poly_coeff(canon(s), k) == poly_coeff(s, k),
{
    lemma_canon_len_le(s);
    lemma_canon_trailing_zeros(s);
    assert forall|k: int| #[trigger] poly_coeff(canon(s), k) == poly_coeff(s, k) by {
        if 0 <= k < canon_len(s) {
            assert(canon(s)[k] == s[k]);
        } else if canon_len(s) <= k && k < s.len() {
            assert(s[k] == 0);
        }
    }
}

/// Changing one coefficient of the left operand shifts the convolution by
/// the change times the matching coefficient of the right operand.
proof fn lemma_conv_update(a: Seq<i64>, b: Seq<i64>, pos: int, v: i64, k: int, m: int)
    requires
        0 <= pos < a.len(),
    ensures
        conv_partial(a.update(pos, v), b, k, m) == conv_partial(a, b, k, m) + (if pos < m {
            (v - a[pos]) * poly_coeff(b, k - pos)
        } else {
            0
        }),
    decreases m,
{
    if m > 0 {
        lemma_conv_update(a, b, pos, v, k, m - 1);
        let j = m - 1;
        let au = a.update(pos, v);
        if j == pos {
            assert(poly_coeff(au, j) == v as int);
            assert((v as int) * poly_coeff(b, k - j) == (a[pos] as int) * poly_coeff(b, k - j) + (
            v - a[pos]) * poly_coeff(b, k - j)) by (nonlinear_arith);
        } else {
            assert(poly_coeff(au, j) == poly_coeff(a, j));
        }
    }
}

/// The measure driving polynomial long division: twice the canonical length,
/// plus one when the constant coefficient is still non-zero.
pub open spec fn div_measure(s: Seq<i64>) -> int {
    2 * canon_len(s) + (if poly_coeff(s, 0) != 0 {
        1int
    } else {
        0int
    })
}

/// The canonical form is its own canonical form.
pub proof fn lemma_canon_idempotent(s: Seq<i64>)
    ensures
        canon(s).len() == canon_len(s),
        canon_len(canon(s)) == canon_len(s),
{
    lemma_canon_len_le(s);
    lemma_canon_last_nonzero(s);
    let l = canon_len(s) as int;
    if l >= 2 {
        assert(canon(s)[l - 1] == s[l - 1]);
    }
}

/// One step of schoolbook long division: subtract `ratio * x^kpos` times
/// the divisor from the remainder, where `ratio` is the truncating quotient
/// of the two leading coefficients and `kpos` the difference of the
/// canonical lengths.
pub open spec fn div_step(rem: Seq<i64>, q: Seq<i64>) -> Seq<i64> {
    let dq = canon_len(q) as int;
    let rl = canon_len(rem) as int;
    let kpos = rl - dq;
    let ratio = tdiv(rem[rl - 1] as int, q[dq - 1] as int);
    Seq::new(
        rem.len(),
        |t: int|
            if kpos <= t < rl {
                (((rem[t] as int) - ratio * poly_coeff(q, t - kpos)) as i64)
            } else {
                rem[t]
            },
    )
}

/// Whether one step of schoolbook division goes through exactly over the
/// machine integers: the leading ratio is representable and exact, and
/// every updated coefficient stays in range.
pub open spec fn div_step_ok(rem: Seq<i64>, q: Seq<i64>) -> bool {
    let dq = canon_len(q) as int;
    let rl = canon_len(rem) as int;
    let kpos = rl - dq;
    let lead_r = rem[rl - 1] as int;
    let lead_q = q[dq - 1] as int;
    let ratio = tdiv(lead_r, lead_q);
    &&& !(lead_r == i64::MIN && lead_q == -1)
    &&& trem(lead_r, lead_q) == 0
    &&& forall|t: int|
        kpos <= t < rl ==> i64::MIN <= (rem[t] as int) - ratio * #[trigger] poly_coeff(
            q,
            t - kpos,
        ) <= i64::MAX
}

/// Whether schoolbook long division of `rem` by `q` runs to completion over
/// the machine integers: every step's leading-coefficient ratio is an exact
/// representable integer and every intermediate coefficient stays in range.
/// This is the exact success condition of `div_rem`.
pub open spec fn div_runs_exactly(rem: Seq<i64>, q: Seq<i64>) -> bool
    decreases div_measure(rem)
        via div_runs_exactly_decreases
{
    if poly_is_zero(q) || poly_is_zero(rem) || canon_len(rem) < canon_len(q) {
        true
    } else if !div_step_ok(rem, q) {
        false
    } else {
        div_runs_exactly(div_step(rem, q), q)
    }
}

#[via_fn]
proof fn div_runs_exactly_decreases(rem: Seq<i64>, q: Seq<i64>) {
    if !(poly_is_zero(q) || poly_is_zero(rem) || canon_len(rem) < canon_len(q)) && div_step_ok(
        rem,
        q,
    ) {
        lemma_div_step_shrinks(rem, q);
    }
}

/// An exact division step cancels the leading coefficient of the remainder,
/// so the division measure strictly shrinks.
proof fn lemma_div_step_shrinks(rem: Seq<i64>, q: Seq<i64>)
    requires
        !poly_is_zero(q),
        !poly_is_zero(rem),
        canon_len(rem) >= canon_len(q),
        div_step_ok(rem, q),
    ensures
        div_step(rem, q).len() == rem.len(),
        poly_coeff(div_step(rem, q), canon_len(rem) - 1) == 0,
        canon_len(rem) >= 2 ==> canon_len(div_step(rem, q)) <= canon_len(rem) - 1,
        div_measure(div_step(rem, q)) < div_measure(rem),
{
    let step = div_step(rem, q);
    let dq = canon_len(q) as int;
    let rl = canon_len(rem) as int;
    let kpos = rl - dq;
    lemma_poly_zero_shape(q);
    lemma_poly_zero_shape(rem);
    lemma_canon_len_pos(q);
    lemma_canon_len_pos(rem);
    lemma_canon_len_le(q);
    lemma_canon_len_le(rem);
    lemma_canon_last_nonzero(q);
    lemma_canon_last_nonzero(rem);
    lemma_canon_trailing_zeros(rem);
    let lead_r = rem[rl - 1] as int;
    let lead_q = q[dq - 1] as int;
    assert(lead_q != 0);
    let ratio = tdiv(lead_r, lead_q);
    lemma_tdiv_exact(lead_r, lead_q);
    assert(ratio * poly_coeff(q, dq - 1) == lead_r) by (nonlinear_arith)
        requires
            lead_q * ratio == lead_r,
            poly_coeff(q, dq - 1) == lead_q,
    ;
    assert(step[rl - 1] == 0);
    assert forall|t: int| rl - 1 <= t < step.len() implies step[t] == 0 by {
        if t >= rl {
            assert(step[t] == rem[t]);
        }
    }
    if rl >= 2 {
        lemma_canon_len_bound(step, rl - 1);
    } else {
        // rl == 1: the whole remainder was one non-zero coefficient and is
        // now the zero polynomial, so only the parity bit of the measure
        // drops.
        lemma_canon_len_bound(step, 1);
        lemma_canon_len_pos(step);
        assert(rem[0] != 0);
        assert(poly_coeff(step, 0) == 0);
        assert(poly_coeff(rem, 0) != 0);
    }
}

/// Polynomial long division: repeatedly subtracts
/// `(leading ratio) * x^(degree difference) * divisor` from the running
/// remainder until its degree falls below the divisor's, accumulating the
/// ratios as the quotient. Fails with `DivisionByZero` exactly when the
/// divisor has no non-zero coefficient; otherwise it succeeds exactly when
/// the schoolbook run goes through over the machine integers
/// (`div_runs_exactly`), and fails with `Unrepresentable` otherwise — a
/// leading-coefficient ratio that is inexact or unrepresentable, or an
/// intermediate coefficient outside the machine range.
pub fn div_rem(lhs: &Polynomial, rhs: &Polynomial) -> (r: Result<
    (Polynomial, Polynomial),
    MathError,
>)
    ensures
        match r {
            Err(e) => (e == MathError::DivisionByZero && poly_is_zero(rhs.coeffs@)) || (e
                == MathError::Unrepresentable && !poly_is_zero(rhs.coeffs@)),
            Ok(qr) => {
                &&& !poly_is_zero(rhs.coeffs@)
                &&& qr.1.coeffs@.len() >= 1
                &&& forall|k: int|
                    #[trigger] poly_coeff(lhs.coeffs@, k) == conv(qr.0.coeffs@, rhs.coeffs@, k)
                        + poly_coeff(qr.1.coeffs@, k)
                &&& (poly_is_zero(qr.1.coeffs@) || canon_len(qr.1.coeffs@) < canon_len(
                    rhs.coeffs@,
                ))
            },
        },
        poly_is_zero(rhs.coeffs@) ==> r == Err::<(Polynomial, Polynomial), MathError>(
            MathError::DivisionByZero,
        ),
        !poly_is_zero(rhs.coeffs@) && canon_len(lhs.coeffs@) < canon_len(rhs.coeffs@)
            ==> match r {
            Ok(qr) => qr.0.coeffs@ =~= seq![0i64] && (if lhs.coeffs@.len() == 0 {
                qr.1.coeffs@ =~= seq![0i64]
            } else {
                qr.1.coeffs@ == lhs.coeffs@
            }),
            Err(_) => false,
        },
        !poly_is_zero(rhs.coeffs@) ==> ((r is Ok) <==> div_runs_exactly(
            canon(lhs.coeffs@),
            rhs.coeffs@,
        )),
{
    let ghost sl = lhs.coeffs@;
    let ghost sq = rhs.coeffs@;
    let dq = rhs.canon_length();
    proof {
        lemma_poly_zero_shape(sq);
        lemma_canon_len_le(sq);
        lemma_canon_len_pos(sq);
        lemma_canon_last_nonzero(sq);
    }
    if dq == 0 || (dq == 1 && rhs.coeffs[0] == 0) {
        return Err(MathError::DivisionByZero);
    }
    let dl = lhs.canon_length();
    proof {
        lemma_canon_len_le(sl);
        lemma_canon_coeffs(sl);
    }
    if dl < dq {
        let quot = Polynomial::zero();
        let mut rv: Vec<i64> = Vec::new();
        if lhs.coeffs.len() == 0 {
            // an empty dividend divides out to zero with the canonical
            // zero polynomial as rest
            rv.push(0);
        } else {
            let mut i: usize = 0;
            while i < lhs.coeffs.len()
                invariant
                    i <= sl.len(),
                    sl == lhs.coeffs@,
                    rv@ =~= sl.take(i as int),
                decreases sl.len() - i,
            {
                rv.push(lhs.coeffs[i]);
                i = i + 1;
            }
            proof {
                assert(rv@ =~= sl);
            }
        }
        proof {
            lemma_canon_idempotent(sl);
            assert(div_runs_exactly(canon(sl), sq));
            assert(poly_is_zero(quot.coeffs@)) by {
                lemma_poly_zero_shape(quot.coeffs@);
            }
            if sl.len() == 0 {
                assert(rv@ =~= seq![0i64]);
                assert(poly_is_zero(rv@)) by {
                    lemma_poly_zero_shape(rv@);
                }
            }
            assert forall|k: int|
                #[trigger] poly_coeff(sl, k) == conv(quot.coeffs@, sq, k) + poly_coeff(rv@, k) by {
                lemma_conv_zero_left(quot.coeffs@, sq, k, k + 1);
            }
        }
        let rem = Polynomial { coeffs: rv };
        return Ok((quot, rem));
    }
    // rem starts as the canonical form of the dividend; quot as zeros.
    let mut rem_v: Vec<i64> = Vec::new();
    let mut i: usize = 0;
    while i < dl
        invariant
            i <= dl,
            dl as nat == canon_len(sl),
            dl <= sl.len(),
            sl == lhs.coeffs@,
            rem_v@ =~= sl.take(i as int),
        decreases dl - i,
    {
        rem_v.push(lhs.coeffs[i]);
        i = i + 1;
    }
    let qlen = dl - dq + 1;
    let mut quot_v: Vec<i64> = Vec::new();
    let mut j: usize = 0;
    while j < qlen
        invariant
            j <= qlen,
            quot_v@.len() == j,
            forall|t: int| 0 <= t < j ==> quot_v@[t] == 0,
        decreases qlen - j,
    {
        quot_v.push(0);
        j = j + 1;
    }
    proof {
        assert(rem_v@ =~= canon(sl));
        lemma_canon_coeffs(sl);
        lemma_canon_last_nonzero(sl);
        lemma_canon_len_pos(sl);
        // the canonical copy is its own canonical form
        if dl >= 2 {
            assert(rem_v@[dl - 1] == sl[dl - 1]);
            assert(sl[dl - 1] != 0);
        }
        lemma_canon_len_le(rem_v@);
        if canon_len(rem_v@) < dl as nat {
            lemma_canon_trailing_zeros(rem_v@);
            if dl >= 2 {
                assert(rem_v@[dl - 1] == 0);
                assert(false);
            }
        }
        assert(canon_len(rem_v@) == dl as nat);
        assert forall|k: int|
            #[trigger] poly_coeff(sl, k) == conv(quot_v@, sq, k) + poly_coeff(rem_v@, k) by {
            assert(poly_is_zero(quot_v@));
            lemma_conv_zero_left(quot_v@, sq, k, k + 1);
            assert(poly_coeff(rem_v@, k) == poly_coeff(canon(sl), k));
        }
    }
    let ghost rem0 = rem_v@;
    proof {
        assert(rem0 == canon(sl));
    }
    loop
        invariant_except_break
            dq as nat == canon_len(sq),
            1 <= dq <= dl,
            dl as nat == canon_len(sl),
            sq == rhs.coeffs@,
            sl == lhs.coeffs@,
            dl <= sl.len(),
            poly_coeff(sq, dq - 1) != 0,
            !poly_is_zero(sq),
            rem_v@.len() == dl,
            quot_v@.len() == qlen,
            qlen == dl - dq + 1,
            canon_len(rem_v@) <= dl as nat,
            rem0 == canon(sl),
            div_runs_exactly(rem0, sq) <==> div_runs_exactly(rem_v@, sq),
            !poly_is_zero(rem_v@) ==> forall|t: int|
                0 <= t < canon_len(rem_v@) + 1 - dq ==> quot_v@[t] == 0,
            forall|k: int|
                #[trigger] poly_coeff(sl, k) == conv(quot_v@, sq, k) + poly_coeff(rem_v@, k),
        ensures
            dq as nat == canon_len(sq),
            sq == rhs.coeffs@,
            sl == lhs.coeffs@,
            !poly_is_zero(sq),
            rem_v@.len() == dl,
            rem0 == canon(sl),
            div_runs_exactly(rem0, sq) <==> div_runs_exactly(rem_v@, sq),
            forall|k: int|
                #[trigger] poly_coeff(sl, k) == conv(quot_v@, sq, k) + poly_coeff(rem_v@, k),
            poly_is_zero(rem_v@) || canon_len(rem_v@) < dq as nat,
        decreases div_measure(rem_v@),
    {
        let rl = crate::polynomial::vec_canon_length(&rem_v);
        if rl < dq || (rl == 1 && rem_v[0] == 0) {
            proof {
                if rl == 1 && rem_v@[0] == 0 {
                    lemma_poly_zero_shape(rem_v@);
                }
            }
            break;
        }
        let ghost rs = rem_v@;
        let ghost qs = quot_v@;
        proof {
            lemma_canon_len_pos(rem_v@);
            lemma_canon_last_nonzero(rem_v@);
            lemma_poly_zero_shape(rem_v@);
            assert(!poly_is_zero(rem_v@));
        }
        let lead_r = rem_v[rl - 1];
        let lead_q = rhs.coeffs[dq - 1];
        proof {
            if rl >= 2 {
                assert(rem_v@[rl - 1] != 0);
            }
            assert(lead_r != 0);
            assert(lead_q != 0);
            // this is not one of the base cases of the success condition
            assert(div_runs_exactly(rs, sq) == (if !div_step_ok(rs, sq) {
                false
            } else {
                div_runs_exactly(div_step(rs, sq), sq)
            }));
        }
        if lead_r == i64::MIN && lead_q == -1 {
            proof {
                // the leading ratio would be 2^63, which no i64 holds
                assert(!div_step_ok(rs, sq));
            }
            return Err(MathError::Unrepresentable);
        }
        proof {
            lemma_trunc_div_rem_range(lead_r as int, lead_q as int);
        }
        match lead_r.checked_rem(lead_q) {
            Some(m) => {
                proof {
                    // case on the signs, mirroring the shape of `trem`
                    let x = lead_r as int;
                    let d = lead_q as int;
                    if x == 0 {
                        assert(m as int == trem(x, d));
                    } else if x > 0 && d > 0 {
                        assert(m as int == trem(x, d));
                    } else if x < 0 && d < 0 {
                        assert(m as int == trem(x, d));
                    } else if x < 0 {
                        assert(m as int == trem(x, d));
                    } else {
                        assert(m as int == trem(x, d));
                    }
                }
                if m != 0 {
                    proof {
                        // the leading ratio is not an exact integer
                        assert(!div_step_ok(rs, sq));
                    }
                    return Err(MathError::Unrepresentable);
                }
            },
            None => {
                proof {
                    // the divisor is non-zero and the overflowing pair was
                    // handled above, so the remainder always exists
                    let x = lead_r as int;
                    let d = lead_q as int;
                    if x == 0 {
                        assert(false);
                    } else if x > 0 && d > 0 {
                        assert(false);
                    } else if x < 0 && d < 0 {
                        assert(false);
                    } else if x < 0 {
                        assert(false);
                    } else {
                        assert(false);
                    }
                }
                return Err(MathError::Unrepresentable);
            },
        }
        let ratio = match lead_r.checked_div(lead_q) {
            Some(q) => q,
            None => {
                proof {
                    // as above: the quotient of this pair always exists
                    let x = lead_r as int;
                    let d = lead_q as int;
                    if x == 0 {
                        assert(false);
                    } else if x > 0 && d > 0 {
                        assert(false);
                    } else if x < 0 && d < 0 {
                        assert(false);
                    } else if x < 0 {
                        assert(false);
                    } else {
                        assert(false);
                    }
                }
                return Err(MathError::Unrepresentable);
            },
        };
        proof {
            lemma_tdiv_exact(lead_r as int, lead_q as int);
            assert(ratio as int == tdiv(lead_r as int, lead_q as int));
            assert((lead_q as int) * (ratio as int) == lead_r as int);
        }
        let kpos = rl - dq;
        let ghost qs_new = qs.update(kpos as int, ratio);
        quot_v[kpos] = ratio;
        // subtract ratio * x^kpos * divisor from the remainder
        let mut ii: usize = 0;
        while ii < dq
            invariant
                ii <= dq,
                kpos + dq == rl,
                rl <= dl,
                dq as nat == canon_len(sq),
                dl as nat == canon_len(sl),
                dq <= dl,
                1 <= dq <= sq.len(),
                sq == rhs.coeffs@,
                sl == lhs.coeffs@,
                !poly_is_zero(sq),
                !poly_is_zero(rs),
                rem_v@.len() == dl,
                quot_v@ == qs_new,
                rs.len() == dl,
                rl as nat == canon_len(rs),
                rem0 == canon(sl),
                div_runs_exactly(rem0, sq) <==> div_runs_exactly(rs, sq),
                lead_r == rs[rl - 1],
                lead_q == sq[dq - 1],
                ratio as int == tdiv(lead_r as int, lead_q as int),
                trem(lead_r as int, lead_q as int) == 0,
                !(lead_r == i64::MIN && lead_q == -1),
                -0x8000_0000_0000_0000 <= ratio as int <= 0x7fff_ffff_ffff_ffff,
                forall|t: int|
                    kpos <= t < kpos + ii ==> rem_v@[t] as int == rs[t] - (ratio as int)
                        * poly_coeff(sq, t - kpos),
                forall|t: int| 0 <= t < dl && !(kpos <= t < kpos + ii) ==> rem_v@[t] == rs[t],
            decreases dq - ii,
        {
            proof {
                let ri: int = ratio as int;
                let ci: int = rhs.coeffs@[ii as int] as int;
                assert(-0x4000_0000_0000_0000_0000_0000_0000_0000int <= ri * ci
                    <= 0x4000_0000_0000_0000_0000_0000_0000_0000int) by (nonlinear_arith)
                    requires
                        -0x8000_0000_0000_0000 <= ri <= 0x8000_0000_0000_0000,
                        -0x8000_0000_0000_0000 <= ci <= 0x8000_0000_0000_0000,
                ;
            }
            let prod: i128 = ratio as i128 * rhs.coeffs[ii] as i128;
            let diff: i128 = rem_v[kpos + ii] as i128 - prod;
            if diff < i64::MIN as i128 || diff > i64::MAX as i128 {
                proof {
                    // this coefficient update leaves the machine range, so
                    // the division cannot run exactly
                    let t = kpos + ii as int;
                    assert(poly_coeff(sq, t - kpos) == sq[ii as int] as int);
                    assert(rem_v@[t] == rs[t]);
                    assert(!div_step_ok(rs, sq));
                    assert(!div_runs_exactly(rs, sq));
                }
                return Err(MathError::Unrepresentable);
            }
            rem_v[kpos + ii] = diff as i64;
            ii = ii + 1;
        }
        proof {
            // the leading coefficient of the remainder was cancelled exactly
            assert(rem_v@[rl - 1] as int == rs[rl - 1] - (ratio as int) * poly_coeff(
                sq,
                dq - 1,
            ));
            assert((ratio as int) * (lead_q as int) == lead_r as int) by (nonlinear_arith)
                requires
                    (lead_q as int) * (ratio as int) == lead_r as int,
            ;
            assert(rem_v@[rl - 1] == 0);
            // every entry from rl - 1 on is now zero
            lemma_canon_trailing_zeros(rs);
            assert forall|t: int| rl - 1 <= t < dl implies rem_v@[t] == 0 by {
                if t >= rl {
                    assert(rem_v@[t] == rs[t]);
                    assert(rs[t] == 0);
                }
            }
            if rl >= 2 {
                lemma_canon_len_bound(rem_v@, rl - 1);
            } else {
                lemma_canon_len_bound(rem_v@, 1);
                assert(rem_v@[0] == 0);
                lemma_canon_len_pos(rem_v@);
                lemma_poly_zero_shape(rem_v@);
            }
            // the division identity is preserved
            assert forall|k: int|
                #[trigger] poly_coeff(sl, k) == conv(qs_new, sq, k) + poly_coeff(rem_v@, k) by {
                lemma_conv_update(qs, sq, kpos as int, ratio, k, k + 1);
                assert(qs[kpos as int] == 0);
                if k < kpos {
                    assert(conv(qs_new, sq, k) == conv(qs, sq, k));
                    assert(poly_coeff(rem_v@, k) == poly_coeff(rs, k));
                } else {
                    assert(conv(qs_new, sq, k) == conv(qs, sq, k) + (ratio as int - 0)
                        * poly_coeff(sq, k - kpos));
                    assert((ratio as int - 0) * poly_coeff(sq, k - kpos) == (ratio as int)
                        * poly_coeff(sq, k - kpos)) by (nonlinear_arith);
                    if k < kpos + dq {
                        if k < dl {
                            assert(rem_v@[k] as int == rs[k] - (ratio as int) * poly_coeff(
                                sq,
                                k - kpos,
                            ));
                        } else {
                            assert(false);
                        }
                    } else {
                        lemma_coeff_beyond_canon(sq, k - kpos);
                        assert((ratio as int) * poly_coeff(sq, k - kpos) == 0)
                            by (nonlinear_arith)
                            requires
                                poly_coeff(sq, k - kpos) == 0,
                        ;
                        if k < dl {
                            assert(rem_v@[k] == rs[k]);
                        }
                    }
                }
            }
            // the freshly written quotient slot was in the untouched zero region,
            // and the region shrinks with the canonical length
            if !poly_is_zero(rem_v@) {
                assert forall|t: int|
                    0 <= t < canon_len(rem_v@) + 1 - dq implies qs_new[t] == 0 by {
                    if rl >= 2 {
                        assert(canon_len(rem_v@) <= rl - 1);
                        assert(t < kpos);
                    } else {
                        assert(false);
                    }
                }
            }
            // the step went through exactly, and the new remainder is the
            // spec-level step, so the success condition carries over
            assert(div_step_ok(rs, sq)) by {
                assert forall|t: int|
                    kpos <= t < rl implies i64::MIN <= (rs[t] as int) - (ratio as int)
                    * #[trigger] poly_coeff(sq, t - kpos) <= i64::MAX by {
                    assert(rem_v@[t] as int == rs[t] - (ratio as int) * poly_coeff(
                        sq,
                        t - kpos,
                    ));
                }
            }
            assert(rem_v@ == div_step(rs, sq)) by {
                assert forall|t: int| 0 <= t < dl implies rem_v@[t] == div_step(rs, sq)[t] by {
                    if kpos <= t < rl {
                        assert(rem_v@[t] as int == rs[t] - (ratio as int) * poly_coeff(
                            sq,
                            t - kpos,
                        ));
                    } else {
                        assert(rem_v@[t] == rs[t]);
                    }
                }
                assert(rem_v@ =~= div_step(rs, sq));
            }
            assert(div_runs_exactly(rs, sq) == div_runs_exactly(rem_v@, sq));
        }
    }
    proof {
        assert(div_runs_exactly(rem_v@, sq));
        assert(div_runs_exactly(canon(sl), sq));
    }
    let quot = Polynomial { coeffs: quot_v };
    let rem = Polynomial { coeffs: rem_v };
    Ok((quot, rem))
}

/// The canonical length of a raw coefficient vector.
pub(crate) fn vec_canon_length(v: &Vec<i64>) -> (r: usize)
    ensures
        r as nat == canon_len(v@),
{
    let ghost s = v@;
    let mut l: usize = v.len();
    proof {
        assert(s.take(l as int) =~= s);
    }
    while l > 1 && v[l - 1] == 0
        invariant
            l <= s.len(),
            s == v@,
            canon_len(s.take(l as int)) == canon_len(s),
        decreases l,
    {
        proof {
            assert(s.take(l as int).drop_last() =~= s.take(l as int - 1));
        }
        l = l - 1;
    }
    proof {
        lemma_canon_len_le(s);
        if l > 1 {
            assert(s.take(l as int)[l as int - 1] == s[l as int - 1]);
            assert(canon_len(s.take(l as int)) == l);
        }
    }
    l
}

/// The division–remainder round trip: whenever `div_rem` succeeds, taking
/// the product of the quotient with the divisor (by `mul`) and adding the
/// remainder back (by `add`) recovers the dividend, up to canonical
/// equality. The hypotheses are exactly what the contracts of `div_rem`,
/// `mul` and `add` state about the coefficient sequences involved.
pub proof fn lemma_div_rem_round_trip(
    p: Seq<i64>,
    q: Seq<i64>,
    quo: Seq<i64>,
    rem: Seq<i64>,
    prod: Seq<i64>,
    total: Seq<i64>,
)
    requires
        p.len() >= 1,
        total.len() >= 1,
        forall|k: int| #[trigger] poly_coeff(p, k) == conv(quo, q, k) + poly_coeff(rem, k),
        forall|k: int| #[trigger] poly_coeff(prod, k) == conv(quo, q, k),
        forall|k: int|
            #[trigger] poly_coeff(total, k) == poly_coeff(prod, k) + poly_coeff(rem, k),
    ensures
        canon(total) == canon(p),
{
    assert forall|k: int| #[trigger] poly_coeff(total, k) == poly_coeff(p, k) by {
        assert(poly_coeff(prod, k) == conv(quo, q, k));
    }
    lemma_canon_eq_from_coeffs(total, p);
}

} // verus!
