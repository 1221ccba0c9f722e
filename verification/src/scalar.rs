use vstd::prelude::*;
use crate::Error;
use vstd::arithmetic::div_mod::{lemma_div_multiples_vanish, lemma_mod_multiples_vanish};
use vstd::arithmetic::power2::pow2;

verus! {

/// Greatest magnitude a stored coefficient may take: 2^62.
pub const COEF_BOUND: i64 = 0x4000_0000_0000_0000;

/// Mathematical content of a `Scalar`: the exact complex number
/// ((a + b*sqrt(2)) + (c + d*sqrt(2))*i) / 2^k.
///
/// This ring is closed under addition, multiplication and conjugation and
/// holds every entry that the circuit engine produces: 0, 1, the Hadamard
/// coefficient 1/sqrt(2) = (0 + 1*sqrt(2))/2, and all their products and sums.
pub ghost struct SModel {
    pub a: int,
    pub b: int,
    pub c: int,
    pub d: int,
    pub k: nat,
}

pub open spec fn sc_zero() -> SModel {
    SModel { a: 0, b: 0, c: 0, d: 0, k: 0 }
}

pub open spec fn sc_one() -> SModel {
    SModel { a: 1, b: 0, c: 0, d: 0, k: 0 }
}

/// All four coefficients are zero (the value is zero, whatever `k` is).
pub open spec fn sc_is_zero(s: SModel) -> bool {
    s.a == 0 && s.b == 0 && s.c == 0 && s.d == 0
}

pub open spec fn sc_all_even(s: SModel) -> bool {
    s.a % 2 == 0 && s.b % 2 == 0 && s.c % 2 == 0 && s.d % 2 == 0
}

pub open spec fn sc_half(s: SModel) -> SModel {
    SModel { a: s.a / 2, b: s.b / 2, c: s.c / 2, d: s.d / 2, k: (s.k - 1) as nat }
}

/// Canonical representative: divide out common factors of two while the
/// scale exponent is positive.
pub open spec fn sc_norm(s: SModel) -> SModel
    decreases s.k,
{
    if s.k > 0 && sc_all_even(s) {
        sc_norm(sc_half(s))
    } else {
        s
    }
}

pub open spec fn sc_in_range(s: SModel) -> bool {
    &&& -COEF_BOUND <= s.a <= COEF_BOUND
    &&& -COEF_BOUND <= s.b <= COEF_BOUND
    &&& -COEF_BOUND <= s.c <= COEF_BOUND
    &&& -COEF_BOUND <= s.d <= COEF_BOUND
    &&& s.k <= u32::MAX
}

pub open spec fn sc_normalized(s: SModel) -> bool {
    s.k == 0 || !sc_all_even(s)
}

/// Every `Scalar` satisfies this of its model: bounded, canonical.
pub open spec fn sc_wf(s: SModel) -> bool {
    sc_in_range(s) && sc_normalized(s)
}

pub open spec fn sc_fit(s: SModel) -> Option<SModel> {
    if sc_in_range(s) {
        Some(s)
    } else {
        None
    }
}

pub open spec fn sc_neg(s: SModel) -> SModel {
    SModel { a: -s.a, b: -s.b, c: -s.c, d: -s.d, k: s.k }
}

/// Complex conjugate: negate the imaginary coefficients.
pub open spec fn sc_conj(s: SModel) -> SModel {
    SModel { a: s.a, b: s.b, c: -s.c, d: -s.d, k: s.k }
}

/// Sum over the common denominator 2^hi.k; callers pass the operand with the
/// larger exponent first.
pub open spec fn sc_raw_add(hi: SModel, lo: SModel) -> SModel {
    let f = pow2((hi.k - lo.k) as nat) as int;
    SModel { a: hi.a + lo.a * f, b: hi.b + lo.b * f, c: hi.c + lo.c * f, d: hi.d + lo.d * f, k: hi.k }
}

/// Exact sum, `None` when the result leaves the representable range
/// (or the exponents lie more than 63 apart, which for well-formed nonzero
/// operands also makes the sum unrepresentable).
pub open spec fn sc_add_spec(x: SModel, y: SModel) -> Option<SModel> {
    if sc_is_zero(x) {
        Some(y)
    } else if sc_is_zero(y) {
        Some(x)
    } else if x.k >= y.k {
        if x.k - y.k <= 63 {
            sc_fit(sc_norm(sc_raw_add(x, y)))
        } else {
            None
        }
    } else {
        if y.k - x.k <= 63 {
            sc_fit(sc_norm(sc_raw_add(y, x)))
        } else {
            None
        }
    }
}

/// Product in the ring: (a1 + b1*s + (c1 + d1*s)i)(a2 + b2*s + (c2 + d2*s)i)
/// with s = sqrt(2), s*s = 2, i*i = -1.
pub open spec fn sc_raw_mul(x: SModel, y: SModel) -> SModel {
    SModel {
        a: x.a * y.a + 2 * (x.b * y.b) - x.c * y.c - 2 * (x.d * y.d),
        b: x.a * y.b + x.b * y.a - x.c * y.d - x.d * y.c,
        c: x.a * y.c + x.c * y.a + 2 * (x.b * y.d) + 2 * (x.d * y.b),
        d: x.a * y.d + x.d * y.a + x.b * y.c + x.c * y.b,
        k: x.k + y.k,
    }
}

/// Exact product, `None` when the result leaves the representable range.
pub open spec fn sc_mul_spec(x: SModel, y: SModel) -> Option<SModel> {
    sc_fit(sc_norm(sc_raw_mul(x, y)))
}

pub open spec fn sc_make(a: int, b: int, c: int, d: int, k: nat) -> Option<SModel> {
    sc_fit(sc_norm(SModel { a, b, c, d, k }))
}

/// An exact complex scalar of the ring Z[sqrt(2), i] scaled by 1/2^k,
/// kept in canonical (fully reduced) form.
#[derive(Clone, Copy, PartialEq, Eq, Structural, Debug)]
pub struct Scalar {
    a: i64,
    b: i64,
    c: i64,
    d: i64,
    k: u32,
}

impl View for Scalar {
    type V = SModel;

    closed spec fn view(&self) -> SModel {
        SModel { a: self.a as int, b: self.b as int, c: self.c as int, d: self.d as int, k: self.k as nat }
    }
}

/// Two scalars are the same value exactly when their models agree.
pub proof fn lemma_scalar_eq_view(a: Scalar, b: Scalar)
    ensures
        (a == b) == (a@ == b@),
{
}

pub open spec fn opt_view(r: Option<Scalar>) -> Option<SModel> {
    match r {
        Some(s) => Some(s@),
        None => None,
    }
}

proof fn lemma_neg_parity(x: int)
    ensures
        ((-x) % 2 == 0) == (x % 2 == 0),
{
    if x % 2 == 0 {
        lemma_mod_multiples_vanish(-(x / 2), 0, 2);
        assert(-x == 2 * (-(x / 2)) + 0);
    } else {
        assert(x % 2 == 1);
        lemma_mod_multiples_vanish(-(x / 2) - 1, 1, 2);
        assert(-x == 2 * (-(x / 2) - 1) + 1);
    }
}

pub proof fn lemma_norm_zero_comps(s: SModel)
    requires
        sc_is_zero(s),
    ensures
        sc_norm(s) == sc_zero(),
    decreases s.k,
{
    if s.k > 0 {
        lemma_norm_zero_comps(sc_half(s));
    }
}

pub proof fn lemma_norm_normalized(s: SModel)
    ensures
        sc_normalized(sc_norm(s)),
    decreases s.k,
{
    if s.k > 0 && sc_all_even(s) {
        lemma_norm_normalized(sc_half(s));
    }
}

pub proof fn lemma_wf_fixpoint(s: SModel)
    requires
        sc_wf(s),
    ensures
        sc_norm(s) == s,
{
}

pub proof fn lemma_add_zero_right(x: SModel)
    requires
        sc_wf(x),
    ensures
        sc_add_spec(x, sc_zero()) == Some(x),
{
    if sc_is_zero(x) {
        assert(x == sc_zero());
    }
}

pub proof fn lemma_mul_one_left(y: SModel)
    requires
        sc_wf(y),
    ensures
        sc_mul_spec(sc_one(), y) == Some(y),
{
    assert(sc_raw_mul(sc_one(), y) == y);
    lemma_wf_fixpoint(y);
}

pub proof fn lemma_mul_zero_left(y: SModel)
    ensures
        sc_mul_spec(sc_zero(), y) == Some(sc_zero()),
{
    let r = sc_raw_mul(sc_zero(), y);
    assert(sc_is_zero(r));
    lemma_norm_zero_comps(r);
}


pub proof fn lemma_mul_one_right(x: SModel)
    requires
        sc_wf(x),
    ensures
        sc_mul_spec(x, sc_one()) == Some(x),
{
    assert(sc_raw_mul(x, sc_one()) == x);
    lemma_wf_fixpoint(x);
}

pub proof fn lemma_mul_zero_right(x: SModel)
    ensures
        sc_mul_spec(x, sc_zero()) == Some(sc_zero()),
{
    let r = sc_raw_mul(x, sc_zero());
    assert(sc_is_zero(r));
    lemma_norm_zero_comps(r);
}

/// The result of a successful addition is well formed.
pub proof fn lemma_add_wf(x: SModel, y: SModel)
    requires
        sc_wf(x),
        sc_wf(y),
        sc_add_spec(x, y) is Some,
    ensures
        sc_wf(sc_add_spec(x, y)->Some_0),
{
    if sc_is_zero(x) || sc_is_zero(y) {
    } else if x.k >= y.k {
        lemma_norm_normalized(sc_raw_add(x, y));
    } else {
        lemma_norm_normalized(sc_raw_add(y, x));
    }
}

/// The result of a successful multiplication is well formed.
pub proof fn lemma_mul_wf(x: SModel, y: SModel)
    requires
        sc_mul_spec(x, y) is Some,
    ensures
        sc_wf(sc_mul_spec(x, y)->Some_0),
{
    lemma_norm_normalized(sc_raw_mul(x, y));
}

const I128_MAG: i128 = 0x6000_0000_0000_0000_0000_0000_0000_0000;

fn is_even_i128(x: i128) -> (r: bool)
    requires
        -I128_MAG <= x <= I128_MAG,
    ensures
        r == (x % 2 == 0),
{
    if x >= 0 {
        (x as u128) % 2 == 0
    } else {
        let m: u128 = (-x) as u128;
        proof {
            lemma_neg_parity(x as int);
        }
        m % 2 == 0
    }
}

fn half_even_i128(x: i128) -> (r: i128)
    requires
        -I128_MAG <= x <= I128_MAG,
        x % 2 == 0,
    ensures
        r == x as int / 2,
{
    if x >= 0 {
        ((x as u128) / 2) as i128
    } else {
        let m: u128 = (-x) as u128;
        let mh: u128 = m / 2;
        proof {
            lemma_neg_parity(x as int);
            assert((m as int) % 2 == 0);
            assert(m as int == 2 * (mh as int));
            lemma_div_multiples_vanish(-(mh as int), 2);
            assert(x as int == 2 * (-(mh as int)));
        }
        -(mh as i128)
    }
}

/// Reduce an unnormalized wide representation to canonical form.
fn norm_i128(a0: i128, b0: i128, c0: i128, d0: i128, k0: u64) -> (r: (i128, i128, i128, i128, u64))
    requires
        -I128_MAG <= a0 <= I128_MAG,
        -I128_MAG <= b0 <= I128_MAG,
        -I128_MAG <= c0 <= I128_MAG,
        -I128_MAG <= d0 <= I128_MAG,
    ensures
        ((SModel { a: r.0 as int, b: r.1 as int, c: r.2 as int, d: r.3 as int, k: r.4 as nat })
            == sc_norm(SModel { a: a0 as int, b: b0 as int, c: c0 as int, d: d0 as int, k: k0 as nat })),
        -I128_MAG <= r.0 <= I128_MAG,
        -I128_MAG <= r.1 <= I128_MAG,
        -I128_MAG <= r.2 <= I128_MAG,
        -I128_MAG <= r.3 <= I128_MAG,
        r.4 <= k0,
{
    let ghost orig = SModel { a: a0 as int, b: b0 as int, c: c0 as int, d: d0 as int, k: k0 as nat };
    if a0 == 0 && b0 == 0 && c0 == 0 && d0 == 0 {
        proof {
            lemma_norm_zero_comps(orig);
        }
        return (0, 0, 0, 0, 0);
    }
    let mut a = a0;
    let mut b = b0;
    let mut c = c0;
    let mut d = d0;
    let mut k = k0;
    let mut go = true;
    while go && k > 0
        invariant
            -I128_MAG <= a <= I128_MAG,
            -I128_MAG <= b <= I128_MAG,
            -I128_MAG <= c <= I128_MAG,
            -I128_MAG <= d <= I128_MAG,
            k <= k0,
            (sc_norm(SModel { a: a as int, b: b as int, c: c as int, d: d as int, k: k as nat })
                == sc_norm(orig)),
            (!go ==> !sc_all_even(SModel { a: a as int, b: b as int, c: c as int, d: d as int, k: k as nat })),
        decreases k, (if go { 1int } else { 0int }),
    {
        let ghost cur = SModel { a: a as int, b: b as int, c: c as int, d: d as int, k: k as nat };
        if is_even_i128(a) && is_even_i128(b) && is_even_i128(c) && is_even_i128(d) {
            proof {
                assert(sc_all_even(cur));
                assert(sc_norm(cur) == sc_norm(sc_half(cur)));
            }
            let a2 = half_even_i128(a);
            let b2 = half_even_i128(b);
            let c2 = half_even_i128(c);
            let d2 = half_even_i128(d);
            proof {
                assert(a as int == 2 * (a2 as int) + a as int % 2);
            }
            a = a2;
            b = b2;
            c = c2;
            d = d2;
            k = k - 1;
        } else {
            go = false;
        }
    }
    (a, b, c, d, k)
}

fn fit_i128(a: i128, b: i128, c: i128, d: i128, k: u64) -> (r: Option<Scalar>)
    requires
        sc_normalized(SModel { a: a as int, b: b as int, c: c as int, d: d as int, k: k as nat }),
    ensures
        (opt_view(r) == sc_fit(SModel { a: a as int, b: b as int, c: c as int, d: d as int, k: k as nat })),
{
    let bd: i128 = COEF_BOUND as i128;
    if -bd <= a && a <= bd && -bd <= b && b <= bd && -bd <= c && c <= bd && -bd <= d && d <= bd
        && k <= u32::MAX as u64 {
        Some(Scalar { a: a as i64, b: b as i64, c: c as i64, d: d as i64, k: k as u32 })
    } else {
        None
    }
}

impl Scalar {
    /// Holds of every `Scalar` by construction.
    #[verifier::type_invariant]
    pub open spec fn type_wf(self) -> bool {
        sc_wf(self@)
    }

    /// The additive identity, 0.
    pub fn zero() -> (r: Scalar)
        ensures
            r@ == sc_zero(),
    {
        Scalar { a: 0, b: 0, c: 0, d: 0, k: 0 }
    }

    /// The multiplicative identity, 1.
    pub fn one() -> (r: Scalar)
        ensures
            r@ == sc_one(),
    {
        Scalar { a: 1, b: 0, c: 0, d: 0, k: 0 }
    }

    /// The Hadamard coefficient 1/sqrt(2), stored as (0 + 1*sqrt(2))/2.
    pub fn inv_sqrt2() -> (r: Scalar)
        ensures
            r@ == (SModel { a: 0, b: 1, c: 0, d: 0, k: 1 }),
    {
        Scalar { a: 0, b: 1, c: 0, d: 0, k: 1 }
    }

    /// Build the scalar ((a + b*sqrt(2)) + (c + d*sqrt(2))*i) / 2^k,
    /// reduced to canonical form; `None` when it cannot be represented.
    pub fn new(a: i64, b: i64, c: i64, d: i64, k: u32) -> (r: Option<Scalar>)
        ensures
            opt_view(r) == sc_make(a as int, b as int, c as int, d as int, k as nat),
    {
        let n = norm_i128(a as i128, b as i128, c as i128, d as i128, k as u64);
        proof {
            lemma_norm_normalized(SModel { a: a as int, b: b as int, c: c as int, d: d as int, k: k as nat });
        }
        fit_i128(n.0, n.1, n.2, n.3, n.4)
    }

    fn zero_comps(&self) -> (r: bool)
        ensures
            r == sc_is_zero(self@),
    {
        self.a == 0 && self.b == 0 && self.c == 0 && self.d == 0
    }

    /// Additive inverse.
    pub fn neg(&self) -> (r: Scalar)
        ensures
            r@ == sc_neg(self@),
    {
        proof {
            use_type_invariant(self);
            lemma_neg_parity(self.a as int);
            lemma_neg_parity(self.b as int);
            lemma_neg_parity(self.c as int);
            lemma_neg_parity(self.d as int);
        }
        Scalar { a: -self.a, b: -self.b, c: -self.c, d: -self.d, k: self.k }
    }

    /// Complex conjugate.
    pub fn conj(&self) -> (r: Scalar)
        ensures
            r@ == sc_conj(self@),
    {
        proof {
            use_type_invariant(self);
            lemma_neg_parity(self.c as int);
            lemma_neg_parity(self.d as int);
        }
        Scalar { a: self.a, b: self.b, c: -self.c, d: -self.d, k: self.k }
    }

    /// Exact sum; `None` when the result cannot be represented.
    pub fn add(&self, other: &Scalar) -> (r: Option<Scalar>)
        ensures
            opt_view(r) == sc_add_spec(self@, other@),
    {
        proof {
            use_type_invariant(self);
            use_type_invariant(other);
        }
        if self.zero_comps() {
            return Some(*other);
        }
        if other.zero_comps() {
            return Some(*self);
        }
        let (hi, lo) = if self.k >= other.k {
            (self, other)
        } else {
            (other, self)
        };
        let dk: u32 = hi.k - lo.k;
        if dk > 63 {
            return None;
        }
        let f: u64 = 1u64 << dk;
        proof {
            vstd::arithmetic::power2::lemma2_to64();
            vstd::arithmetic::power2::lemma2_to64_rest();
            vstd::arithmetic::power2::lemma_pow2_strictly_increases(dk as nat, 64);
            vstd::bits::lemma_u64_shl_is_mul(1u64, dk as u64);
            assert(f == pow2(dk as nat));
            vstd::arithmetic::power2::lemma_pow2_pos(dk as nat);
            if dk < 63 {
                vstd::arithmetic::power2::lemma_pow2_strictly_increases(dk as nat, 63);
            }
            assert(0 < f as int <= 0x8000_0000_0000_0000);
            lemma_scaled_bound(lo.a as int, f as int);
            lemma_scaled_bound(lo.b as int, f as int);
            lemma_scaled_bound(lo.c as int, f as int);
            lemma_scaled_bound(lo.d as int, f as int);
        }
        let fa: i128 = hi.a as i128 + lo.a as i128 * f as i128;
        let fb: i128 = hi.b as i128 + lo.b as i128 * f as i128;
        let fc: i128 = hi.c as i128 + lo.c as i128 * f as i128;
        let fd: i128 = hi.d as i128 + lo.d as i128 * f as i128;
        let n = norm_i128(fa, fb, fc, fd, hi.k as u64);
        proof {
            lemma_norm_normalized(sc_raw_add(hi@, lo@));
        }
        fit_i128(n.0, n.1, n.2, n.3, n.4)
    }

    /// Exact product; `None` when the result cannot be represented.
    pub fn mul(&self, other: &Scalar) -> (r: Option<Scalar>)
        ensures
            opt_view(r) == sc_mul_spec(self@, other@),
    {
        proof {
            use_type_invariant(self);
            use_type_invariant(other);
            lemma_prod_bound(self.a as int, other.a as int);
            lemma_prod_bound(self.a as int, other.b as int);
            lemma_prod_bound(self.a as int, other.c as int);
            lemma_prod_bound(self.a as int, other.d as int);
            lemma_prod_bound(self.b as int, other.a as int);
            lemma_prod_bound(self.b as int, other.b as int);
            lemma_prod_bound(self.b as int, other.c as int);
            lemma_prod_bound(self.b as int, other.d as int);
            lemma_prod_bound(self.c as int, other.a as int);
            lemma_prod_bound(self.c as int, other.b as int);
            lemma_prod_bound(self.c as int, other.c as int);
            lemma_prod_bound(self.c as int, other.d as int);
            lemma_prod_bound(self.d as int, other.a as int);
            lemma_prod_bound(self.d as int, other.b as int);
            lemma_prod_bound(self.d as int, other.c as int);
            lemma_prod_bound(self.d as int, other.d as int);
        }
        let xa = self.a as i128;
        let xb = self.b as i128;
        let xc = self.c as i128;
        let xd = self.d as i128;
        let ya = other.a as i128;
        let yb = other.b as i128;
        let yc = other.c as i128;
        let yd = other.d as i128;
        let ra: i128 = xa * ya + 2 * (xb * yb) - xc * yc - 2 * (xd * yd);
        let rb: i128 = xa * yb + xb * ya - xc * yd - xd * yc;
        let rc: i128 = xa * yc + xc * ya + 2 * (xb * yd) + 2 * (xd * yb);
        let rd: i128 = xa * yd + xd * ya + xb * yc + xc * yb;
        let rk: u64 = self.k as u64 + other.k as u64;
        let n = norm_i128(ra, rb, rc, rd, rk);
        proof {
            lemma_norm_normalized(sc_raw_mul(self@, other@));
        }
        fit_i128(n.0, n.1, n.2, n.3, n.4)
    }
}


/// Sign test for a + b*sqrt(2) >= 0 on aligned numerators.
pub open spec fn sign_nonneg(av: int, bv: int) -> bool {
    if av >= 0 && bv >= 0 {
        true
    } else if av < 0 && bv <= 0 {
        false
    } else if av >= 0 {
        av * av >= 2 * (bv * bv)
    } else {
        2 * (bv * bv) >= av * av
    }
}

/// Whether the real part (a + b*sqrt(2))/2^k of `s` reaches u/2^53; `None`
/// when the aligned numerators leave the exactly squarable range.
pub open spec fn real_ge_spec(s: SModel, u: u64) -> Option<bool> {
    if s.k > 53 {
        None
    } else {
        let f = pow2((53 - s.k) as nat) as int;
        let av = s.a * f - u;
        let bv = s.b * f;
        if -COEF_BOUND <= av <= COEF_BOUND && -COEF_BOUND <= bv <= COEF_BOUND {
            Some(sign_nonneg(av, bv))
        } else {
            None
        }
    }
}

impl Scalar {
    /// Decide whether the real part of this scalar reaches the dyadic
    /// threshold u/2^53; `Overflow` when the exact comparison cannot be
    /// carried out in the fixed-width arithmetic.
    pub fn real_ge(&self, u: u64) -> (r: Result<bool, Error>)
        requires
            u < 0x20_0000_0000_0000,
        ensures
            (match real_ge_spec(self@, u) {
                Some(b) => r == Ok::<bool, Error>(b),
                None => r == Err::<bool, Error>(Error::Overflow),
            }),
    {
        proof {
            use_type_invariant(self);
        }
        if self.k > 53 {
            return Err(Error::Overflow);
        }
        let sh: u32 = 53 - self.k;
        let f: u64 = 1u64 << sh;
        proof {
            vstd::arithmetic::power2::lemma2_to64();
            vstd::arithmetic::power2::lemma2_to64_rest();
            vstd::arithmetic::power2::lemma_pow2_strictly_increases(sh as nat, 64);
            vstd::bits::lemma_u64_shl_is_mul(1u64, sh as u64);
            assert(f == pow2(sh as nat));
            vstd::arithmetic::power2::lemma_pow2_pos(sh as nat);
            if sh < 63 {
                vstd::arithmetic::power2::lemma_pow2_strictly_increases(sh as nat, 63);
            }
            lemma_scaled_bound(self.a as int, f as int);
            lemma_scaled_bound(self.b as int, f as int);
        }
        let av: i128 = self.a as i128 * f as i128 - u as i128;
        let bv: i128 = self.b as i128 * f as i128;
        let bd: i128 = COEF_BOUND as i128;
        if !(-bd <= av && av <= bd && -bd <= bv && bv <= bd) {
            return Err(Error::Overflow);
        }
        proof {
            lemma_prod_bound(av as int, av as int);
            lemma_prod_bound(bv as int, bv as int);
        }
        let r = if av >= 0 && bv >= 0 {
            true
        } else if av < 0 && bv <= 0 {
            false
        } else if av >= 0 {
            av * av >= 2 * (bv * bv)
        } else {
            2 * (bv * bv) >= av * av
        };
        Ok(r)
    }
}

/// |x| <= 2^62 and 0 < f <= 2^63 give |x * f| <= 2^125.
proof fn lemma_scaled_bound(x: int, f: int)
    by (nonlinear_arith)
    requires
        -0x4000_0000_0000_0000 <= x <= 0x4000_0000_0000_0000,
        0 < f <= 0x8000_0000_0000_0000,
    ensures
        -0x2000_0000_0000_0000_0000_0000_0000_0000 <= x * f
            <= 0x2000_0000_0000_0000_0000_0000_0000_0000,
{
}

/// |x|, |y| <= 2^62 give |x * y| <= 2^124.
proof fn lemma_prod_bound(x: int, y: int)
    by (nonlinear_arith)
    requires
        -0x4000_0000_0000_0000 <= x <= 0x4000_0000_0000_0000,
        -0x4000_0000_0000_0000 <= y <= 0x4000_0000_0000_0000,
    ensures
        -0x1000_0000_0000_0000_0000_0000_0000_0000 <= x * y
            <= 0x1000_0000_0000_0000_0000_0000_0000_0000,
{
}

} // verus!
