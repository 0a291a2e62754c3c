//! The scalar field of BLS12-381 as a plain value: four canonical 64-bit
//! limbs, little-endian. Arithmetic goes through `ark_ff`.
use vstd::prelude::*;
use ark_ff::{BigInt, FftField, Field, PrimeField, UniformRand};
use ark_std::rand::rngs::StdRng;
use ark_bls12_381::Fr;

verus! {

/// The order `r` of the BLS12-381 scalar field.
pub open spec fn modulus() -> nat {
    52435875175126190479447740508185965837690552500527637822603658699938581184513nat
}

pub open spec fn fadd(a: nat, b: nat) -> nat {
    (a + b) % modulus()
}

pub open spec fn fneg(a: nat) -> nat {
    ((modulus() - a % modulus()) as nat) % modulus()
}

pub open spec fn fsub(a: nat, b: nat) -> nat {
    fadd(a, fneg(b))
}

pub open spec fn fmul(a: nat, b: nat) -> nat {
    (a * b) % modulus()
}

/// `a^e` in the field.
pub open spec fn fpow(a: nat, e: nat) -> nat
    decreases e,
{
    if e == 0 {
        1
    } else {
        fmul(fpow(a, (e - 1) as nat), a)
    }
}

/// The multiplicative inverse by Fermat's little theorem (zero for zero).
pub open spec fn finv(a: nat) -> nat {
    fpow(a, (modulus() - 2) as nat)
}

pub open spec fn limbs_nat(l: [u64; 4]) -> nat {
    l[0] as nat + l[1] as nat * 0x1_0000_0000_0000_0000nat
        + l[2] as nat * 0x1_0000_0000_0000_0000_0000_0000_0000_0000nat
        + l[3] as nat * 0x1_0000_0000_0000_0000_0000_0000_0000_0000_0000_0000_0000_0000nat
}

/// An element of the scalar field, held as its canonical integer in
/// `[0, modulus())`.
#[derive(Clone, Copy, Debug, PartialEq, Eq)]
pub struct Scalar {
    pub(crate) limbs: [u64; 4],
}

impl View for Scalar {
    type V = nat;

    closed spec fn view(&self) -> nat {
        limbs_nat(self.limbs)
    }
}

impl Scalar {
    #[verifier::type_invariant]
    pub closed spec fn canonical(self) -> bool {
        limbs_nat(self.limbs) < modulus()
    }

    /// What the type invariant says of the value.
    pub proof fn lemma_canonical(s: Scalar)
        requires
            s.canonical(),
        ensures
            s@ < modulus(),
    {
    }

    /// The field element `x`.
    pub fn from_u64(x: u64) -> (r: Scalar)
        ensures
            r@ == x as nat,
    {
        Scalar { limbs: [x, 0, 0, 0] }
    }

    pub fn zero() -> (r: Scalar)
        ensures
            r@ == 0,
    {
        Scalar::from_u64(0)
    }

    pub fn one() -> (r: Scalar)
        ensures
            r@ == 1,
    {
        Scalar::from_u64(1)
    }

    /// The canonical little-endian limbs.
    pub fn to_limbs(&self) -> (r: [u64; 4])
        ensures
            limbs_nat(r) == self@,
    {
        self.limbs
    }

    pub fn is_zero(&self) -> (b: bool)
        ensures
            b == (self@ == 0),
    {
        self.limbs[0] == 0 && self.limbs[1] == 0 && self.limbs[2] == 0 && self.limbs[3] == 0
    }

    pub fn is_one(&self) -> (b: bool)
        ensures
            b == (self@ == 1),
    {
        self.limbs[0] == 1 && self.limbs[1] == 0 && self.limbs[2] == 0 && self.limbs[3] == 0
    }
}


/// Field sums and products of anything are canonical.
pub proof fn lemma_field_ops_canonical(a: nat, b: nat)
    ensures
        fadd(a, b) < modulus(),
        fmul(a, b) < modulus(),
        fneg(a) < modulus(),
{
}

/// In the field, `sum + t + u` is `sum` when `t + u` is zero, with the
/// terms reduced or not.
proof fn lemma_fadd_cancel(s: nat, t: nat, u: nat)
    requires
        (t + u) % modulus() == 0,
    ensures
        (s + t + u) % modulus() == s % modulus(),
{
    let p = modulus() as int;
    vstd::arithmetic::div_mod::lemma_fundamental_div_mod((t + u) as int, p);
    let k = (t + u) as int / p;
    vstd::arithmetic::div_mod::lemma_mod_multiples_vanish(k, s as int, p);
    assert(s + t + u == s + p * k);
}

/// `x * d + x * (-d)` is zero in the field.
proof fn lemma_fmul_fneg(x: nat, d: nat)
    ensures
        (fmul(x, d) + fmul(x, fneg(d))) % modulus() == 0,
{
    let p = modulus() as int;
    let dm = d % modulus();
    vstd::arithmetic::div_mod::lemma_mul_mod_noop_right(x as int, d as int, p);
    if dm == 0 {
        vstd::arithmetic::div_mod::lemma_mod_self_0(p);
        assert(fneg(d) == 0);
        assert(x * dm == 0) by (nonlinear_arith)
            requires
                dm == 0,
        ;
    } else {
        vstd::arithmetic::div_mod::lemma_small_mod((p - dm) as nat, p as nat);
        assert(fneg(d) == p - dm);
        vstd::arithmetic::div_mod::lemma_add_mod_noop((x * dm) as int, (x * (p - dm)) as int, p);
        assert(x * dm + x * (p - dm) == x * p) by (nonlinear_arith);
        vstd::arithmetic::div_mod::lemma_mod_multiples_basic(x as int, p);
        vstd::arithmetic::mul::lemma_mul_is_commutative(x as int, p);
    }
    vstd::arithmetic::div_mod::lemma_add_mod_noop(fmul(x, d) as int, fmul(x, fneg(d)) as int, p);
    vstd::arithmetic::div_mod::lemma_mul_mod_noop_right(x as int, fneg(d) as int, p);
    vstd::arithmetic::div_mod::lemma_add_mod_noop((x * dm) as int, (x * fneg(d)) as int, p);
}

/// Field products associate and commute: `(a * b) * (c * d) = (a * c) * (b * d)`.
proof fn lemma_fmul_swap(a: nat, b: nat, c: nat, d: nat)
    ensures
        fmul(fmul(a, b), fmul(c, d)) == fmul(fmul(a, c), fmul(b, d)),
{
    let p = modulus() as int;
    vstd::arithmetic::div_mod::lemma_mul_mod_noop_general((a * b) as int, (c * d) as int, p);
    vstd::arithmetic::div_mod::lemma_mul_mod_noop_general((a * c) as int, (b * d) as int, p);
    assert((a * b) * (c * d) == (a * c) * (b * d)) by (nonlinear_arith);
}

/// `a * (b + c) = a * b + a * c` in the field.
proof fn lemma_fmul_distrib(a: nat, b: nat, c: nat)
    ensures
        fmul(a, fadd(b, c)) == fadd(fmul(a, b), fmul(a, c)),
{
    let p = modulus() as int;
    vstd::arithmetic::div_mod::lemma_mul_mod_noop_right(a as int, (b + c) as int, p);
    assert(a * (b + c) == a * b + a * c) by (nonlinear_arith);
    vstd::arithmetic::div_mod::lemma_add_mod_noop((a * b) as int, (a * c) as int, p);
}

/// Sums of three and more terms reduce once, modulo any `m > 0`.
proof fn lemma_mod_sum3(x: int, y: int, z: int, m: int)
    requires
        m > 0,
    ensures
        ((x + y) % m + z) % m == (x + y + z) % m,
        (x + (y + z) % m) % m == (x + y + z) % m,
        ((x + z) % m + y) % m == (x + y + z) % m,
{
    vstd::arithmetic::div_mod::lemma_add_mod_noop_right(z, x + y, m);
    vstd::arithmetic::div_mod::lemma_add_mod_noop_right(x, y + z, m);
    vstd::arithmetic::div_mod::lemma_add_mod_noop_right(y, x + z, m);
    assert(z + (x + y) == x + y + z);
    assert(y + (x + z) == x + y + z);
}

/// `(a + b) + c = a + (b + c)` in the field.
pub proof fn lemma_fadd_assoc3(a: nat, b: nat, c: nat)
    ensures
        fadd(fadd(a, b), c) == fadd(a, fadd(b, c)),
{
    lemma_mod_sum3(a as int, b as int, c as int, modulus() as int);
}

/// `a + b = b + a` in the field.
pub proof fn lemma_fadd_comm(a: nat, b: nat)
    ensures
        fadd(a, b) == fadd(b, a),
{
}

/// `(a + b) + c = (a + c) + b` in the field.
pub proof fn lemma_fadd_swap(a: nat, b: nat, c: nat)
    ensures
        fadd(fadd(a, b), c) == fadd(fadd(a, c), b),
{
    lemma_mod_sum3(a as int, b as int, c as int, modulus() as int);
}

/// `d r + d (rn - r) = d rn + (d r + d (-r))`, the last sum being zero in the
/// field: `d r + d (rn - r) = d rn`.
proof fn lemma_shift_pair(d: nat, r: nat, rn: nat)
    ensures
        fadd(fmul(d, r), fmul(d, fsub(rn, r))) == fmul(d, rn),
{
    let m = modulus() as int;
    let t1 = fmul(d, r);
    let u = fmul(d, rn);
    let v = fmul(d, fneg(r));
    lemma_fmul_distrib(d, rn, fneg(r));
    lemma_fmul_fneg(d, r);
    lemma_mod_sum3(t1 as int, u as int, v as int, m);
    assert(fadd(t1, (u + v) as nat % modulus()) == (t1 + u + v) % modulus());
    lemma_fadd_cancel(u, t1, v);
    assert(t1 + u + v == u + t1 + v);
    vstd::arithmetic::div_mod::lemma_small_mod(u, modulus());
}

/// `d r + a + e + d (rn - r) + s = d rn + a + (e + s)` in the field, the
/// sums taken left to right.
pub proof fn lemma_rand_shift(d: nat, r: nat, rn: nat, a: nat, e: nat, s: nat)
    ensures
        fadd(fadd(fadd(fadd(fmul(d, r), a), e), fmul(d, fsub(rn, r))), s) == fadd(fadd(fmul(d, rn), a), fadd(e, s)),
{
    let t1 = fmul(d, r);
    let t2 = fmul(d, fsub(rn, r));
    let x = fadd(t1, a);
    // ((t1 + a) + e) + t2 = (t1 + t2) + (a + e)
    lemma_fadd_swap(x, e, t2);
    lemma_fadd_swap(t1, a, t2);
    lemma_fadd_assoc3(fadd(t1, t2), a, e);
    lemma_shift_pair(d, r, rn);
    // ... + s
    lemma_fadd_assoc3(fmul(d, rn), fadd(a, e), s);
    lemma_fadd_assoc3(a, e, s);
    lemma_fadd_assoc3(fmul(d, rn), a, fadd(e, s));
}

/// `e * (z + c) = e * z + e * c` in the field.
pub proof fn lemma_fmul_fadd(e: nat, z: nat, c: nat)
    ensures
        fmul(e, fadd(z, c)) == fadd(fmul(e, z), fmul(e, c)),
{
    lemma_fmul_distrib(e, z, c);
}

/// `x` and `y` are the same element of the field.
#[verifier::opaque]
pub open spec fn fcong(x: int, y: int) -> bool {
    x % (modulus() as int) == y % (modulus() as int)
}

proof fn lemma_mod_cong_add(a: int, b: int, x: int, y: int, m: int)
    requires
        m > 0,
        a % m == x % m,
        b % m == y % m,
    ensures
        ((a + b) % m) % m == (x + y) % m,
{
    vstd::arithmetic::div_mod::lemma_add_mod_noop(a, b, m);
    vstd::arithmetic::div_mod::lemma_add_mod_noop(x, y, m);
    vstd::arithmetic::div_mod::lemma_mod_twice(a + b, m);
}

proof fn lemma_mod_cong_mul(a: int, b: int, x: int, y: int, m: int)
    requires
        m > 0,
        a % m == x % m,
        b % m == y % m,
    ensures
        ((a * b) % m) % m == (x * y) % m,
{
    vstd::arithmetic::div_mod::lemma_mul_mod_noop_general(a, b, m);
    vstd::arithmetic::div_mod::lemma_mul_mod_noop_general(x, y, m);
    vstd::arithmetic::div_mod::lemma_mod_twice(a * b, m);
}

proof fn lemma_mod_cong_neg(a: int, x: int, m: int)
    requires
        m > 0,
        a % m == x % m,
    ensures
        ((m - a % m) % m) % m == (0 - x) % m,
{
    vstd::arithmetic::div_mod::lemma_mod_multiples_vanish(1, 0 - a % m, m);
    assert(m * 1 + (0 - a % m) == m - a % m);
    vstd::arithmetic::div_mod::lemma_mod_twice(m - a % m, m);
    vstd::arithmetic::div_mod::lemma_sub_mod_noop_right(0, a, m);
    vstd::arithmetic::div_mod::lemma_sub_mod_noop_right(0, x, m);
}

/// Same elements add up to the same element.
pub proof fn lemma_icong_add(x1: int, y1: int, x2: int, y2: int)
    requires
        fcong(x1, y1),
        fcong(x2, y2),
    ensures
        fcong(x1 + x2, y1 + y2),
{
    reveal(fcong);
    vstd::arithmetic::div_mod::lemma_add_mod_noop(x1, x2, modulus() as int);
    vstd::arithmetic::div_mod::lemma_add_mod_noop(y1, y2, modulus() as int);
}

/// Being the same element is transitive.
pub proof fn lemma_icong_trans(x: int, y: int, z: int)
    requires
        fcong(x, y),
        fcong(y, z),
    ensures
        fcong(x, z),
{
    reveal(fcong);
}

/// Being the same element is symmetric.
pub proof fn lemma_icong_sym(x: int, y: int)
    requires
        fcong(x, y),
    ensures
        fcong(y, x),
{
    reveal(fcong);
}

/// Multiplying by the same number keeps elements the same.
pub proof fn lemma_icong_mul(c: int, x: int, y: int)
    requires
        fcong(x, y),
    ensures
        fcong(c * x, c * y),
{
    reveal(fcong);
    vstd::arithmetic::div_mod::lemma_mul_mod_noop_right(c, x, modulus() as int);
    vstd::arithmetic::div_mod::lemma_mul_mod_noop_right(c, y, modulus() as int);
}

/// Every element is itself.
pub proof fn lemma_fcong_refl(a: int)
    ensures
        fcong(a, a),
{
    reveal(fcong);
}

/// Sums of the same elements are the same element.
pub proof fn lemma_fcong_add(a: nat, b: nat, x: int, y: int)
    requires
        fcong(a as int, x),
        fcong(b as int, y),
    ensures
        fcong(fadd(a, b) as int, x + y),
{
    reveal(fcong);
    lemma_mod_cong_add(a as int, b as int, x, y, modulus() as int);
}

/// Products of the same elements are the same element.
pub proof fn lemma_fcong_mul(a: nat, b: nat, x: int, y: int)
    requires
        fcong(a as int, x),
        fcong(b as int, y),
    ensures
        fcong(fmul(a, b) as int, x * y),
{
    reveal(fcong);
    lemma_mod_cong_mul(a as int, b as int, x, y, modulus() as int);
}

/// Negations of the same element are the same element.
pub proof fn lemma_fcong_neg(a: nat, x: int)
    requires
        fcong(a as int, x),
    ensures
        fcong(fneg(a) as int, 0 - x),
{
    reveal(fcong);
    lemma_mod_cong_neg(a as int, x, modulus() as int);
}

/// Differences of the same elements are the same element.
pub proof fn lemma_fcong_sub(a: nat, b: nat, x: int, y: int)
    requires
        fcong(a as int, x),
        fcong(b as int, y),
    ensures
        fcong(fsub(a, b) as int, x - y),
{
    lemma_fcong_neg(b, y);
    lemma_fcong_add(a, fneg(b), x, 0 - y);
}

/// Two reduced values of the same element are equal.
pub proof fn lemma_fcong_eq(a: nat, b: nat, x: int)
    requires
        fcong(a as int, x),
        fcong(b as int, x),
        a < modulus(),
        b < modulus(),
    ensures
        a == b,
{
    reveal(fcong);
    vstd::arithmetic::div_mod::lemma_small_mod(a, modulus());
    vstd::arithmetic::div_mod::lemma_small_mod(b, modulus());
}

/// The exponent of a verification check, `A * B + X * G + C * D` in the
/// field, with the products added left to right.
pub open spec fn check_exp(a: nat, b: nat, x: nat, g: nat, c: nat, d: nat) -> nat {
    fadd(fadd(fadd(0, fmul(a, b)), fmul(x, g)), fmul(c, d))
}

/// `(a / r1) * (b * r1) = a * b` in the field, for an inverse `i1` of `r1`.
proof fn lemma_cancel_ab(a: nat, b: nat, r1: nat, i1: nat)
    requires
        fmul(i1, r1) == 1,
    ensures
        fmul(fmul(a, i1), fmul(b, r1)) == fmul(a, b),
{
    let p = modulus() as int;
    vstd::arithmetic::div_mod::lemma_mul_mod_noop_general((a * i1) as int, (b * r1) as int, p);
    assert((a * i1) * (b * r1) == (a * b) * (i1 * r1)) by (nonlinear_arith);
    vstd::arithmetic::div_mod::lemma_mul_mod_noop_right((a * b) as int, (i1 * r1) as int, p);
    assert((a * b) * 1 == a * b) by (nonlinear_arith);
}

/// `(a / r1) * (d * (r1 * r2)) = (a * r2) * d` in the field, for an inverse
/// `i1` of `r1`.
proof fn lemma_cancel_t(a: nat, d: nat, r1: nat, r2: nat, i1: nat)
    requires
        fmul(i1, r1) == 1,
    ensures
        fmul(fmul(a, i1), fmul(d, fmul(r1, r2))) == fmul(fmul(a, r2), d),
{
    let p = modulus() as int;
    let q = fmul(r1, r2);
    vstd::arithmetic::div_mod::lemma_mul_mod_noop_right(d as int, (r1 * r2) as int, p);
    assert(fmul(d, q) as int == (d * (r1 * r2)) as int % p);
    vstd::arithmetic::div_mod::lemma_mul_mod_noop_general((a * i1) as int, (d * (r1 * r2)) as int, p);
    assert((a * i1) * (d * (r1 * r2)) == (i1 * r1) * ((a * r2) * d)) by (nonlinear_arith);
    vstd::arithmetic::div_mod::lemma_mul_mod_noop_left((i1 * r1) as int, ((a * r2) * d) as int, p);
    assert(1 * ((a * r2) * d) == (a * r2) * d) by (nonlinear_arith);
    vstd::arithmetic::div_mod::lemma_mul_mod_noop_left((a * r2) as int, d as int, p);
}

/// `(c + e) * n = c * n + e * n` in the field.
proof fn lemma_distrib_right(c: nat, e: nat, n: nat)
    ensures
        fmul(fadd(c, e), n) == fadd(fmul(c, n), fmul(e, n)),
{
    let p = modulus() as int;
    vstd::arithmetic::div_mod::lemma_mul_mod_noop_left((c + e) as int, n as int, p);
    assert((c + e) * n == c * n + e * n) by (nonlinear_arith);
    vstd::arithmetic::div_mod::lemma_add_mod_noop((c * n) as int, (e * n) as int, p);
}

/// Re-randomizing `(A, B, C)` into `(A / r1, r1 * B + r1 * r2 * delta,
/// C + r2 * A)` leaves the exponent `A * B + X * G - C * delta` of the
/// verification check as it is, for an inverse `i1` of `r1`.
pub proof fn lemma_rerandomized_check(a: nat, b: nat, c: nat, x: nat, g: nat, delta: nat, r1: nat, r2: nat, i1: nat)
    requires
        fmul(i1, r1) == 1,
    ensures
        check_exp(
            fmul(a, i1),
            fadd(fmul(b, r1), fmul(delta, fmul(r1, r2))),
            x,
            g,
            fadd(c, fmul(a, r2)),
            fneg(delta),
        ) == check_exp(a, b, x, g, c, fneg(delta)),
{
    let p = modulus();
    let pp = p as int;
    let n = fneg(delta);
    let a2 = fmul(a, i1);
    let ab = fmul(a, b);
    let ar2 = fmul(a, r2);
    let xg = fmul(x, g);
    let cn = fmul(c, n);
    let u = fmul(ar2, n);
    let tt = fmul(ar2, delta);
    lemma_fmul_distrib(a2, fmul(b, r1), fmul(delta, fmul(r1, r2)));
    lemma_cancel_ab(a, b, r1, i1);
    lemma_cancel_t(a, delta, r1, r2, i1);
    lemma_distrib_right(c, ar2, n);
    lemma_fmul_fneg(ar2, delta);
    let s1 = fadd(ab, tt);
    assert(fmul(a2, fadd(fmul(b, r1), fmul(delta, fmul(r1, r2)))) == s1);
    assert(fmul(fadd(c, ar2), n) == fadd(cn, u));
    vstd::arithmetic::div_mod::lemma_small_mod(s1, p);
    vstd::arithmetic::div_mod::lemma_small_mod(ab, p);
    vstd::arithmetic::div_mod::lemma_add_mod_noop((ab + tt) as int, xg as int, pp);
    vstd::arithmetic::div_mod::lemma_mod_twice((ab + tt) as int, pp);
    vstd::arithmetic::div_mod::lemma_small_mod(xg, p);
    vstd::arithmetic::div_mod::lemma_add_mod_noop((ab + tt + xg) as int, (cn + u) as int, pp);
    vstd::arithmetic::div_mod::lemma_mod_twice((ab + tt + xg) as int, pp);
    vstd::arithmetic::div_mod::lemma_mod_twice((cn + u) as int, pp);
    lemma_fadd_cancel(ab + xg + cn, tt, u);
    vstd::arithmetic::div_mod::lemma_add_mod_noop((ab + xg) as int, cn as int, pp);
    vstd::arithmetic::div_mod::lemma_small_mod(cn, p);
    vstd::arithmetic::div_mod::lemma_mod_twice((ab + xg) as int, pp);
    assert(fadd(0, s1) == s1);
    assert(fadd(0, ab) == ab);
}

/// A power of two that is at most `2^32`, the largest subgroup of two-power
/// order in the scalar field.
pub open spec fn is_fft_size(n: nat) -> bool {
    exists|k: nat| k <= 32 && n == vstd::arithmetic::power2::pow2(k)
}

/// The root of unity of order `n` that `ark_ff` picks.
pub uninterp spec fn root_of_unity_of(n: nat) -> nat;

/// The seeded random generator of `ark_std`, carried through as is.
#[verifier::external_type_specification]
#[verifier::external_body]
pub struct ExStdRng(StdRng);

/// `Fr + Fr` of `ark_ff`: the sum modulo r.
#[verifier::external_body]
pub(crate) fn fr_add(a: &Scalar, b: &Scalar) -> (r: Scalar)
    ensures
        r@ == fadd(a@, b@),
{
    let x = Fr::from_bigint(BigInt::new(a.limbs)).unwrap() + Fr::from_bigint(BigInt::new(b.limbs)).unwrap();
    Scalar { limbs: x.into_bigint().0 }
}

/// `Fr - Fr` of `ark_ff`: the difference modulo r.
#[verifier::external_body]
pub(crate) fn fr_sub(a: &Scalar, b: &Scalar) -> (r: Scalar)
    ensures
        r@ == fsub(a@, b@),
{
    let x = Fr::from_bigint(BigInt::new(a.limbs)).unwrap() - Fr::from_bigint(BigInt::new(b.limbs)).unwrap();
    Scalar { limbs: x.into_bigint().0 }
}

/// `Fr * Fr` of `ark_ff`: the product modulo r.
#[verifier::external_body]
pub(crate) fn fr_mul(a: &Scalar, b: &Scalar) -> (r: Scalar)
    ensures
        r@ == fmul(a@, b@),
{
    let x = Fr::from_bigint(BigInt::new(a.limbs)).unwrap() * Fr::from_bigint(BigInt::new(b.limbs)).unwrap();
    Scalar { limbs: x.into_bigint().0 }
}

/// `-Fr` of `ark_ff`: the additive inverse modulo r.
#[verifier::external_body]
pub(crate) fn fr_neg(a: &Scalar) -> (r: Scalar)
    ensures
        r@ == fneg(a@),
{
    let x = -Fr::from_bigint(BigInt::new(a.limbs)).unwrap();
    Scalar { limbs: x.into_bigint().0 }
}

/// `Field::inverse` of `ark_ff`: `None` exactly for zero, else the element
/// whose product with `a` is one.
#[verifier::external_body]
pub(crate) fn fr_inverse(a: &Scalar) -> (r: Option<Scalar>)
    ensures
        r is None <==> a@ == 0,
        r matches Some(x) ==> x@ == finv(a@) && fmul(x@, a@) == 1,
{
    Fr::from_bigint(BigInt::new(a.limbs)).unwrap().inverse().map(|x| Scalar { limbs: x.into_bigint().0 })
}

/// `Field::pow` of `ark_ff` with a one-limb exponent.
#[verifier::external_body]
pub(crate) fn fr_pow(a: &Scalar, e: u64) -> (r: Scalar)
    ensures
        r@ == fpow(a@, e as nat),
{
    let x = Fr::from_bigint(BigInt::new(a.limbs)).unwrap().pow([e]);
    Scalar { limbs: x.into_bigint().0 }
}

/// `FftField::get_root_of_unity` of `ark_ff` on a power of two `n` within
/// the two-adicity: the primitive two-adic root of unity squared until its
/// order is `n`. So its order is exactly `n`, and its square is the root
/// that the same function gives for `n / 2`.
#[verifier::external_body]
pub(crate) fn fr_root_of_unity(n: u64) -> (r: Scalar)
    requires
        is_fft_size(n as nat),
    ensures
        r@ == root_of_unity_of(n as nat),
        fpow(r@, n as nat) == 1,
        forall|k: nat| 0 < k < n ==> #[trigger] fpow(r@, k) != 1,
        n >= 2 ==> root_of_unity_of((n / 2) as nat) == fmul(r@, r@),
{
    let x = Fr::get_root_of_unity(n).unwrap();
    Scalar { limbs: x.into_bigint().0 }
}

/// `FftField::GENERATOR` of the BLS12-381 scalar field, which its
/// configuration sets to 7.
#[verifier::external_body]
pub(crate) fn fr_generator() -> (r: Scalar)
    ensures
        r@ == 7,
{
    Scalar { limbs: Fr::GENERATOR.into_bigint().0 }
}

/// `UniformRand::rand` of `ark_ff` on the given generator: some element.
#[verifier::external_body]
pub(crate) fn fr_rand(rng: &mut StdRng) -> (r: Scalar) {
    Scalar { limbs: Fr::rand(rng).into_bigint().0 }
}

/// `UniformRand::rand` of `ark_ff` on a fresh `ark_std::test_rng()`: some
/// element (the same one each time, which is not stated).
#[verifier::external_body]
pub(crate) fn fr_rand_test_rng() -> (r: Scalar) {
    Scalar { limbs: Fr::rand(&mut ark_std::test_rng()).into_bigint().0 }
}

impl Scalar {
    pub fn add(&self, other: &Scalar) -> (r: Scalar)
        ensures
            r@ == fadd(self@, other@),
    {
        fr_add(self, other)
    }

    pub fn sub(&self, other: &Scalar) -> (r: Scalar)
        ensures
            r@ == fsub(self@, other@),
    {
        fr_sub(self, other)
    }

    pub fn mul(&self, other: &Scalar) -> (r: Scalar)
        ensures
            r@ == fmul(self@, other@),
    {
        fr_mul(self, other)
    }

    pub fn neg(&self) -> (r: Scalar)
        ensures
            r@ == fneg(self@),
    {
        fr_neg(self)
    }

    pub fn inverse(&self) -> (r: Option<Scalar>)
        ensures
            r is None <==> self@ == 0,
            r matches Some(x) ==> x@ == finv(self@) && fmul(x@, self@) == 1,
    {
        fr_inverse(self)
    }

    pub fn pow(&self, e: u64) -> (r: Scalar)
        ensures
            r@ == fpow(self@, e as nat),
    {
        fr_pow(self, e)
    }
}

} // verus!
