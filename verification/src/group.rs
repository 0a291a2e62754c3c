//! The source groups G1, G2 of BLS12-381 as plain values (their canonical
//! uncompressed encodings), and a common interface over scalars and group
//! elements: the operations that the FFT and the proof algebra use.
use vstd::prelude::*;
use crate::field::{fadd, finv, fmul, fneg, fpow, fsub, is_fft_size, root_of_unity_of, Scalar, fr_add, fr_mul, fr_sub};
use ark_bls12_381::{Fr, G1Affine, G1Projective, G2Affine, G2Projective};
use ark_ec::{AffineRepr, CurveGroup, VariableBaseMSM};
use ark_ec::pairing::Pairing;
use ark_ff::{BigInt, PrimeField};
use ark_poly::{EvaluationDomain, GeneralEvaluationDomain};
use ark_serialize::{CanonicalDeserialize, CanonicalSerialize};
use ark_std::rand::rngs::StdRng;
use ark_std::UniformRand;

verus! {

/// An element of G1, held as its canonical uncompressed affine encoding.
#[derive(Clone, Copy, Debug, PartialEq, Eq)]
pub struct G1Point {
    bytes: [u8; 96],
}

/// An element of G2, held as its canonical uncompressed affine encoding.
#[derive(Clone, Copy, Debug, PartialEq, Eq)]
pub struct G2Point {
    bytes: [u8; 192],
}

impl G1Point {
    /// The encoding.
    pub fn to_bytes(&self) -> (r: [u8; 96])
        ensures
            r == self.spec_bytes(),
    {
        self.bytes
    }

    pub closed spec fn spec_bytes(self) -> [u8; 96] {
        self.bytes
    }
}

impl G2Point {
    /// The encoding.
    pub fn to_bytes(&self) -> (r: [u8; 192])
        ensures
            r == self.spec_bytes(),
    {
        self.bytes
    }

    pub closed spec fn spec_bytes(self) -> [u8; 192] {
        self.bytes
    }
}

/// The identity of G1 (the encoding with only the infinity flag set).
pub open spec fn g1_identity() -> G1Point {
    choose|p: G1Point| p.spec_bytes()@ =~= Seq::new(96, |i: int| if i == 0 { 64u8 } else { 0u8 })
}

/// The exponent of a point of G1: the `k < r` with `P = k * G` for the
/// generator `G` of `G1Affine::generator()` in `ark_ec`. G1 is a group of
/// prime order `r` (ark-ec, `lib.rs`), and every point held is in it, so
/// this is a function of the point alone.
pub uninterp spec fn g1_exp(p: G1Point) -> nat;

/// The exponent of a point of G2 with respect to `G2Affine::generator()`.
pub uninterp spec fn g2_exp(p: G2Point) -> nat;

/// The encoding of `e(G, H)^k` in the target group, for the generators `G`,
/// `H` of G1, G2 (what `Pairing::pairing` of `k * G` and `H` encodes).
pub uninterp spec fn gt_of_exp(k: nat) -> Seq<u8>;

/// The sum in G1.
pub uninterp spec fn g1_add_of(a: G1Point, b: G1Point) -> G1Point;

/// The difference in G1.
pub uninterp spec fn g1_sub_of(a: G1Point, b: G1Point) -> G1Point;

/// The multiple `k * p` in G1.
pub uninterp spec fn g1_mul_of(p: G1Point, k: nat) -> G1Point;

/// The identity of G2 (the encoding with only the infinity flag set).
pub open spec fn g2_identity() -> G2Point {
    choose|p: G2Point| p.spec_bytes()@ =~= Seq::new(192, |i: int| if i == 0 { 64u8 } else { 0u8 })
}

/// The sum in G2.
pub uninterp spec fn g2_add_of(a: G2Point, b: G2Point) -> G2Point;

/// The difference in G2.
pub uninterp spec fn g2_sub_of(a: G2Point, b: G2Point) -> G2Point;

/// The multiple `k * p` in G2.
pub uninterp spec fn g2_mul_of(p: G2Point, k: nat) -> G2Point;

/// What the FFT and the proof algebra need of the scalar field and of the
/// groups: zero, sum, difference, scaling by a scalar and the FFT over a
/// subgroup of roots of unity, each stated over a model of the element.
pub trait GroupElem: Sized + Copy {
    type Model;

    spec fn model(&self) -> Self::Model;

    spec fn m_zero() -> Self::Model;

    spec fn m_add(a: Self::Model, b: Self::Model) -> Self::Model;

    spec fn m_sub(a: Self::Model, b: Self::Model) -> Self::Model;

    spec fn m_scale(a: Self::Model, k: nat) -> Self::Model;

    /// What the FFT over the subgroup of order `v.len()` makes of `v`.
    spec fn m_transform(v: Seq<Self::Model>, inverse: bool) -> Seq<Self::Model>;

    fn elem_zero() -> (r: Self)
        ensures
            r.model() == Self::m_zero(),
    ;

    fn elem_add(&self, b: &Self) -> (r: Self)
        ensures
            r.model() == Self::m_add(self.model(), b.model()),
    ;

    fn elem_sub(&self, b: &Self) -> (r: Self)
        ensures
            r.model() == Self::m_sub(self.model(), b.model()),
    ;

    fn elem_scale(&self, k: &Scalar) -> (r: Self)
        ensures
            r.model() == Self::m_scale(self.model(), k@),
    ;

    /// The FFT (or, with `inverse`, the inverse FFT) over the subgroup of
    /// order `v.len()`.
    fn domain_fft(v: &mut Vec<Self>, inverse: bool)
        requires
            is_fft_size(old(v).len() as nat),
        ensures
            final(v)@.len() == old(v)@.len(),
            final(v)@.map_values(|x: Self| x.model()) == Self::m_transform(
                old(v)@.map_values(|x: Self| x.model()),
                inverse,
            ),
    ;
}


/// `sum_j c[j] * v[j]` over the first `v.len()` terms, added left to right,
/// with the given zero, sum and scaling.
pub open spec fn lincomb_by<M>(
    v: Seq<M>,
    c: Seq<nat>,
    zero: M,
    plus: spec_fn(M, M) -> M,
    scale: spec_fn(M, nat) -> M,
) -> M
    decreases v.len(),
{
    if v.len() == 0 {
        zero
    } else {
        plus(lincomb_by(v.drop_last(), c, zero, plus, scale), scale(v.last(), c[v.len() - 1]))
    }
}

/// `1, x, x^2, ..., x^(n-1)` in the field.
pub open spec fn powers(x: nat, n: nat) -> Seq<nat> {
    Seq::new(n, |j: int| fpow(x, j as nat))
}

/// What the FFT of `ark_poly` over the subgroup of order `n = v.len()`
/// computes: the evaluations of the polynomial with coefficients `v` at the
/// powers of its generator `g`, or, for the inverse, `1/n` times the
/// evaluations at the powers of `1/g`.
pub open spec fn transform_by<M>(
    v: Seq<M>,
    inverse: bool,
    zero: M,
    plus: spec_fn(M, M) -> M,
    scale: spec_fn(M, nat) -> M,
) -> Seq<M> {
    let n = v.len();
    let g = root_of_unity_of(n);
    if inverse {
        Seq::new(
            n,
            |k: int| scale(lincomb_by(v, powers(fpow(finv(g), k as nat), n), zero, plus, scale), finv(n)),
        )
    } else {
        Seq::new(n, |k: int| lincomb_by(v, powers(fpow(g, k as nat), n), zero, plus, scale))
    }
}

/// The models of a sequence of elements.
pub open spec fn models<T: GroupElem>(v: Seq<T>) -> Seq<T::Model> {
    v.map_values(|x: T| x.model())
}

impl GroupElem for Scalar {
    type Model = nat;

    open spec fn model(&self) -> nat {
        self@
    }

    open spec fn m_zero() -> nat {
        0
    }

    open spec fn m_add(a: nat, b: nat) -> nat {
        fadd(a, b)
    }

    open spec fn m_sub(a: nat, b: nat) -> nat {
        fsub(a, b)
    }

    open spec fn m_scale(a: nat, k: nat) -> nat {
        fmul(a, k)
    }

    open spec fn m_transform(v: Seq<nat>, inverse: bool) -> Seq<nat> {
        transform_by(v, inverse, 0nat, |a: nat, b: nat| fadd(a, b), |a: nat, k: nat| fmul(a, k))
    }

    fn elem_zero() -> (r: Self) {
        Scalar::zero()
    }

    fn elem_add(&self, b: &Self) -> (r: Self) {
        fr_add(self, b)
    }

    fn elem_sub(&self, b: &Self) -> (r: Self) {
        fr_sub(self, b)
    }

    fn elem_scale(&self, k: &Scalar) -> (r: Self) {
        fr_mul(self, k)
    }

    fn domain_fft(v: &mut Vec<Self>, inverse: bool) {
        scalars_domain_fft(v, inverse)
    }
}

impl GroupElem for G1Point {
    type Model = G1Point;

    open spec fn model(&self) -> G1Point {
        *self
    }

    open spec fn m_zero() -> G1Point {
        g1_identity()
    }

    open spec fn m_add(a: G1Point, b: G1Point) -> G1Point {
        g1_add_of(a, b)
    }

    open spec fn m_sub(a: G1Point, b: G1Point) -> G1Point {
        g1_sub_of(a, b)
    }

    open spec fn m_scale(a: G1Point, k: nat) -> G1Point {
        g1_mul_of(a, k)
    }

    open spec fn m_transform(v: Seq<G1Point>, inverse: bool) -> Seq<G1Point> {
        transform_by(
            v,
            inverse,
            g1_identity(),
            |a: G1Point, b: G1Point| g1_add_of(a, b),
            |a: G1Point, k: nat| g1_mul_of(a, k),
        )
    }

    fn elem_zero() -> (r: Self) {
        g1_zero()
    }

    fn elem_add(&self, b: &Self) -> (r: Self) {
        g1_add(self, b)
    }

    fn elem_sub(&self, b: &Self) -> (r: Self) {
        g1_sub(self, b)
    }

    fn elem_scale(&self, k: &Scalar) -> (r: Self) {
        g1_mul(self, k)
    }

    fn domain_fft(v: &mut Vec<Self>, inverse: bool) {
        g1_domain_fft(v, inverse)
    }
}

impl GroupElem for G2Point {
    type Model = G2Point;

    open spec fn model(&self) -> G2Point {
        *self
    }

    open spec fn m_zero() -> G2Point {
        g2_identity()
    }

    open spec fn m_add(a: G2Point, b: G2Point) -> G2Point {
        g2_add_of(a, b)
    }

    open spec fn m_sub(a: G2Point, b: G2Point) -> G2Point {
        g2_sub_of(a, b)
    }

    open spec fn m_scale(a: G2Point, k: nat) -> G2Point {
        g2_mul_of(a, k)
    }

    open spec fn m_transform(v: Seq<G2Point>, inverse: bool) -> Seq<G2Point> {
        transform_by(
            v,
            inverse,
            g2_identity(),
            |a: G2Point, b: G2Point| g2_add_of(a, b),
            |a: G2Point, k: nat| g2_mul_of(a, k),
        )
    }

    fn elem_zero() -> (r: Self) {
        g2_zero()
    }

    fn elem_add(&self, b: &Self) -> (r: Self) {
        g2_add(self, b)
    }

    fn elem_sub(&self, b: &Self) -> (r: Self) {
        g2_sub(self, b)
    }

    fn elem_scale(&self, k: &Scalar) -> (r: Self) {
        g2_mul(self, k)
    }

    fn domain_fft(v: &mut Vec<Self>, inverse: bool) {
        g2_domain_fft(v, inverse)
    }
}

/// `fft_in_place` / `ifft_in_place` of `ark_poly`'s evaluation domain of
/// size `v.len()`, on scalars.
#[verifier::external_body]
fn scalars_domain_fft(v: &mut Vec<Scalar>, inverse: bool)
    requires
        is_fft_size(old(v).len() as nat),
    ensures
        final(v)@.len() == old(v)@.len(),
        final(v)@.map_values(|x: Scalar| x.model()) == Scalar::m_transform(
            old(v)@.map_values(|x: Scalar| x.model()),
            inverse,
        ),
{
    let d = GeneralEvaluationDomain::<Fr>::new(v.len()).unwrap();
    let mut x: Vec<Fr> = v.iter().map(|s| Fr::from_bigint(BigInt::new(s.limbs)).unwrap()).collect();
    if inverse { d.ifft_in_place(&mut x) } else { d.fft_in_place(&mut x) }
    for (o, y) in v.iter_mut().zip(x) { *o = Scalar { limbs: y.into_bigint().0 } }
}

/// The identity of G1 from `ark_ec`, encoded.
#[verifier::external_body]
pub(crate) fn g1_zero() -> (r: G1Point)
    ensures
        r == g1_identity(),
        g1_exp(r) == 0,
{
    let mut bytes = [0u8; 96];
    G1Affine::zero().serialize_uncompressed(&mut bytes[..]).unwrap();
    G1Point { bytes }
}

/// `G1 + G1` of `ark_ec`. Adding the identity on either side gives the
/// other point back (each point held is the encoding of a curve point).
#[verifier::external_body]
pub(crate) fn g1_add(a: &G1Point, b: &G1Point) -> (r: G1Point)
    ensures
        r == g1_add_of(*a, *b),
        g1_exp(r) == fadd(g1_exp(*a), g1_exp(*b)),
        *a == g1_identity() ==> r == *b,
        *b == g1_identity() ==> r == *a,
{
    let x = G1Affine::deserialize_uncompressed_unchecked(&a.bytes[..]).unwrap().into_group() + G1Affine::deserialize_uncompressed_unchecked(&b.bytes[..]).unwrap().into_group();
    let mut bytes = [0u8; 96];
    x.into_affine().serialize_uncompressed(&mut bytes[..]).unwrap();
    G1Point { bytes }
}

/// `G1 - G1` of `ark_ec`. Subtracting the identity gives the first point
/// back.
#[verifier::external_body]
pub(crate) fn g1_sub(a: &G1Point, b: &G1Point) -> (r: G1Point)
    ensures
        r == g1_sub_of(*a, *b),
        g1_exp(r) == fsub(g1_exp(*a), g1_exp(*b)),
        *b == g1_identity() ==> r == *a,
{
    let x = G1Affine::deserialize_uncompressed_unchecked(&a.bytes[..]).unwrap().into_group() - G1Affine::deserialize_uncompressed_unchecked(&b.bytes[..]).unwrap().into_group();
    let mut bytes = [0u8; 96];
    x.into_affine().serialize_uncompressed(&mut bytes[..]).unwrap();
    G1Point { bytes }
}

/// `G1 * Fr` of `ark_ec`. The zero multiple is the identity.
#[verifier::external_body]
pub(crate) fn g1_mul(a: &G1Point, k: &Scalar) -> (r: G1Point)
    ensures
        r == g1_mul_of(*a, k@),
        g1_exp(r) == fmul(g1_exp(*a), k@),
        k@ == 0 ==> r == g1_identity(),
{
    let x = G1Affine::deserialize_uncompressed_unchecked(&a.bytes[..]).unwrap().into_group() * Fr::from_bigint(BigInt::new(k.limbs)).unwrap();
    let mut bytes = [0u8; 96];
    x.into_affine().serialize_uncompressed(&mut bytes[..]).unwrap();
    G1Point { bytes }
}

/// `fft_in_place` / `ifft_in_place` of `ark_poly` on G1 elements.
#[verifier::external_body]
fn g1_domain_fft(v: &mut Vec<G1Point>, inverse: bool)
    requires
        is_fft_size(old(v).len() as nat),
    ensures
        final(v)@.len() == old(v)@.len(),
        final(v)@.map_values(|x: G1Point| x.model()) == G1Point::m_transform(
            old(v)@.map_values(|x: G1Point| x.model()),
            inverse,
        ),
{
    let d = GeneralEvaluationDomain::<Fr>::new(v.len()).unwrap();
    let mut x: Vec<G1Projective> = v.iter().map(|a| G1Affine::deserialize_uncompressed_unchecked(&a.bytes[..]).unwrap().into_group()).collect();
    if inverse { d.ifft_in_place(&mut x) } else { d.fft_in_place(&mut x) }
    for (o, y) in v.iter_mut().zip(x) {
        y.into_affine().serialize_uncompressed(&mut o.bytes[..]).unwrap();
    }
}

/// The identity of G2 from `ark_ec`, encoded.
#[verifier::external_body]
pub(crate) fn g2_zero() -> (r: G2Point)
    ensures
        r == g2_identity(),
        g2_exp(r) == 0,
{
    let mut bytes = [0u8; 192];
    G2Affine::zero().serialize_uncompressed(&mut bytes[..]).unwrap();
    G2Point { bytes }
}

/// `G2 + G2` of `ark_ec`. Adding the identity on either side gives the
/// other point back (each point held is the encoding of a curve point).
#[verifier::external_body]
pub(crate) fn g2_add(a: &G2Point, b: &G2Point) -> (r: G2Point)
    ensures
        r == g2_add_of(*a, *b),
        g2_exp(r) == fadd(g2_exp(*a), g2_exp(*b)),
        *a == g2_identity() ==> r == *b,
        *b == g2_identity() ==> r == *a,
{
    let x = G2Affine::deserialize_uncompressed_unchecked(&a.bytes[..]).unwrap().into_group() + G2Affine::deserialize_uncompressed_unchecked(&b.bytes[..]).unwrap().into_group();
    let mut bytes = [0u8; 192];
    x.into_affine().serialize_uncompressed(&mut bytes[..]).unwrap();
    G2Point { bytes }
}

/// `G2 - G2` of `ark_ec`. Subtracting the identity gives the first point
/// back.
#[verifier::external_body]
pub(crate) fn g2_sub(a: &G2Point, b: &G2Point) -> (r: G2Point)
    ensures
        r == g2_sub_of(*a, *b),
        g2_exp(r) == fsub(g2_exp(*a), g2_exp(*b)),
        *b == g2_identity() ==> r == *a,
{
    let x = G2Affine::deserialize_uncompressed_unchecked(&a.bytes[..]).unwrap().into_group() - G2Affine::deserialize_uncompressed_unchecked(&b.bytes[..]).unwrap().into_group();
    let mut bytes = [0u8; 192];
    x.into_affine().serialize_uncompressed(&mut bytes[..]).unwrap();
    G2Point { bytes }
}

/// `G2 * Fr` of `ark_ec`. The zero multiple is the identity.
#[verifier::external_body]
pub(crate) fn g2_mul(a: &G2Point, k: &Scalar) -> (r: G2Point)
    ensures
        r == g2_mul_of(*a, k@),
        g2_exp(r) == fmul(g2_exp(*a), k@),
        k@ == 0 ==> r == g2_identity(),
{
    let x = G2Affine::deserialize_uncompressed_unchecked(&a.bytes[..]).unwrap().into_group() * Fr::from_bigint(BigInt::new(k.limbs)).unwrap();
    let mut bytes = [0u8; 192];
    x.into_affine().serialize_uncompressed(&mut bytes[..]).unwrap();
    G2Point { bytes }
}

/// `fft_in_place` / `ifft_in_place` of `ark_poly` on G2 elements.
#[verifier::external_body]
fn g2_domain_fft(v: &mut Vec<G2Point>, inverse: bool)
    requires
        is_fft_size(old(v).len() as nat),
    ensures
        final(v)@.len() == old(v)@.len(),
        final(v)@.map_values(|x: G2Point| x.model()) == G2Point::m_transform(
            old(v)@.map_values(|x: G2Point| x.model()),
            inverse,
        ),
{
    let d = GeneralEvaluationDomain::<Fr>::new(v.len()).unwrap();
    let mut x: Vec<G2Projective> = v.iter().map(|a| G2Affine::deserialize_uncompressed_unchecked(&a.bytes[..]).unwrap().into_group()).collect();
    if inverse { d.ifft_in_place(&mut x) } else { d.fft_in_place(&mut x) }
    for (o, y) in v.iter_mut().zip(x) {
        y.into_affine().serialize_uncompressed(&mut o.bytes[..]).unwrap();
    }
}

/// `-P` in G1.
pub uninterp spec fn g1_neg_of(a: G1Point) -> G1Point;

/// `-P` in G2.
pub uninterp spec fn g2_neg_of(a: G2Point) -> G2Point;

/// The encoding of the pairing `e(a, b)` in the target group.
pub uninterp spec fn pairing_of(a: G1Point, b: G2Point) -> Seq<u8>;

/// The encoding of the product of pairings `prod e(a_i, b_i)` in the target
/// group, over the shorter of the two lists.
pub uninterp spec fn multi_pairing_of(a: Seq<G1Point>, b: Seq<G2Point>) -> Seq<u8>;

/// The exponents of a list of points of G1.
pub open spec fn g1_exps(v: Seq<G1Point>) -> Seq<nat> {
    v.map_values(|p: G1Point| g1_exp(p))
}

/// The exponents of a list of points of G2.
pub open spec fn g2_exps(v: Seq<G2Point>) -> Seq<nat> {
    v.map_values(|p: G2Point| g2_exp(p))
}

/// `sum_{i < k} e_i * z_i` in the scalar field, added left to right.
pub open spec fn exp_dense_k(e: Seq<nat>, z: Seq<nat>, k: nat) -> nat
    decreases k,
{
    if k == 0 {
        0
    } else {
        fadd(exp_dense_k(e, z, (k - 1) as nat), fmul(e[k - 1], z[k - 1]))
    }
}

/// `sum_i e_i * z_i` in the scalar field over the shorter of the two lists:
/// the exponent of a multi-scalar multiplication.
pub open spec fn exp_dense(e: Seq<nat>, z: Seq<nat>) -> nat {
    exp_dense_k(e, z, if e.len() < z.len() { e.len() } else { z.len() })
}

/// `sum_k e[idx_k] * c_k` in the scalar field over the entries `(idx_k, c_k)`,
/// added left to right: the exponent of a sparse combination.
pub open spec fn exp_sparse(sv: Seq<(usize, Scalar)>, e: Seq<nat>) -> nat
    decreases sv.len(),
{
    if sv.len() == 0 {
        0
    } else {
        fadd(exp_sparse(sv.drop_last(), e), fmul(e[sv.last().0 as int], sv.last().1@))
    }
}

/// `sum_i g1_exp(a_i) * g2_exp(b_i)` in the scalar field over the shorter of
/// the two lists, added left to right: the exponent of the product of the
/// pairings.
pub open spec fn exp_pairs(a: Seq<G1Point>, b: Seq<G2Point>) -> nat
    decreases a.len(),
{
    if a.len() == 0 || b.len() == 0 {
        0
    } else if a.len() <= b.len() {
        fadd(exp_pairs(a.drop_last(), b), fmul(g1_exp(a.last()), g2_exp(b[a.len() - 1])))
    } else {
        exp_pairs(a.take(b.len() as int), b)
    }
}

/// `sum_i s_i * b_i` in G1 over the shorter of the two lists, added left to
/// right from the identity.
pub open spec fn g1_msm_spec(bases: Seq<G1Point>, scalars: Seq<nat>) -> G1Point {
    let k = if bases.len() < scalars.len() {
        bases.len()
    } else {
        scalars.len()
    };
    lincomb_by(
        bases.take(k as int),
        scalars,
        g1_identity(),
        |a: G1Point, b: G1Point| g1_add_of(a, b),
        |a: G1Point, x: nat| g1_mul_of(a, x),
    )
}

/// `sum_i s_i * b_i` in G2 over the shorter of the two lists, added left to
/// right from the identity.
pub open spec fn g2_msm_spec(bases: Seq<G2Point>, scalars: Seq<nat>) -> G2Point {
    let k = if bases.len() < scalars.len() {
        bases.len()
    } else {
        scalars.len()
    };
    lincomb_by(
        bases.take(k as int),
        scalars,
        g2_identity(),
        |a: G2Point, b: G2Point| g2_add_of(a, b),
        |a: G2Point, x: nat| g2_mul_of(a, x),
    )
}

/// `-G1` of `ark_ec`.
#[verifier::external_body]
pub(crate) fn g1_neg(a: &G1Point) -> (r: G1Point)
    ensures
        r == g1_neg_of(*a),
        g1_exp(r) == fneg(g1_exp(*a)),
{
    let x = -G1Affine::deserialize_uncompressed_unchecked(&a.bytes[..]).unwrap();
    let mut bytes = [0u8; 96];
    x.serialize_uncompressed(&mut bytes[..]).unwrap();
    G1Point { bytes }
}

/// `-G2` of `ark_ec`.
#[verifier::external_body]
pub(crate) fn g2_neg(a: &G2Point) -> (r: G2Point)
    ensures
        r == g2_neg_of(*a),
        g2_exp(r) == fneg(g2_exp(*a)),
{
    let x = -G2Affine::deserialize_uncompressed_unchecked(&a.bytes[..]).unwrap();
    let mut bytes = [0u8; 192];
    x.serialize_uncompressed(&mut bytes[..]).unwrap();
    G2Point { bytes }
}

/// `UniformRand::rand` of `ark_ec` for G1 on the given generator: some
/// point.
#[verifier::external_body]
pub(crate) fn g1_rand(rng: &mut StdRng) -> (r: G1Point) {
    let mut bytes = [0u8; 96];
    G1Projective::rand(rng).into_affine().serialize_uncompressed(&mut bytes[..]).unwrap();
    G1Point { bytes }
}

/// `UniformRand::rand` of `ark_ec` for G2 on the given generator: some
/// point.
#[verifier::external_body]
pub(crate) fn g2_rand(rng: &mut StdRng) -> (r: G2Point) {
    let mut bytes = [0u8; 192];
    G2Projective::rand(rng).into_affine().serialize_uncompressed(&mut bytes[..]).unwrap();
    G2Point { bytes }
}

/// `VariableBaseMSM::msm_bigint` of `ark_ec` on G1: the sum of the products
/// over the shorter of the two lists.
#[verifier::external_body]
pub(crate) fn g1_msm(bases: &[G1Point], scalars: &[Scalar]) -> (r: G1Point)
    ensures
        r == g1_msm_spec(bases@, models(scalars@)),
        g1_exp(r) == exp_dense(g1_exps(bases@), models(scalars@)),
{
    let b: Vec<G1Affine> = bases.iter().map(|p| G1Affine::deserialize_uncompressed_unchecked(&p.bytes[..]).unwrap()).collect();
    let s: Vec<_> = scalars.iter().map(|x| BigInt::new(x.limbs)).collect();
    let mut bytes = [0u8; 96];
    G1Projective::msm_bigint(&b, &s).into_affine().serialize_uncompressed(&mut bytes[..]).unwrap();
    G1Point { bytes }
}

/// `VariableBaseMSM::msm_bigint` of `ark_ec` on G2: the sum of the products
/// over the shorter of the two lists.
#[verifier::external_body]
pub(crate) fn g2_msm(bases: &[G2Point], scalars: &[Scalar]) -> (r: G2Point)
    ensures
        r == g2_msm_spec(bases@, models(scalars@)),
        g2_exp(r) == exp_dense(g2_exps(bases@), models(scalars@)),
{
    let b: Vec<G2Affine> = bases.iter().map(|p| G2Affine::deserialize_uncompressed_unchecked(&p.bytes[..]).unwrap()).collect();
    let s: Vec<_> = scalars.iter().map(|x| BigInt::new(x.limbs)).collect();
    let mut bytes = [0u8; 192];
    G2Projective::msm_bigint(&b, &s).into_affine().serialize_uncompressed(&mut bytes[..]).unwrap();
    G2Point { bytes }
}

/// `BatchMulPreprocessing::batch_mul` of `ark_ec` on G1, with a table built
/// for `table_size` scalars: `s_i * g` for each scalar.
#[verifier::external_body]
pub(crate) fn g1_batch_mul(g: &G1Point, table_size: usize, scalars: &[Scalar]) -> (r: Vec<G1Point>)
    ensures
        r@.len() == scalars@.len(),
        forall|i: int| 0 <= i < r@.len() ==> #[trigger] r@[i] == g1_mul_of(*g, scalars@[i]@),
{
    let g = G1Affine::deserialize_uncompressed_unchecked(&g.bytes[..]).unwrap().into_group();
    let table = ark_ec::scalar_mul::BatchMulPreprocessing::new(g, table_size);
    let s: Vec<Fr> = scalars.iter().map(|x| Fr::from_bigint(BigInt::new(x.limbs)).unwrap()).collect();
    let mut out = vec![G1Point { bytes: [0u8; 96] }; s.len()];
    for (o, p) in out.iter_mut().zip(table.batch_mul(&s)) { p.serialize_uncompressed(&mut o.bytes[..]).unwrap(); }
    out
}

/// `BatchMulPreprocessing::batch_mul` of `ark_ec` on G2, with a table built
/// for `table_size` scalars: `s_i * g` for each scalar.
#[verifier::external_body]
pub(crate) fn g2_batch_mul(g: &G2Point, table_size: usize, scalars: &[Scalar]) -> (r: Vec<G2Point>)
    ensures
        r@.len() == scalars@.len(),
        forall|i: int| 0 <= i < r@.len() ==> #[trigger] r@[i] == g2_mul_of(*g, scalars@[i]@),
{
    let g = G2Affine::deserialize_uncompressed_unchecked(&g.bytes[..]).unwrap().into_group();
    let table = ark_ec::scalar_mul::BatchMulPreprocessing::new(g, table_size);
    let s: Vec<Fr> = scalars.iter().map(|x| Fr::from_bigint(BigInt::new(x.limbs)).unwrap()).collect();
    let mut out = vec![G2Point { bytes: [0u8; 192] }; s.len()];
    for (o, p) in out.iter_mut().zip(table.batch_mul(&s)) { p.serialize_uncompressed(&mut o.bytes[..]).unwrap(); }
    out
}

/// `Default::default()` of the target field of BLS12-381 (its zero),
/// encoded uncompressed by `ark_serialize`: twelve base field elements of 48
/// zero bytes each.
#[verifier::external_body]
pub(crate) fn gt_default_bytes() -> (r: Vec<u8>)
    ensures
        r@ == Seq::new(576, |i: int| 0u8),
{
    let mut out = Vec::new();
    <ark_bls12_381::Bls12_381 as Pairing>::TargetField::default().serialize_uncompressed(&mut out).unwrap();
    out
}

/// `Pairing::pairing` of `ark_ec` for BLS12-381: the encoding of `e(a, b)`.
/// Its final exponentiation is of a Miller loop value, which is never zero,
/// so the call does not fail.
#[verifier::external_body]
pub(crate) fn gt_pairing(a: &G1Point, b: &G2Point) -> (r: Vec<u8>)
    ensures
        r@ == pairing_of(*a, *b),
        r@ == gt_of_exp(fmul(g1_exp(*a), g2_exp(*b))),
{
    let p = G1Affine::deserialize_uncompressed_unchecked(&a.bytes[..]).unwrap();
    let q = G2Affine::deserialize_uncompressed_unchecked(&b.bytes[..]).unwrap();
    let mut out = Vec::new();
    ark_bls12_381::Bls12_381::pairing(p, q).0.serialize_uncompressed(&mut out).unwrap();
    out
}

/// `Pairing::multi_miller_loop` then `final_exponentiation` of `ark_ec` for
/// BLS12-381: the encoding of the product of the pairings. The final
/// exponentiation returns `None` only on a zero Miller-loop value, which the
/// loop never yields (`Pairing::multi_pairing` of `ark_ec` unwraps the same
/// call), so the result is always `Some`.
#[verifier::external_body]
pub(crate) fn gt_multi_pairing(a: &[G1Point], b: &[G2Point]) -> (r: Option<Vec<u8>>)
    ensures
        r is Some,
        r matches Some(v) ==> v@ == multi_pairing_of(a@, b@),
        r matches Some(v) ==> v@ == gt_of_exp(exp_pairs(a@, b@)),
{
    let p: Vec<G1Affine> = a.iter().map(|x| G1Affine::deserialize_uncompressed_unchecked(&x.bytes[..]).unwrap()).collect();
    let q: Vec<G2Affine> = b.iter().map(|x| G2Affine::deserialize_uncompressed_unchecked(&x.bytes[..]).unwrap()).collect();
    let f = ark_bls12_381::Bls12_381::multi_miller_loop(p, q);
    let mut out = Vec::new();
    ark_bls12_381::Bls12_381::final_exponentiation(f).map(|t| { t.0.serialize_uncompressed(&mut out).unwrap(); out })
}

} // verus!
