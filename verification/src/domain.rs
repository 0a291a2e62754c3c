//! The multiplicative subgroups of the scalar field over which polynomials
//! are interpolated and evaluated, as plain values, and the integer helpers
//! that size them.
use vstd::prelude::*;
use vstd::arithmetic::power2::{pow2, lemma_pow2_unfold, lemma_pow2_strictly_increases, lemma2_to64};
use crate::field::{fadd, finv, fmul, fpow, fsub, is_fft_size, root_of_unity_of, Scalar, fr_pow, fr_root_of_unity, fr_sub};
use crate::group::{GroupElem, lincomb_by, models, powers};
use ark_bls12_381::Fr;
use ark_ff::{BigInt, PrimeField};
use ark_poly::EvaluationDomain;
use ark_std::rand::rngs::StdRng;

verus! {

pub open spec fn is_pow2(p: nat) -> bool {
    exists|k: nat| p == pow2(k)
}

/// `p` is the least power of two that is at least `n`.
pub open spec fn is_next_pow2(p: nat, n: nat) -> bool {
    is_pow2(p) && n <= p && (p == 1 || p / 2 < n)
}

/// `k` is the ceiling of the base-two logarithm of `n` (zero for zero).
pub open spec fn is_log2_ceil(k: nat, n: nat) -> bool {
    n <= pow2(k) && (k == 0 || pow2((k - 1) as nat) < n)
}

/// `usize::next_power_of_two`: the least power of two at least `n`.
pub fn next_power_of_two(n: usize) -> (p: usize)
    requires
        n <= usize::MAX / 2 + 1,
    ensures
        is_next_pow2(p as nat, n as nat),
{
    let mut p: usize = 1;
    let ghost mut k: nat = 0;
    proof {
        lemma2_to64();
    }
    while p < n
        invariant
            p == pow2(k),
            p >= 1,
            n <= usize::MAX / 2 + 1,
            p == 1 || p / 2 < n,
        decreases 2 * (n as int) - (p as int),
    {
        proof {
            lemma_pow2_unfold(k + 1);
        }
        p = p * 2;
        proof {
            k = k + 1;
        }
    }
    p
}

/// `ark_std::log2`: the ceiling of the base-two logarithm (zero for zero).
pub fn log2(n: usize) -> (k: u32)
    ensures
        is_log2_ceil(k as nat, n as nat),
        k <= 64,
{
    let mut k: u32 = 0;
    let mut p: u128 = 1;
    proof {
        lemma2_to64();
    }
    while (p as u128) < (n as u128)
        invariant
            p == pow2(k as nat),
            p >= 1,
            k <= 64,
            k == 0 || pow2((k - 1) as nat) < n,
            n <= usize::MAX,
        decreases 2 * (n as int) - (p as int),
    {
        proof {
            lemma_pow2_unfold((k + 1) as nat);
            lemma2_to64();
            if k == 64 {
                assert(usize::MAX < 0x1_0000_0000_0000_0000);
            }
        }
        p = p * 2;
        k = k + 1;
    }
    k
}

/// The subgroup of the scalar field of order `size` (a power of two), with
/// its generator.
#[derive(Clone, Copy, Debug, PartialEq, Eq)]
pub struct GeneralEvaluationDomain {
    size: usize,
    group_gen: Scalar,
}

impl GeneralEvaluationDomain {
    #[verifier::type_invariant]
    pub closed spec fn wf(self) -> bool {
        &&& is_fft_size(self.size as nat)
        &&& self.group_gen@ == root_of_unity_of(self.size as nat)
        &&& self.group_gen@ != 0
        &&& fpow(self.group_gen@, self.size as nat) == 1
        &&& forall|k: nat| 0 < k < self.size ==> #[trigger] fpow(self.group_gen@, k) != 1
        &&& self.size >= 2 ==> root_of_unity_of((self.size / 2) as nat) == fmul(self.group_gen@, self.group_gen@)
    }

    pub closed spec fn spec_size(self) -> nat {
        self.size as nat
    }

    /// The order of the subgroup is a valid FFT size.
    pub proof fn lemma_size(self)
        requires
            self.wf(),
        ensures
            is_fft_size(self.spec_size()),
            1 <= self.spec_size() <= 0x1_0000_0000,
    {
        let k = choose|k: nat| k <= 32 && self.size == pow2(k);
        lemma2_to64();
        if k < 32 {
            lemma_pow2_strictly_increases(k, 32);
        }
        vstd::arithmetic::power2::lemma_pow2_pos(k);
    }

    /// The least subgroup whose order is at least `num_coeffs`, if it has
    /// order at most `2^32`.
    pub fn new(num_coeffs: usize) -> (r: Option<Self>)
        ensures
            r is Some <==> num_coeffs <= 0x1_0000_0000 && num_coeffs <= usize::MAX / 2 + 1,
            r matches Some(d) ==> is_next_pow2(d.spec_size(), num_coeffs as nat),
    {
        if num_coeffs as u64 > 0x1_0000_0000u64 || num_coeffs > usize::MAX / 2 + 1 {
            return None;
        }
        let size = next_power_of_two(num_coeffs);
        let ghost k = choose|k: nat| size == pow2(k);
        proof {
            lemma2_to64();
            if k > 32 {
                lemma_pow2_unfold(k);
                if k - 1 > 32 {
                    lemma_pow2_strictly_increases(32, (k - 1) as nat);
                }
                assert(false);
            }
            assert(k <= 32 && size == pow2(k));
            assert(is_fft_size(size as nat));
        }
        let group_gen = fr_root_of_unity(size as u64);
        proof {
            vstd::arithmetic::power2::lemma_pow2_pos(k);
            if group_gen@ == 0 {
                lemma_fpow_zero(size as nat);
            }
        }
        Some(GeneralEvaluationDomain { size, group_gen })
    }

    /// The order of the subgroup.
    pub fn size(&self) -> (r: usize)
        ensures
            r == self.spec_size(),
            1 <= r <= 0x1_0000_0000,
            r <= usize::MAX / 2 + 1,
            is_fft_size(r as nat),
    {
        proof {
            use_type_invariant(self);
            self.lemma_size();
            let k = choose|k: nat| k <= 32 && self.size == pow2(k);
            lemma2_to64();
            if usize::MAX == 0xffff_ffff {
                if k == 32 {
                    assert(false);
                } else if k < 31 {
                    lemma_pow2_strictly_increases(k, 31);
                }
            } else if k < 32 {
                lemma_pow2_strictly_increases(k, 32);
            }
        }
        self.size
    }

    /// The generator of the subgroup.
    pub fn group_gen(&self) -> (r: Scalar)
        ensures
            r@ == root_of_unity_of(self.spec_size()),
            r@ != 0,
            fpow(r@, self.spec_size()) == 1,
            forall|k: nat| 0 < k < self.spec_size() ==> #[trigger] fpow(r@, k) != 1,
            self.spec_size() >= 2 ==> root_of_unity_of((self.spec_size() / 2) as nat) == fmul(r@, r@),
    {
        proof {
            use_type_invariant(self);
        }
        self.group_gen
    }

    /// `tau^size - 1`, which vanishes exactly on the subgroup.
    pub fn evaluate_vanishing_polynomial(&self, tau: &Scalar) -> (r: Scalar)
        ensures
            r@ == fsub(fpow(tau@, self.spec_size()), 1),
    {
        let p = fr_pow(tau, self.size as u64);
        fr_sub(&p, &Scalar::one())
    }
}

/// Positive powers of zero are zero.
pub proof fn lemma_fpow_zero(n: nat)
    requires
        n >= 1,
    ensures
        fpow(0, n) == 0,
{
    assert(fpow(0, n) == fmul(fpow(0, (n - 1) as nat), 0));
}

/// `v` cut or padded with `zero` to length `n`.
pub open spec fn resized<M>(v: Seq<M>, n: nat, zero: M) -> Seq<M> {
    Seq::new(n, |i: int| if i < v.len() { v[i] } else { zero })
}

/// The polynomial with coefficients `v` evaluated at `x` in the field.
pub open spec fn scalar_eval(v: Seq<nat>, x: nat) -> nat {
    lincomb_by(v, powers(x, v.len()), 0nat, |a: nat, b: nat| fadd(a, b), |a: nat, k: nat| fmul(a, k))
}

/// What the FFT of `ark_poly` over the coset `c * H` of the subgroup `H` of
/// order `n = v.len()` computes: the evaluations at `c * g^k`, or, for the
/// inverse, the inverse FFT over `H` with the `k`-th value times `c^-k`.
pub open spec fn coset_transform(v: Seq<nat>, c: nat, inverse: bool) -> Seq<nat> {
    let n = v.len();
    let g = root_of_unity_of(n);
    if inverse {
        Seq::new(
            n,
            |k: int| fmul(fmul(scalar_eval(v, fpow(finv(g), k as nat)), finv(n)), fpow(finv(c), k as nat)),
        )
    } else {
        Seq::new(n, |k: int| scalar_eval(v, fmul(c, fpow(g, k as nat))))
    }
}

/// The `i`-th Lagrange coefficient at `tau` over the subgroup of order `n`
/// generated by `g`, as `ark_poly` computes it: for `tau` in the subgroup,
/// one at the first `i` with `g^i = tau` and zero elsewhere; else the
/// inverse of `(n / Z(tau)) * g^-i * (tau - g^i)` with `Z(tau) = tau^n - 1`.
pub open spec fn lagrange_coeff(n: nat, g: nat, tau: nat, i: nat) -> nat {
    let z = fsub(fpow(tau, n), 1);
    if z == 0 {
        if fpow(g, i) == tau && (forall|j: nat| j < i ==> fpow(g, j) != tau) {
            1
        } else {
            0
        }
    } else {
        finv(fmul(fmul(fmul(finv(z), n), fpow(finv(g), i)), fsub(tau, fpow(g, i))))
    }
}

/// `get_coset(offset)` then `fft_in_place` / `ifft_in_place` of `ark_poly`,
/// on scalars, over the subgroup of order `v.len()`.
#[verifier::external_body]
fn scalars_coset_fft(v: &mut Vec<Scalar>, offset: &Scalar, inverse: bool)
    requires
        is_fft_size(old(v).len() as nat),
        offset@ != 0,
    ensures
        models(final(v)@) == coset_transform(models(old(v)@), offset@, inverse),
{
    let d = ark_poly::GeneralEvaluationDomain::<Fr>::new(v.len()).unwrap();
    let c = d.get_coset(Fr::from_bigint(BigInt::new(offset.limbs)).unwrap()).unwrap();
    let mut x: Vec<Fr> = v.iter().map(|s| Fr::from_bigint(BigInt::new(s.limbs)).unwrap()).collect();
    if inverse { c.ifft_in_place(&mut x) } else { c.fft_in_place(&mut x) }
    for (o, y) in v.iter_mut().zip(x) { *o = Scalar { limbs: y.into_bigint().0 } }
}

/// `evaluate_all_lagrange_coefficients` of `ark_poly` over the subgroup of
/// order `size`.
#[verifier::external_body]
fn lagrange_coefficients(size: usize, tau: &Scalar) -> (r: Vec<Scalar>)
    requires
        is_fft_size(size as nat),
    ensures
        r@.len() == size,
        forall|i: int|
            0 <= i < size ==> (#[trigger] r@[i])@ == lagrange_coeff(
                size as nat,
                root_of_unity_of(size as nat),
                tau@,
                i as nat,
            ),
{
    let d = ark_poly::GeneralEvaluationDomain::<Fr>::new(size).unwrap();
    let x = d.evaluate_all_lagrange_coefficients(Fr::from_bigint(BigInt::new(tau.limbs)).unwrap());
    x.into_iter().map(|y| Scalar { limbs: y.into_bigint().0 }).collect()
}

/// `sample_element_outside_domain` of `ark_poly` over the subgroup of order
/// `size`: an element on which `tau^size - 1` does not vanish.
#[verifier::external_body]
fn sample_outside(size: usize, rng: &mut StdRng) -> (r: Scalar)
    requires
        is_fft_size(size as nat),
    ensures
        fsub(fpow(r@, size as nat), 1) != 0,
{
    let d = ark_poly::GeneralEvaluationDomain::<Fr>::new(size).unwrap();
    Scalar { limbs: d.sample_element_outside_domain(rng).into_bigint().0 }
}

/// A copy of `v` cut or padded with zeros to length `n`.
pub fn resize_to<T: GroupElem>(v: &[T], n: usize) -> (r: Vec<T>)
    ensures
        r@.len() == n,
        models(r@) == resized(models(v@), n as nat, T::m_zero()),
{
    let mut r: Vec<T> = Vec::with_capacity(n);
    let mut i: usize = 0;
    while i < n
        invariant
            i <= n,
            r@.len() == i,
            forall|j: int| 0 <= j < i ==> (#[trigger] r@[j]).model() == resized(models(v@), n as nat, T::m_zero())[j],
        decreases n - i,
    {
        if i < v.len() {
            r.push(v[i]);
        } else {
            r.push(T::elem_zero());
        }
        i = i + 1;
    }
    assert(models(r@) =~= resized(models(v@), n as nat, T::m_zero()));
    r
}

impl GeneralEvaluationDomain {
    /// The FFT of `v` (cut or padded with zeros to the order of the
    /// subgroup): its evaluations at the powers of the generator.
    pub fn fft<T: GroupElem>(&self, v: &[T]) -> (r: Vec<T>)
        ensures
            models(r@) == T::m_transform(resized(models(v@), self.spec_size(), T::m_zero()), false),
    {
        proof {
            use_type_invariant(self);
        }
        let mut r = resize_to(v, self.size);
        T::domain_fft(&mut r, false);
        r
    }

    /// The inverse FFT of `v` (cut or padded with zeros to the order of the
    /// subgroup).
    pub fn ifft<T: GroupElem>(&self, v: &[T]) -> (r: Vec<T>)
        ensures
            models(r@) == T::m_transform(resized(models(v@), self.spec_size(), T::m_zero()), true),
    {
        proof {
            use_type_invariant(self);
        }
        let mut r = resize_to(v, self.size);
        T::domain_fft(&mut r, true);
        r
    }

    /// The FFT in place.
    pub fn fft_in_place<T: GroupElem>(&self, v: &mut Vec<T>)
        ensures
            models(final(v)@) == T::m_transform(resized(models(old(v)@), self.spec_size(), T::m_zero()), false),
    {
        proof {
            use_type_invariant(self);
        }
        let mut r = resize_to(v, self.size);
        T::domain_fft(&mut r, false);
        *v = r;
    }

    /// The inverse FFT in place.
    pub fn ifft_in_place<T: GroupElem>(&self, v: &mut Vec<T>)
        ensures
            models(final(v)@) == T::m_transform(resized(models(old(v)@), self.spec_size(), T::m_zero()), true),
    {
        proof {
            use_type_invariant(self);
        }
        let mut r = resize_to(v, self.size);
        T::domain_fft(&mut r, true);
        *v = r;
    }

    /// The FFT over the coset `offset * H`, in place, on scalars.
    pub fn coset_fft_in_place(&self, v: &mut Vec<Scalar>, offset: &Scalar)
        requires
            offset@ != 0,
        ensures
            models(final(v)@) == coset_transform(resized(models(old(v)@), self.spec_size(), 0nat), offset@, false),
    {
        proof {
            use_type_invariant(self);
        }
        let mut r = resize_to(v, self.size);
        scalars_coset_fft(&mut r, offset, false);
        *v = r;
    }

    /// The inverse FFT over the coset `offset * H`, in place, on scalars.
    pub fn coset_ifft_in_place(&self, v: &mut Vec<Scalar>, offset: &Scalar)
        requires
            offset@ != 0,
        ensures
            models(final(v)@) == coset_transform(resized(models(old(v)@), self.spec_size(), 0nat), offset@, true),
    {
        proof {
            use_type_invariant(self);
        }
        let mut r = resize_to(v, self.size);
        scalars_coset_fft(&mut r, offset, true);
        *v = r;
    }

    /// The Lagrange coefficients of the subgroup at `tau`.
    pub fn evaluate_all_lagrange_coefficients(&self, tau: &Scalar) -> (r: Vec<Scalar>)
        ensures
            r@.len() == self.spec_size(),
            forall|i: int|
                0 <= i < self.spec_size() ==> (#[trigger] r@[i])@ == lagrange_coeff(
                    self.spec_size(),
                    root_of_unity_of(self.spec_size()),
                    tau@,
                    i as nat,
                ),
    {
        proof {
            use_type_invariant(self);
        }
        lagrange_coefficients(self.size, tau)
    }

    /// An element outside the subgroup.
    pub fn sample_element_outside_domain(&self, rng: &mut StdRng) -> (r: Scalar)
        ensures
            fsub(fpow(r@, self.spec_size()), 1) != 0,
    {
        proof {
            use_type_invariant(self);
        }
        sample_outside(self.size, rng)
    }
}

} // verus!
