//! The Groth16 prover and verifier: the proof elements as sums of the key's
//! points, their re-randomization, and the pairing check.
use vstd::prelude::*;
use crate::data_structures::{Cache, PreparedVerifyingKey, Proof, ProvingKey, VerifyingKey, copy_vk, vk_same};
use crate::domain::{is_next_pow2, GeneralEvaluationDomain};
use crate::fft_handler::{conv_size, lemma_next_pow2_unique};
use crate::field::{fadd, fmul, finv, fneg, Scalar, fr_inverse, fr_mul, fr_rand, check_exp, lemma_rerandomized_check};
use crate::group::{
    G1Point, G2Point, g1_add_of, g1_mul_of, g1_sub_of, g2_add_of, g2_mul_of, g1_msm_spec, g2_msm_spec, g2_neg_of,
    models, multi_pairing_of, pairing_of, g1_add, g1_mul, g1_sub, g2_add, g2_mul, g1_msm, g2_msm, g2_neg, gt_pairing,
    gt_multi_pairing, g1_exp, g2_exp, gt_of_exp, exp_pairs, exp_dense, g1_exps, g2_exps,
};
use crate::r1cs_to_qap::{
    coset_ok, matrices_in_range, quotient_spec, row_evals, LibsnarkReduction, R1CSToQAP, concat_assignment,
};
use crate::relations::{ConstraintMatrices, ConstraintSystemRef, SynthesisError};
use crate::r1cs_to_qap::cs_ok;
use crate::utils::lagrange_of_dense_vec;
use ark_std::rand::rngs::StdRng;

verus! {

/// The SNARK of Groth16, with the reduction of `libsnark`.
pub struct Groth16;

/// The exponent of the verification check of `proof` against `pvk` on
/// `instance`: `A * B + X * (-gamma) + C * (-delta)` with `X` the instance
/// combination of the key; the check passes when the target-group element
/// of this exponent is `e(alpha, beta)`.
pub open spec fn verify_exp(pvk: PreparedVerifyingKey, proof: Proof, instance: Seq<Scalar>) -> nat {
    check_exp(
        g1_exp(proof.a_g1),
        g2_exp(proof.b_g2),
        g1_exp(g1_msm_spec(pvk.vk.t_v_g1@, models(instance))),
        g2_exp(pvk.gamma_g2_neg_pc),
        g1_exp(proof.c_g1),
        g2_exp(pvk.delta_g2_neg_pc),
    )
}

/// The prepared key holds `e(alpha, beta)`, `-gamma` and `-delta` of `vk`,
/// by their exponents.
pub open spec fn prepared_exps(vk: VerifyingKey, pvk: PreparedVerifyingKey) -> bool {
    &&& pvk.alpha_g1_beta_g2@ == gt_of_exp(fmul(g1_exp(vk.alpha_g1), g2_exp(vk.beta_g2)))
    &&& g2_exp(pvk.gamma_g2_neg_pc) == fneg(g2_exp(vk.gamma_g2))
    &&& g2_exp(pvk.delta_g2_neg_pc) == fneg(g2_exp(vk.delta_g2))
}

/// The exponents of `proof2` are those of the re-randomization of `proof`
/// by `r1`, `r2`, and `r1` is invertible.
pub open spec fn rerandomized_exps(vk: VerifyingKey, proof: Proof, proof2: Proof, r1: nat, r2: nat) -> bool {
    &&& fmul(finv(r1), r1) == 1
    &&& g1_exp(proof2.a_g1) == fmul(g1_exp(proof.a_g1), finv(r1))
    &&& g2_exp(proof2.b_g2) == fadd(fmul(g2_exp(proof.b_g2), r1), fmul(g2_exp(vk.delta_g2), fmul(r1, r2)))
    &&& g1_exp(proof2.c_g1) == fadd(g1_exp(proof.c_g1), fmul(g1_exp(proof.a_g1), r2))
}

/// A re-randomized proof passes the verification check exactly when the
/// proof it came from does: the exponent of the check is the same.
pub proof fn lemma_rerandomized_verifies_alike(
    pvk: PreparedVerifyingKey,
    proof: Proof,
    proof2: Proof,
    instance: Seq<Scalar>,
    r1: nat,
    r2: nat,
)
    requires
        g2_exp(pvk.delta_g2_neg_pc) == fneg(g2_exp(pvk.vk.delta_g2)),
        rerandomized_exps(pvk.vk, proof, proof2, r1, r2),
    ensures
        verify_exp(pvk, proof2, instance) == verify_exp(pvk, proof, instance),
{
    lemma_rerandomized_check(
        g1_exp(proof.a_g1),
        g2_exp(proof.b_g2),
        g1_exp(proof.c_g1),
        g1_exp(g1_msm_spec(pvk.vk.t_v_g1@, models(instance))),
        g2_exp(pvk.gamma_g2_neg_pc),
        g2_exp(pvk.vk.delta_g2),
        r1,
        r2,
        finv(r1),
    );
}

/// The re-randomization of `proof` by the factors `r1`, `r2`:
/// `A' = A / r1`, `B' = r1 * B + r1 * r2 * delta`, `C' = C + r2 * A`.
pub open spec fn rerandomized(vk: VerifyingKey, proof: Proof, r1: nat, r2: nat) -> Proof {
    Proof {
        a_g1: g1_mul_of(proof.a_g1, finv(r1)),
        b_g2: g2_add_of(g2_mul_of(proof.b_g2, r1), g2_mul_of(vk.delta_g2, fmul(r1, r2))),
        c_g1: g1_add_of(proof.c_g1, g1_mul_of(proof.a_g1, r2)),
    }
}

/// `A = r * delta + alpha + sum_i z_i * u_i`.
pub open spec fn proof_a(pk: ProvingKey, r: nat, z: Seq<nat>) -> G1Point {
    g1_add_of(g1_add_of(g1_mul_of(pk.delta_g1, r), pk.vk.alpha_g1), g1_msm_spec(pk.u_g1@, z))
}

/// `B = s * delta + beta + sum_i z_i * v_i` in G1.
pub open spec fn proof_b_g1(pk: ProvingKey, s: nat, z: Seq<nat>) -> G1Point {
    g1_add_of(g1_add_of(g1_mul_of(pk.delta_g1, s), pk.beta_g1), g1_msm_spec(pk.v_g1@, z))
}

/// `B = s * delta + beta + sum_i z_i * v_i` in G2.
pub open spec fn proof_b_g2(pk: ProvingKey, s: nat, z: Seq<nat>) -> G2Point {
    g2_add_of(g2_add_of(g2_mul_of(pk.vk.delta_g2, s), pk.vk.beta_g2), g2_msm_spec(pk.v_g2@, z))
}

/// `C = s * A + r * B - r * s * delta + sum_i w_i * l_i + sum_i q_i * h_i`.
pub open spec fn proof_c(pk: ProvingKey, r: nat, s: nat, q: Seq<nat>, w: Seq<nat>, z: Seq<nat>) -> G1Point {
    g1_add_of(
        g1_add_of(
            g1_sub_of(
                g1_add_of(g1_mul_of(proof_a(pk, r, z), s), g1_mul_of(proof_b_g1(pk, s, z), r)),
                g1_mul_of(pk.delta_g1, fmul(r, s)),
            ),
            g1_msm_spec(pk.t_p_g1@, w),
        ),
        g1_msm_spec(pk.tau_powers_g1@, q),
    )
}

/// The exponent of `A = r * delta + alpha + sum_i z_i * u_i`.
pub open spec fn a_exp(pk: ProvingKey, r: nat, z: Seq<nat>) -> nat {
    fadd(fadd(fmul(g1_exp(pk.delta_g1), r), g1_exp(pk.vk.alpha_g1)), exp_dense(g1_exps(pk.u_g1@), z))
}

/// The exponent of `B = s * delta + beta + sum_i z_i * v_i` in G2.
pub open spec fn b2_exp(pk: ProvingKey, s: nat, z: Seq<nat>) -> nat {
    fadd(fadd(fmul(g2_exp(pk.vk.delta_g2), s), g2_exp(pk.vk.beta_g2)), exp_dense(g2_exps(pk.v_g2@), z))
}

/// The exponent of `B = s * delta + beta + sum_i z_i * v_i` in G1.
pub open spec fn b1_exp(pk: ProvingKey, s: nat, z: Seq<nat>) -> nat {
    fadd(fadd(fmul(g1_exp(pk.delta_g1), s), g1_exp(pk.beta_g1)), exp_dense(g1_exps(pk.v_g1@), z))
}

/// The exponent of the part of `C` without the quotient:
/// `s * A + r * B - r * s * delta + sum_i w_i * l_i`.
pub open spec fn c_lin_exp(pk: ProvingKey, r: nat, s: nat, w: Seq<nat>, z: Seq<nat>) -> nat {
    fadd(
        crate::field::fsub(
            fadd(fmul(a_exp(pk, r, z), s), fmul(b1_exp(pk, s, z), r)),
            fmul(g1_exp(pk.delta_g1), fmul(r, s)),
        ),
        exp_dense(g1_exps(pk.t_p_g1@), w),
    )
}

/// The exponent of `C`: its part without the quotient plus
/// `sum_i q_i * h_i`.
pub open spec fn c_exp(pk: ProvingKey, r: nat, s: nat, q: Seq<nat>, w: Seq<nat>, z: Seq<nat>) -> nat {
    fadd(c_lin_exp(pk, r, s, w, z), exp_dense(g1_exps(pk.tau_powers_g1@), q))
}

/// `A` without randomness: `alpha + sum_i z_i * u_i`.
pub open spec fn raw_a(pk: ProvingKey, z: Seq<nat>) -> G1Point {
    g1_add_of(pk.vk.alpha_g1, g1_msm_spec(pk.u_g1@, z))
}

/// `B` in G1 without randomness: `beta + sum_i z_i * v_i`.
pub open spec fn raw_b_g1(pk: ProvingKey, z: Seq<nat>) -> G1Point {
    g1_add_of(pk.beta_g1, g1_msm_spec(pk.v_g1@, z))
}

/// `B` in G2 without randomness: `beta + sum_i z_i * v_i`.
pub open spec fn raw_b_g2(pk: ProvingKey, z: Seq<nat>) -> G2Point {
    g2_add_of(pk.vk.beta_g2, g2_msm_spec(pk.v_g2@, z))
}

/// `C` without randomness: `sum_i w_i * l_i + sum_i q_i * h_i`.
pub open spec fn raw_c(pk: ProvingKey, q: Seq<nat>, w: Seq<nat>) -> G1Point {
    g1_add_of(g1_msm_spec(pk.t_p_g1@, w), g1_msm_spec(pk.tau_powers_g1@, q))
}

/// The four elements of a proof with randomness `r`, `s`, quotient `q`,
/// instance `x` and witness `w`.
fn proof_elements(
    pk: &ProvingKey,
    r: &Scalar,
    s: &Scalar,
    quotient: &[Scalar],
    instance: &[Scalar],
    witness: &[Scalar],
) -> (res: (G1Point, G1Point, G2Point, G1Point))
    requires
        instance@.len() + witness@.len() <= usize::MAX,
    ensures
        ({
            let z = models(instance@ + witness@);
            &&& res.0 == proof_a(*pk, r@, z)
            &&& res.1 == proof_b_g1(*pk, s@, z)
            &&& res.2 == proof_b_g2(*pk, s@, z)
            &&& res.3 == proof_c(*pk, r@, s@, models(quotient@), models(witness@), z)
            &&& g1_exp(res.0) == a_exp(*pk, r@, z)
            &&& g2_exp(res.2) == b2_exp(*pk, s@, z)
            &&& g1_exp(res.1) == b1_exp(*pk, s@, z)
            &&& g1_exp(res.3) == c_exp(*pk, r@, s@, models(quotient@), models(witness@), z)
            &&& r@ == 0 && s@ == 0 ==> {
                &&& res.0 == raw_a(*pk, z)
                &&& res.1 == raw_b_g1(*pk, z)
                &&& res.2 == raw_b_g2(*pk, z)
                &&& res.3 == raw_c(*pk, models(quotient@), models(witness@))
            }
        }),
{
    let q_g1 = g1_msm(pk.tau_powers_g1.as_slice(), quotient);
    let t_p_witness_g1 = g1_msm(pk.t_p_g1.as_slice(), witness);
    let rs = fr_mul(r, s);
    let r_s_delta_g1 = g1_mul(&pk.delta_g1, &rs);
    let assignment = concat_assignment(instance, witness);
    // Compute A in G1
    let r_delta_g1 = g1_mul(&pk.delta_g1, r);
    let a_g1 = g1_add(&g1_add(&r_delta_g1, &pk.vk.alpha_g1), &g1_msm(pk.u_g1.as_slice(), assignment.as_slice()));
    // Compute B in G1
    let s_delta_g1 = g1_mul(&pk.delta_g1, s);
    let b_g1 = g1_add(&g1_add(&s_delta_g1, &pk.beta_g1), &g1_msm(pk.v_g1.as_slice(), assignment.as_slice()));
    // Compute B in G2
    let s_delta_g2 = g2_mul(&pk.vk.delta_g2, s);
    let b_g2 = g2_add(&g2_add(&s_delta_g2, &pk.vk.beta_g2), &g2_msm(pk.v_g2.as_slice(), assignment.as_slice()));
    // Compute C in G1
    let c_g1 = g1_add(
        &g1_add(&g1_sub(&g1_add(&g1_mul(&a_g1, s), &g1_mul(&b_g1, r)), &r_s_delta_g1), &t_p_witness_g1),
        &q_g1,
    );
    proof {
        assert(models(assignment@) == models(instance@ + witness@));
    }
    (a_g1, b_g1, b_g2, c_g1)
}

/// A copy of `v[lo..hi]`.
fn copy_range(v: &[Scalar], lo: usize, hi: usize) -> (r: Vec<Scalar>)
    requires
        lo <= hi <= v@.len(),
    ensures
        r@ == v@.subrange(lo as int, hi as int),
{
    let mut r: Vec<Scalar> = Vec::with_capacity(hi - lo);
    let mut i = lo;
    while i < hi
        invariant
            lo <= i <= hi,
            hi <= v@.len(),
            r@ == v@.subrange(lo as int, i as int),
        decreases hi - i,
    {
        r.push(v[i]);
        i = i + 1;
        proof {
            assert(r@ =~= v@.subrange(lo as int, i as int));
        }
    }
    r
}

/// Whether the subgroup for `k` constraints exists and its vanishing
/// polynomial is nonzero on the coset `7 * H`.
pub open spec fn quotient_defined(k: nat) -> bool {
    k <= 0x1_0000_0000 && k <= usize::MAX / 2 + 1 && coset_ok(conv_size(k))
}

/// The quotient of the rows of the matrices on `z` over the subgroup for
/// `k` constraints.
pub open spec fn matrices_quotient(m: ConstraintMatrices, z: Seq<Scalar>, k: nat) -> Seq<nat> {
    let n = conv_size(k);
    quotient_spec(n, row_evals(m.a@, z, k, n), row_evals(m.b@, z, k, n), row_evals(m.c@, z, k, n))
}

/// Equal bytes.
fn bytes_eq(a: &Vec<u8>, b: &Vec<u8>) -> (r: bool)
    ensures
        r == (a@ == b@),
{
    if a.len() != b.len() {
        return false;
    }
    let mut i: usize = 0;
    while i < a.len()
        invariant
            i <= a@.len(),
            a@.len() == b@.len(),
            forall|j: int| 0 <= j < i ==> a@[j] == b@[j],
        decreases a@.len() - i,
    {
        if a[i] != b[i] {
            return false;
        }
        i = i + 1;
    }
    proof {
        assert(a@ =~= b@);
    }
    true
}

/// Prepare the verifying key `vk` for use in proof verification.
pub fn prepare_verifying_key(vk: &VerifyingKey) -> (r: PreparedVerifyingKey)
    ensures
        vk_same(r.vk, *vk),
        r.alpha_g1_beta_g2@ == pairing_of(vk.alpha_g1, vk.beta_g2),
        r.gamma_g2_neg_pc == g2_neg_of(vk.gamma_g2),
        r.delta_g2_neg_pc == g2_neg_of(vk.delta_g2),
        prepared_exps(*vk, r),
{
    PreparedVerifyingKey {
        vk: copy_vk(vk),
        alpha_g1_beta_g2: gt_pairing(&vk.alpha_g1, &vk.beta_g2),
        gamma_g2_neg_pc: g2_neg(&vk.gamma_g2),
        delta_g2_neg_pc: g2_neg(&vk.delta_g2),
    }
}

impl Groth16 {
    /// Creates a Groth16 proof with randomness `r` and `s` from the
    /// quotient coefficients and the instance and witness assignments.
    pub fn create_proof_with_assignment(
        pk: &ProvingKey,
        r: Scalar,
        s: Scalar,
        quotient: &[Scalar],
        instance: &[Scalar],
        witness: &[Scalar],
    ) -> (res: Result<Proof, SynthesisError>)
        requires
            instance@.len() + witness@.len() <= usize::MAX,
        ensures
            ({
                let z = models(instance@ + witness@);
                res matches Ok(p) && p.a_g1 == proof_a(*pk, r@, z) && p.b_g2 == proof_b_g2(*pk, s@, z) && p.c_g1
                    == proof_c(*pk, r@, s@, models(quotient@), models(witness@), z)
            }),
            res matches Ok(p) && g1_exp(p.a_g1) == a_exp(*pk, r@, models(instance@ + witness@)) && g2_exp(p.b_g2)
                == b2_exp(*pk, s@, models(instance@ + witness@)),
    {
        let (a_g1, b_g1, b_g2, c_g1) = proof_elements(pk, &r, &s, quotient, instance, witness);
        Ok(Proof { a_g1, b_g2, c_g1 })
    }

    /// Creates a Groth16 proof of the full assignment `z = instance ++
    /// witness`, whose first `num_inputs` entries are the instance, with
    /// randomness `r` and `s`, using the R1CS constraint matrices.
    pub fn generate_proof_with_matrices(
        pk: &ProvingKey,
        r: Scalar,
        s: Scalar,
        matrices: &ConstraintMatrices,
        num_inputs: usize,
        num_constraints: usize,
        full_assignment: &[Scalar],
    ) -> (res: Result<Proof, SynthesisError>)
        requires
            num_inputs <= full_assignment@.len(),
            matrices_in_range(*matrices, full_assignment@.len()),
            num_constraints <= matrices.c@.len(),
        ensures
            res is Ok <==> quotient_defined(num_constraints as nat),
            res matches Err(e) ==> e == SynthesisError::PolynomialDegreeTooLarge || e
                == SynthesisError::UnexpectedIdentity,
            res matches Ok(p) ==> ({
                let x = full_assignment@.subrange(0, num_inputs as int);
                let w = full_assignment@.subrange(num_inputs as int, full_assignment@.len() as int);
                let z = models(x + w);
                let q = matrices_quotient(*matrices, full_assignment@, num_constraints as nat);
                &&& p.a_g1 == proof_a(*pk, r@, z)
                &&& p.b_g2 == proof_b_g2(*pk, s@, z)
                &&& p.c_g1 == proof_c(*pk, r@, s@, q, models(w), z)
                &&& g1_exp(p.a_g1) == a_exp(*pk, r@, z)
                &&& g2_exp(p.b_g2) == b2_exp(*pk, s@, z)
            }),
    {
        let h = match LibsnarkReduction::compute_quotient_from_matrices(
            matrices,
            num_inputs,
            num_constraints,
            full_assignment,
        ) {
            Ok(h) => h,
            Err(e) => {
                return Err(e);
            },
        };
        let input_assignment = copy_range(full_assignment, 0, num_inputs);
        let aux_assignment = copy_range(full_assignment, num_inputs, full_assignment.len());
        Self::create_proof_with_assignment(
            pk,
            r,
            s,
            h.as_slice(),
            input_assignment.as_slice(),
            aux_assignment.as_slice(),
        )
    }

    /// Proof raw a,b,c without random r,s
    pub fn calc_raw_proof(
        pk: &ProvingKey,
        domain: &GeneralEvaluationDomain,
        instance: &[Scalar],
        witness: &[Scalar],
        a: &Vec<Scalar>,
        b: &Vec<Scalar>,
        c: &Vec<Scalar>,
    ) -> (res: (G1Point, G1Point, G2Point, G1Point))
        requires
            coset_ok(domain.spec_size()),
            instance@.len() + witness@.len() <= usize::MAX,
        ensures
            ({
                let z = models(instance@ + witness@);
                let q = quotient_spec(domain.spec_size(), models(a@), models(b@), models(c@));
                &&& res.0 == proof_a(*pk, 0, z)
                &&& res.1 == proof_b_g1(*pk, 0, z)
                &&& res.2 == proof_b_g2(*pk, 0, z)
                &&& res.3 == proof_c(*pk, 0, 0, q, models(witness@), z)
                &&& g1_exp(res.0) == a_exp(*pk, 0, z)
                &&& g2_exp(res.2) == b2_exp(*pk, 0, z)
                &&& res.0 == raw_a(*pk, z)
                &&& res.1 == raw_b_g1(*pk, z)
                &&& res.2 == raw_b_g2(*pk, z)
                &&& res.3 == raw_c(*pk, q, models(witness@))
            }),
    {
        let quotient = match LibsnarkReduction::compute_quotient(
            domain,
            crate::fft_handler::copy_vec(a),
            crate::fft_handler::copy_vec(b),
            crate::fft_handler::copy_vec(c),
        ) {
            Ok(q) => q,
            Err(_) => {
                proof {
                    assert(false);
                }
                Vec::new()
            },
        };
        let r = Scalar::zero();
        let s = Scalar::zero();
        proof {
            assert(r@ == 0 && s@ == 0);
        }
        proof_elements(pk, &r, &s, quotient.as_slice(), instance, witness)
    }

    /// Generates a proof of satisfaction of the arithmetic circuit C (specified
    /// as R1CS constraints), with randomness from `rng`.
    pub fn prove_dynark(
        pk: &ProvingKey,
        r1cs: &ConstraintMatrices,
        instance: &[Scalar],
        witness: &[Scalar],
        rng: &mut StdRng,
    ) -> (res: Result<(Proof, Cache), SynthesisError>)
        requires
            instance@.len() + witness@.len() <= usize::MAX,
            matrices_in_range(*r1cs, instance@.len() + witness@.len()),
            r1cs.num_constraints <= 0x1_0000_0000,
            r1cs.num_constraints <= usize::MAX / 2 + 1,
        ensures
            res is Ok <==> coset_ok(conv_size(r1cs.num_constraints as nat)),
            res matches Err(e) ==> e == SynthesisError::UnexpectedIdentity,
            res matches Ok(t) ==> prove_result(*pk, *r1cs, instance@, witness@, t.0, t.1),
    {
        let num_constraints = r1cs.num_constraints;
        let domain = GeneralEvaluationDomain::new(num_constraints).unwrap();
        let z = concat_assignment(instance, witness);
        let (a, b, c) = lagrange_of_dense_vec(r1cs, z.as_slice()).unwrap();
        proof {
            lemma_next_pow2_unique(domain.spec_size(), num_constraints as nat);
            let n2 = choose|n: nat|
                is_next_pow2(n, num_constraints as nat) && models(a@) == row_evals(r1cs.a@, z@, num_constraints as nat, n)
                    && models(b@) == row_evals(r1cs.b@, z@, num_constraints as nat, n) && models(c@) == row_evals(
                    r1cs.c@,
                    z@,
                    num_constraints as nat,
                    n,
                );
            lemma_next_pow2_unique(n2, num_constraints as nat);
        }
        let quotient = match LibsnarkReduction::compute_quotient(&domain, a, b, c) {
            Ok(q) => q,
            Err(e) => {
                return Err(e);
            },
        };
        let r = fr_rand(rng);
        let s = fr_rand(rng);
        let (a_g1, b_g1, b_g2, c_g1) = proof_elements(pk, &r, &s, quotient.as_slice(), instance, witness);
        let proof = Proof { a_g1, b_g2, c_g1 };
        let cache = Cache {
            domain,
            num_instance: instance.len(),
            a_g1: proof.a_g1,
            b_g1,
            b_g2: proof.b_g2,
            c_g1: proof.c_g1,
            r,
            s,
            q_a: Vec::new(),
            q_b: Vec::new(),
        };
        Ok((proof, cache))
    }

    /// Given a Groth16 proof, returns a fresh proof of the same statement:
    /// the re-randomization by two nonzero factors drawn from `rng` (drawn
    /// again while either is zero). Should every one of `u64::MAX` draws give
    /// a zero, the factors are one.
    pub fn rerandomize_proof(vk: &VerifyingKey, proof: &Proof, rng: &mut StdRng) -> (r: Proof)
        ensures
            exists|r1: nat, r2: nat|
                r1 != 0 && r2 != 0 && #[trigger] rerandomized(*vk, *proof, r1, r2) == r && rerandomized_exps(
                    *vk,
                    *proof,
                    r,
                    r1,
                    r2,
                ),
    {
        let mut r1 = Scalar::zero();
        let mut r2 = Scalar::zero();
        let mut tries: u64 = 0;
        while (r1.is_zero() || r2.is_zero()) && tries < u64::MAX
            decreases u64::MAX - tries,
        {
            r1 = fr_rand(rng);
            r2 = fr_rand(rng);
            tries = tries + 1;
        }
        if r1.is_zero() || r2.is_zero() {
            r1 = Scalar::one();
            r2 = Scalar::one();
        }
        let r = Self::rerandomize_proof_with_factors(vk, proof, r1, r2);
        proof {
            assert(rerandomized(*vk, *proof, r1@, r2@) == r && rerandomized_exps(*vk, *proof, r, r1@, r2@));
        }
        r
    }

    /// Given a Groth16 proof, returns a fresh proof of the same statement,
    /// with the nonzero factors `r1`, `r2`: `A' = A / r1`,
    /// `B' = r1 * B + r1 * r2 * delta`, `C' = C + r2 * A`.
    pub fn rerandomize_proof_with_factors(vk: &VerifyingKey, proof: &Proof, r1: Scalar, r2: Scalar) -> (r: Proof)
        requires
            r1@ != 0,
            r2@ != 0,
        ensures
            r == rerandomized(*vk, *proof, r1@, r2@),
            r.a_g1 == g1_mul_of(proof.a_g1, finv(r1@)),
            r.b_g2 == g2_add_of(g2_mul_of(proof.b_g2, r1@), g2_mul_of(vk.delta_g2, fmul(r1@, r2@))),
            r.c_g1 == g1_add_of(proof.c_g1, g1_mul_of(proof.a_g1, r2@)),
            rerandomized_exps(*vk, *proof, r, r1@, r2@),
    {
        let inv = match fr_inverse(&r1) {
            Some(x) => x,
            None => {
                proof {
                    assert(false);
                }
                r1
            },
        };
        let new_a = g1_mul(&proof.a_g1, &inv);
        let new_b = g2_add(&g2_mul(&proof.b_g2, &r1), &g2_mul(&vk.delta_g2, &fr_mul(&r1, &r2)));
        let new_c = g1_add(&proof.c_g1, &g1_mul(&proof.a_g1, &r2));
        Proof { a_g1: new_a, b_g2: new_b, c_g1: new_c }
    }

    /// Verify a Groth16 proof `proof` against the prepared verification key
    /// `pvk`, with respect to the instance `public_inputs`.
    pub fn verify_dynark(pvk: &PreparedVerifyingKey, proof: &Proof, instance: &[Scalar]) -> (r: Result<
        bool,
        SynthesisError,
    >)
        ensures
            instance@.len() != pvk.vk.t_v_g1@.len() ==> r == Err::<bool, SynthesisError>(
                SynthesisError::MalformedVerifyingKey,
            ),
            instance@.len() == pvk.vk.t_v_g1@.len() ==> r is Ok,
            r matches Ok(b) ==> b == (gt_of_exp(verify_exp(*pvk, *proof, instance@)) == pvk.alpha_g1_beta_g2@),
            r matches Ok(b) ==> b == (multi_pairing_of(
                seq![proof.a_g1, g1_msm_spec(pvk.vk.t_v_g1@, models(instance@)), proof.c_g1],
                seq![proof.b_g2, pvk.gamma_g2_neg_pc, pvk.delta_g2_neg_pc],
            ) == pvk.alpha_g1_beta_g2@),
    {
        if instance.len() != pvk.vk.t_v_g1.len() {
            return Err(SynthesisError::MalformedVerifyingKey);
        }
        let t_v_instance_g1 = g1_msm(pvk.vk.t_v_g1.as_slice(), instance);
        let g1s = [proof.a_g1, t_v_instance_g1, proof.c_g1];
        let g2s = [proof.b_g2, pvk.gamma_g2_neg_pc, pvk.delta_g2_neg_pc];
        let test = match gt_multi_pairing(&g1s, &g2s) {
            Some(t) => t,
            None => {
                return Err(SynthesisError::UnexpectedIdentity);
            },
        };
        proof {
            assert(g1s@ =~= seq![proof.a_g1, t_v_instance_g1, proof.c_g1]);
            assert(g2s@ =~= seq![proof.b_g2, pvk.gamma_g2_neg_pc, pvk.delta_g2_neg_pc]);
            let a3 = g1s@;
            let b3 = g2s@;
            assert(a3.drop_last().drop_last().drop_last().len() == 0);
            reveal_with_fuel(exp_pairs, 4);
            assert(exp_pairs(a3, b3) == verify_exp(*pvk, *proof, instance@)) by {
                assert(a3.drop_last() =~= seq![proof.a_g1, t_v_instance_g1]);
                assert(a3.drop_last().drop_last() =~= seq![proof.a_g1]);
                assert(a3.drop_last().drop_last().drop_last() =~= Seq::<G1Point>::empty());
            }
        }
        Ok(bytes_eq(&test, &pvk.alpha_g1_beta_g2))
    }
}

/// The proof and the cache that proving the instance and witness with the
/// key gives, for the randomness `cache.r`, `cache.s` drawn.
pub open spec fn prove_result(
    pk: ProvingKey,
    r1cs: ConstraintMatrices,
    instance: Seq<Scalar>,
    witness: Seq<Scalar>,
    proof: Proof,
    cache: Cache,
) -> bool {
    let z = models(instance + witness);
    let q = matrices_quotient(r1cs, instance + witness, r1cs.num_constraints as nat);
    &&& cache.domain.spec_size() == conv_size(r1cs.num_constraints as nat)
    &&& proof.a_g1 == proof_a(pk, cache.r@, z)
    &&& proof.b_g2 == proof_b_g2(pk, cache.s@, z)
    &&& proof.c_g1 == proof_c(pk, cache.r@, cache.s@, q, models(witness), z)
    &&& cache.num_instance == instance.len()
    &&& cache.a_g1 == proof.a_g1
    &&& cache.b_g1 == proof_b_g1(pk, cache.s@, z)
    &&& cache.b_g2 == proof.b_g2
    &&& cache.c_g1 == proof.c_g1
    &&& cache.q_a@.len() == 0
    &&& cache.q_b@.len() == 0
    &&& g1_exp(proof.a_g1) == a_exp(pk, cache.r@, z)
    &&& g2_exp(proof.b_g2) == b2_exp(pk, cache.s@, z)
    &&& g1_exp(cache.b_g1) == b1_exp(pk, cache.s@, z)
    &&& g1_exp(cache.c_g1) == c_exp(pk, cache.r@, cache.s@, q, models(witness), z)
}


/// `p` is the proof of the synthesized constraint system `cs` with the key
/// and the randomness `r`, `s`: its assignment is `instance ++ witness`,
/// and the quotient that of its matrices over the least subgroup with room
/// for its constraints.
pub open spec fn circuit_proof(pk: ProvingKey, cs: ConstraintSystemRef, r: nat, s: nat, p: Proof) -> bool {
    let zs = cs.instance_assignment@ + cs.witness_assignment@;
    let z = models(zs);
    let q = matrices_quotient(cs.matrices, zs, cs.num_constraints as nat);
    &&& p.a_g1 == proof_a(pk, r, z)
    &&& p.b_g2 == proof_b_g2(pk, s, z)
    &&& p.c_g1 == proof_c(pk, r, s, q, models(cs.witness_assignment@), z)
}

impl Groth16 {
    /// Create a Groth16 proof using randomness `r` and `s` and the provided
    /// R1CS-to-QAP reduction, for the synthesized constraint system `cs`.
    pub fn create_proof_with_reduction(cs: &ConstraintSystemRef, pk: &ProvingKey, r: Scalar, s: Scalar) -> (res: Result<
        Proof,
        SynthesisError,
    >)
        requires
            cs_ok(*cs),
            cs.num_constraints <= 0x1_0000_0000,
            cs.num_constraints <= usize::MAX / 2 + 1,
        ensures
            res is Ok <==> coset_ok(conv_size(cs.num_constraints as nat)),
            res matches Err(e) ==> e == SynthesisError::UnexpectedIdentity,
            res matches Ok(p) ==> circuit_proof(*pk, *cs, r@, s@, p),
    {
        let (domain, a, b, c) = match LibsnarkReduction::lagrange_form_from_cs(cs) {
            Ok(t) => t,
            Err(_) => {
                proof {
                    assert(false);
                }
                return Err(SynthesisError::PolynomialDegreeTooLarge);
            },
        };
        proof {
            lemma_next_pow2_unique(domain.spec_size(), cs.num_constraints as nat);
        }
        let q = match LibsnarkReduction::compute_quotient(&domain, a, b, c) {
            Ok(q) => q,
            Err(e) => {
                return Err(e);
            },
        };
        Self::create_proof_with_assignment(
            pk,
            r,
            s,
            q.as_slice(),
            cs.instance_assignment.as_slice(),
            cs.witness_assignment.as_slice(),
        )
    }

    /// Create a Groth16 proof that is zero-knowledge using the provided
    /// R1CS-to-QAP reduction.
    /// This method samples randomness for zero knowledges via `rng`.
    pub fn generate_proof_with_circuit(cs: &ConstraintSystemRef, pk: &ProvingKey, rng: &mut StdRng) -> (res: Result<
        Proof,
        SynthesisError,
    >)
        requires
            cs_ok(*cs),
            cs.num_constraints <= 0x1_0000_0000,
            cs.num_constraints <= usize::MAX / 2 + 1,
        ensures
            res is Ok <==> coset_ok(conv_size(cs.num_constraints as nat)),
            res matches Err(e) ==> e == SynthesisError::UnexpectedIdentity,
            res matches Ok(p) ==> exists|r: nat, s: nat| #[trigger] circuit_proof(*pk, *cs, r, s, p),
    {
        let r = fr_rand(rng);
        let s = fr_rand(rng);
        let res = Self::create_proof_with_reduction(cs, pk, r, s);
        proof {
            if let Ok(p) = res {
                assert(circuit_proof(*pk, *cs, r@, s@, p));
            }
        }
        res
    }
}

} // verus!
