//! The keys, proofs and caches of the SNARK.
use vstd::prelude::*;
use crate::domain::GeneralEvaluationDomain;
use crate::field::Scalar;
use crate::group::{G1Point, G2Point, g1_identity, g2_identity, g1_zero, g2_zero, gt_default_bytes};

verus! {

/// A proof in the Groth16 SNARK.
#[derive(Clone, Copy, Debug, PartialEq, Eq)]
pub struct Proof {
    /// The `A` element in `G1`.
    pub a_g1: G1Point,
    /// The `B` element in `G2`.
    pub b_g2: G2Point,
    /// The `C` element in `G1`.
    pub c_g1: G1Point,
}

impl Default for Proof {
    /// The proof of three identities.
    fn default() -> (r: Self)
        ensures
            r.a_g1 == g1_identity(),
            r.b_g2 == g2_identity(),
            r.c_g1 == g1_identity(),
    {
        Proof { a_g1: g1_zero(), b_g2: g2_zero(), c_g1: g1_zero() }
    }
}

/// A verification key in the Groth16 SNARK.
#[derive(Clone, Debug)]
pub struct VerifyingKey {
    /// The number of constraints.
    pub num_constraints: usize,
    /// The number of instance variables, the constant one included.
    pub num_instance: usize,
    /// The number of witness variables.
    pub num_witness: usize,
    /// The subgroup of the constraints.
    pub domain: GeneralEvaluationDomain,
    /// The `alpha * G`, where `G` is the generator of `E::G1`.
    pub alpha_g1: G1Point,
    /// The `alpha * H`, where `H` is the generator of `E::G2`.
    pub beta_g2: G2Point,
    /// The `gamma * H`, where `H` is the generator of `E::G2`.
    pub gamma_g2: G2Point,
    /// The `delta * H`, where `H` is the generator of `E::G2`.
    pub delta_g2: G2Point,
    /// The `gamma^{-1} * (beta * a_i + alpha * b_i + c_i) * H`, where `H` is
    /// the generator of `E::G1`.
    pub t_v_g1: Vec<G1Point>,
}

impl Default for VerifyingKey {
    /// The empty key over the subgroup of order one.
    fn default() -> (r: Self)
        ensures
            r.num_constraints == 0,
            r.num_instance == 0,
            r.num_witness == 0,
            r.domain.spec_size() == 1,
            r.alpha_g1 == g1_identity(),
            r.beta_g2 == g2_identity(),
            r.gamma_g2 == g2_identity(),
            r.delta_g2 == g2_identity(),
            r.t_v_g1@.len() == 0,
    {
        let domain = GeneralEvaluationDomain::new(1).unwrap();
        VerifyingKey {
            num_constraints: 0,
            num_instance: 0,
            num_witness: 0,
            domain,
            alpha_g1: g1_zero(),
            beta_g2: g2_zero(),
            gamma_g2: g2_zero(),
            delta_g2: g2_zero(),
            t_v_g1: Vec::new(),
        }
    }
}

/// The two keys hold the same values.
pub open spec fn vk_same(a: VerifyingKey, b: VerifyingKey) -> bool {
    &&& a.num_constraints == b.num_constraints
    &&& a.num_instance == b.num_instance
    &&& a.num_witness == b.num_witness
    &&& a.domain == b.domain
    &&& a.alpha_g1 == b.alpha_g1
    &&& a.beta_g2 == b.beta_g2
    &&& a.gamma_g2 == b.gamma_g2
    &&& a.delta_g2 == b.delta_g2
    &&& a.t_v_g1@ == b.t_v_g1@
}

/// A copy of the key.
pub(crate) fn copy_vk(vk: &VerifyingKey) -> (r: VerifyingKey)
    ensures
        vk_same(r, *vk),
{
    VerifyingKey {
        num_constraints: vk.num_constraints,
        num_instance: vk.num_instance,
        num_witness: vk.num_witness,
        domain: vk.domain,
        alpha_g1: vk.alpha_g1,
        beta_g2: vk.beta_g2,
        gamma_g2: vk.gamma_g2,
        delta_g2: vk.delta_g2,
        t_v_g1: crate::fft_handler::copy_vec(&vk.t_v_g1),
    }
}

/// Preprocessed verification key parameters that enable faster verification
/// at the expense of larger size in memory.
#[derive(Clone, Debug)]
pub struct PreparedVerifyingKey {
    /// The unprepared verification key.
    pub vk: VerifyingKey,
    /// The encoding of `e(alpha * G, beta * H)` in the target group.
    pub alpha_g1_beta_g2: Vec<u8>,
    /// The element `- gamma * H` in `E::G2`.
    pub gamma_g2_neg_pc: G2Point,
    /// The element `- delta * H` in `E::G2`.
    pub delta_g2_neg_pc: G2Point,
}

impl From<PreparedVerifyingKey> for VerifyingKey {
    fn from(other: PreparedVerifyingKey) -> (r: Self) {
        other.vk
    }
}

impl vstd::std_specs::convert::FromSpecImpl<PreparedVerifyingKey> for VerifyingKey {
    open spec fn obeys_from_spec() -> bool {
        true
    }

    open spec fn from_spec(other: PreparedVerifyingKey) -> Self {
        other.vk
    }
}

impl Default for PreparedVerifyingKey {
    /// The empty key, the zero of the target field, and two identities.
    fn default() -> (r: Self)
        ensures
            r.vk.num_constraints == 0,
            r.vk.num_instance == 0,
            r.vk.num_witness == 0,
            r.vk.domain.spec_size() == 1,
            r.vk.alpha_g1 == g1_identity(),
            r.vk.beta_g2 == g2_identity(),
            r.vk.gamma_g2 == g2_identity(),
            r.vk.delta_g2 == g2_identity(),
            r.vk.t_v_g1@.len() == 0,
            r.alpha_g1_beta_g2@ == Seq::new(576, |i: int| 0u8),
            r.gamma_g2_neg_pc == g2_identity(),
            r.delta_g2_neg_pc == g2_identity(),
    {
        PreparedVerifyingKey {
            vk: VerifyingKey::default(),
            alpha_g1_beta_g2: gt_default_bytes(),
            gamma_g2_neg_pc: g2_zero(),
            delta_g2_neg_pc: g2_zero(),
        }
    }
}

/// The prover key for for the Groth16 zkSNARK.
#[derive(Clone, Debug)]
pub struct ProvingKey {
    /// The underlying verification key.
    pub vk: VerifyingKey,
    /// The element `beta * G` in `E::G1`.
    pub beta_g1: G1Point,
    /// The element `delta * G` in `E::G1`.
    pub delta_g1: G1Point,
    /// The elements `a_i * G` in `E::G1`.
    pub u_g1: Vec<G1Point>,
    /// The elements `b_i * G` in `E::G1`.
    pub v_g1: Vec<G1Point>,
    /// The elements `b_i * H` in `E::G2`.
    pub v_g2: Vec<G2Point>,
    /// The elements `h_i * G` in `E::G1`.
    pub tau_powers_g1: Vec<G1Point>,
    /// The elements `l_i * G` in `E::G1`.
    pub t_p_g1: Vec<G1Point>,
}

/// The two keys hold the same values.
pub open spec fn pk_same(a: ProvingKey, b: ProvingKey) -> bool {
    &&& vk_same(a.vk, b.vk)
    &&& a.beta_g1 == b.beta_g1
    &&& a.delta_g1 == b.delta_g1
    &&& a.u_g1@ == b.u_g1@
    &&& a.v_g1@ == b.v_g1@
    &&& a.v_g2@ == b.v_g2@
    &&& a.tau_powers_g1@ == b.tau_powers_g1@
    &&& a.t_p_g1@ == b.t_p_g1@
}

/// A copy of the key.
pub(crate) fn copy_pk(pk: &ProvingKey) -> (r: ProvingKey)
    ensures
        pk_same(r, *pk),
{
    ProvingKey {
        vk: copy_vk(&pk.vk),
        beta_g1: pk.beta_g1,
        delta_g1: pk.delta_g1,
        u_g1: crate::fft_handler::copy_vec(&pk.u_g1),
        v_g1: crate::fft_handler::copy_vec(&pk.v_g1),
        v_g2: crate::fft_handler::copy_vec(&pk.v_g2),
        tau_powers_g1: crate::fft_handler::copy_vec(&pk.tau_powers_g1),
        t_p_g1: crate::fft_handler::copy_vec(&pk.t_p_g1),
    }
}

/// The updater key for for the Groth16 zkSNARK.
#[derive(Clone, Debug)]
pub struct UpdatingKey {
    /// The proving key.
    pub pk: ProvingKey,
    /// The Lagrange basis at `tau` in G1 (the inverse FFT of the powers of
    /// `tau` with the top one dropped).
    pub lagrange_truncated: Vec<G1Point>,
    /// The projection weights `w_k = g^k / (1 - g^k) / n`.
    pub w: Vec<Scalar>,
    /// The weights in reverse cyclic order.
    pub w_reverse: Vec<Scalar>,
    /// The diagonal terms of the projection.
    pub p: Vec<G1Point>,
    /// The FFT of `w`.
    pub w_for_q: Vec<Scalar>,
    /// The FFT of `w_reverse`.
    pub w_reverse_for_q: Vec<Scalar>,
    /// The columns of `A`: the rows and coefficients of each variable.
    pub a_matrix_cols: Vec<Vec<(usize, Scalar)>>,
    /// The columns of `B`.
    pub b_matrix_cols: Vec<Vec<(usize, Scalar)>>,
}

/// What the prover keeps to update a proof: the subgroup, the assignment,
/// the randomness and the projection quotients.
#[derive(Clone, Debug)]
pub struct Cache {
    /// domain
    pub domain: GeneralEvaluationDomain,
    /// number of instance variables
    pub num_instance: usize,
    /// the randomness used to add zero-knowledge
    pub r: Scalar,
    /// the randomness used to add zero-knowledge
    pub s: Scalar,
    /// projection quotients of a_lagrange
    pub q_a: Vec<G1Point>,
    /// projection quotients of b_lagrange
    pub q_b: Vec<G1Point>,
    /// The `A` element in `G1`.
    pub a_g1: G1Point,
    /// The `B` element in `G2`.
    pub b_g1: G1Point,
    /// The `B` element in `G2`.
    pub b_g2: G2Point,
    /// The `C` element in `G1`.
    pub c_g1: G1Point,
}

} // verus!
