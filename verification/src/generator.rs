//! Setup from a synthesized constraint system: the subgroup for its
//! constraints, its matrices, and a proving key with fresh secrets.
use vstd::prelude::*;
use crate::data_structures::ProvingKey;
use crate::domain::GeneralEvaluationDomain;
use crate::dynark_generator::{keygen_sizes_ok, setup_keys_of, prover_key_of};
use crate::fft_handler::{conv_size, lemma_next_pow2_unique};
use crate::field::{fpow, fsub, fr_rand};
use crate::group::{g1_rand, g2_rand};
use crate::groth16::Groth16;
use crate::relations::{ConstraintMatrices, ConstraintSystemRef, SynthesisError};
use ark_std::rand::rngs::StdRng;

verus! {

impl Groth16 {
    /// The least subgroup with room for the constraints of `cs`, and its
    /// matrices.
    pub fn process_circuit(cs: ConstraintSystemRef) -> (r: (GeneralEvaluationDomain, ConstraintMatrices))
        requires
            cs.num_constraints <= 0x1_0000_0000,
            cs.num_constraints <= usize::MAX / 2 + 1,
        ensures
            r.0.spec_size() == conv_size(cs.num_constraints as nat),
            r.1 == cs.matrices,
    {
        let domain_min_size = cs.num_constraints;
        let domain = GeneralEvaluationDomain::new(domain_min_size).unwrap();
        proof {
            lemma_next_pow2_unique(domain.spec_size(), domain_min_size as nat);
        }
        (domain, cs.matrices)
    }

    /// Generates a random common reference string for
    /// a circuit using the provided R1CS-to-QAP reduction.
    pub fn generate_prover_key(cs: ConstraintSystemRef, rng: &mut StdRng) -> (r: Result<ProvingKey, SynthesisError>)
        requires
            cs.num_constraints <= 0x1_0000_0000,
            cs.num_constraints <= usize::MAX / 2 + 1,
            keygen_sizes_ok(conv_size(cs.num_constraints as nat), cs.matrices),
        ensures
            r matches Err(e) ==> e == SynthesisError::UnexpectedIdentity,
            r matches Ok(pk) ==> pk.vk.domain.spec_size() == conv_size(cs.num_constraints as nat) && setup_keys_of(
                cs.matrices,
                pk.vk.domain,
                pk,
            ),
    {
        let ghost m = cs.matrices;
        let (domain, matrices) = Self::process_circuit(cs);
        let tau = domain.sample_element_outside_domain(rng);
        let alpha = fr_rand(rng);
        let beta = fr_rand(rng);
        let gamma = fr_rand(rng);
        let delta = fr_rand(rng);
        let g1_gen = g1_rand(rng);
        let g2_gen = g2_rand(rng);
        let r = Self::generate_prover_key_with_matrices(
            domain,
            &matrices,
            (tau, alpha, beta, gamma, delta, g1_gen, g2_gen),
        );
        proof {
            if r is Ok {
                let pk = r->Ok_0;
                reveal(prover_key_of);
                assert(pk.vk.domain == domain);
                assert(fsub(fpow(tau@, domain.spec_size()), 1) != 0 && prover_key_of(
                    domain,
                    m,
                    tau@,
                    alpha@,
                    beta@,
                    gamma@,
                    delta@,
                    g1_gen,
                    g2_gen,
                    pk,
                ));
            }
        }
        r
    }
}

} // verus!
