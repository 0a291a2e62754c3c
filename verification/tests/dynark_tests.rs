use ark_std::rand::rngs::StdRng;
use ark_std::rand::SeedableRng;
use dynark::domain::GeneralEvaluationDomain;
use dynark::dynamic_cache::{FullyCheckpoint, ReconstructPhase, SparseRecord};
use dynark::fft_handler::{par_fft, sbs_sqrt_fft, sqrt_fft_fw, CustomParaFFT, FFTVectorTypes, SqrtFftStatus};
use dynark::field::Scalar;
use dynark::groth16::{prepare_verifying_key, Groth16};
use dynark::instance_generator::{generate_instance_witness, generate_matrices, generate_update, generate_update_once};
use dynark::r1cs_to_qap::{evaluate_constraint, tau_powers_field, tau_powers_field_lifted, LibsnarkReduction, R1CSToQAP};
use dynark::relations::{ConstraintMatrices, ConstraintSystemRef, Matrix, SynthesisError};

fn f(x: u64) -> Scalar {
    Scalar::from_u64(x)
}

fn rng() -> StdRng {
    StdRng::seed_from_u64(7)
}

/// The matrices of the small circuit of the decomposition check: four
/// constraints over `z = (1, 3, 4)`.
fn small_circuit() -> (ConstraintMatrices, Vec<Scalar>, Vec<Scalar>) {
    let instance = vec![f(1), f(3)];
    let witness = vec![f(4)];
    let a: Matrix = vec![vec![(f(2), 0), (f(1), 1)], vec![(f(1), 1)], vec![(f(7), 0)], vec![(f(1), 2)]];
    let b: Matrix = vec![
        vec![(f(3), 2)],
        vec![(f(5), 0), (f(1), 2)],
        vec![(f(2), 0), (f(1), 1), (f(1), 2)],
        vec![(f(2), 1)],
    ];
    let c: Matrix = vec![vec![(f(60), 0)], vec![(f(27), 0)], vec![(f(63), 0)], vec![(f(24), 0)]];
    let m = ConstraintMatrices {
        num_instance_variables: 2,
        num_witness_variables: 1,
        num_constraints: 4,
        a_num_non_zero: 5,
        b_num_non_zero: 6,
        c_num_non_zero: 4,
        a,
        b,
        c,
    };
    (m, instance, witness)
}

fn concat(a: &[Scalar], b: &[Scalar]) -> Vec<Scalar> {
    let mut z = a.to_vec();
    z.extend_from_slice(b);
    z
}

#[test]
fn sparse_record_accumulates_and_resets() {
    let mut r = SparseRecord::new(8);
    r.ins(3, f(5));
    r.ins(1, f(2));
    r.ins(3, f(4));
    assert_eq!(r.get(3), f(9));
    assert_eq!(r.get(1), f(2));
    assert_eq!(r.get(0), Scalar::zero());
    assert_eq!(r.parse_unordered(), vec![(3, f(9)), (1, f(2))]);
    assert_eq!(r.parse(), vec![(1, f(2)), (3, f(9))]);
    r.clr();
    assert_eq!(r.get(3), Scalar::zero());
    assert_eq!(r.parse(), vec![]);
    r.ins(3, f(1));
    assert_eq!(r.get(3), f(1));
}

#[test]
fn domain_sizes() {
    assert_eq!(GeneralEvaluationDomain::new(5).unwrap().size(), 8);
    assert_eq!(GeneralEvaluationDomain::new(1).unwrap().size(), 1);
    assert_eq!(GeneralEvaluationDomain::new(16).unwrap().size(), 16);
    assert!(GeneralEvaluationDomain::new(1usize << 33).is_none());
}

#[test]
fn evaluate_constraint_values() {
    let z = vec![f(1), f(3), f(4)];
    assert_eq!(evaluate_constraint(&[(f(2), 0), (f(1), 1)], &z), f(5));
    assert_eq!(evaluate_constraint(&[(f(2), 0), (f(1), 1), (f(1), 2)], &z), f(9));
    assert_eq!(evaluate_constraint(&[], &z), Scalar::zero());
}

#[test]
fn field_arithmetic_values() {
    assert_eq!(f(3).mul(&f(4)), f(12));
    assert_eq!(f(3).sub(&f(4)).add(&f(1)), Scalar::zero());
    assert_eq!(f(2).pow(10), f(1024));
    assert_eq!(f(7).inverse().unwrap().mul(&f(7)), Scalar::one());
    assert!(Scalar::zero().inverse().is_none());
}

#[test]
fn tau_powers_values() {
    let v = tau_powers_field(3, f(2), f(5)).unwrap();
    assert_eq!(v, vec![f(5), f(10), f(20)]);
    let w = tau_powers_field_lifted(3, f(2), f(3), f(5)).unwrap();
    assert_eq!(w, vec![f(15), f(30), f(60)]);
}

fn scalars(n: u64) -> Vec<Scalar> {
    (0..n).map(|i| f(i * i + 3 * i + 1)).collect()
}

#[test]
fn stepped_fft_matches_domain_fft() {
    let n = 16;
    let domain = GeneralEvaluationDomain::new(n).unwrap();
    let info = CustomParaFFT::new(n, domain.group_gen());
    let v = scalars(n as u64);
    let expected = domain.fft(&v);
    let mut x = FFTVectorTypes::XF(v.clone());
    sbs_sqrt_fft(&info, &mut x, false);
    match &x {
        FFTVectorTypes::XF(r) => assert_eq!(r, &expected),
        _ => panic!("kind changed"),
    }
    sbs_sqrt_fft(&info, &mut x, true);
    match &x {
        FFTVectorTypes::XF(r) => assert_eq!(r, &v),
        _ => panic!("kind changed"),
    }
}

#[test]
fn parallel_fft_matches_domain_fft() {
    let n = 16;
    let domain = GeneralEvaluationDomain::new(n).unwrap();
    let info = CustomParaFFT::new(n, domain.group_gen());
    let v = scalars(n as u64);
    let expected = domain.fft(&v);
    let mut x = FFTVectorTypes::XF(v.clone());
    par_fft(&info, &mut x, false);
    match &x {
        FFTVectorTypes::XF(r) => assert_eq!(r, &expected),
        _ => panic!("kind changed"),
    }
}

#[test]
fn generated_assignment_satisfies_generated_matrices() {
    let mut rng = rng();
    let (m, ka, kb, ca, cb) = generate_matrices(16, 1, 15, &mut rng);
    assert_eq!(ka.len(), 7);
    let (instance, witness) = generate_instance_witness(1, 15, &mut rng, &ka, &kb, &ca, &cb);
    assert_eq!(instance[0], Scalar::one());
    let z = concat(&instance, &witness);
    for i in 0..16 {
        let a = evaluate_constraint(&m.a[i], &z);
        let b = evaluate_constraint(&m.b[i], &z);
        let c = evaluate_constraint(&m.c[i], &z);
        assert_eq!(a.mul(&b), c);
    }
}

#[test]
fn generated_update_adds_up() {
    let mut rng = rng();
    let (m, ka, kb, ca, cb) = generate_matrices(16, 3, 13, &mut rng);
    let (mut instance, mut witness) = generate_instance_witness(3, 13, &mut rng, &ka, &kb, &ca, &cb);
    let (i0, w0) = (instance.clone(), witness.clone());
    let (ui, uw) = generate_update(16, 3, 3, &ka, &kb, &ca, &cb, &mut instance, &mut witness, &mut rng);
    assert_eq!(ui.len() + uw.len(), 6);
    let mut z = concat(&i0, &w0);
    for (k, d) in ui.iter().chain(uw.iter()) {
        z[*k] = z[*k].add(d);
    }
    assert_eq!(z, concat(&instance, &witness));
    for w in ui.windows(2).chain(uw.windows(2)) {
        assert!(w[0].0 < w[1].0);
    }
    for (k, _) in &ui {
        assert!(*k < 3);
    }
    for (k, _) in &uw {
        assert!(*k >= 3);
    }
    for i in 0..16 {
        let a = evaluate_constraint(&m.a[i], &z);
        let b = evaluate_constraint(&m.b[i], &z);
        let c = evaluate_constraint(&m.c[i], &z);
        assert_eq!(a.mul(&b), c);
    }
}

#[test]
fn update_once_leaves_assignment() {
    let mut rng = rng();
    let (_m, ka, kb, ca, cb) = generate_matrices(16, 1, 15, &mut rng);
    let (instance, witness) = generate_instance_witness(1, 15, &mut rng, &ka, &kb, &ca, &cb);
    let (ui, uw) = generate_update_once(16, 2, 1, &ka, &kb, &ca, &cb, &instance, &witness, &mut rng);
    assert!(ui.is_empty());
    assert_eq!(uw.len(), 4);
    let mut z = concat(&instance, &witness);
    for (k, d) in &uw {
        z[*k] = z[*k].add(d);
    }
    for i in 1..8 {
        let v = z[i];
        let t = v.mul(&ka[i - 1]).add(&ca[i - 1]).mul(&v.mul(&kb[i - 1]).add(&cb[i - 1]));
        assert_eq!(z[i + 8], t);
    }
}

#[test]
fn quotient_decomposition() {
    let (m, _instance, _witness) = small_circuit();
    let mut rng = rng();
    let (pk0, _vk0, domain) = Groth16::groth16_setup_dynarc(m.clone(), &mut rng).unwrap();
    let n = domain.size();
    assert_eq!(n, 4);
    let tau = domain.sample_element_outside_domain(&mut rng);
    let delta = Scalar::one();
    let pk = Groth16::generate_prover_key_with_matrices(
        domain,
        &m,
        (tau, f(2), f(3), f(5), delta, pk0.delta_g1, pk0.vk.delta_g2),
    )
    .unwrap();
    let delta_inverse = delta.inverse().unwrap();
    let uk = Groth16::generate_updating_keys(&m, &domain, &pk).unwrap();
    let vanish_tau = domain.evaluate_vanishing_polynomial(&tau);
    let mut lifted = tau_powers_field_lifted(n - 1, tau, vanish_tau, delta_inverse).unwrap();
    lifted.push(Scalar::zero());
    let complete = tau_powers_field(n, tau, delta_inverse).unwrap();
    let lagrange_complete = domain.ifft(&complete);
    let lagrange_truncated = domain.ifft(&lifted);
    for i in 0..n {
        for j in 0..n {
            if i != j {
                let product = lagrange_complete[i].mul(&lagrange_complete[j]);
                let j_i = if j >= i { j - i } else { j + n - i };
                let i_j = if i >= j { i - j } else { i + n - j };
                let decomposition =
                    uk.w[j_i].mul(&lagrange_truncated[i]).add(&uk.w[i_j].mul(&lagrange_truncated[j]));
                assert_eq!(product, decomposition);
            }
        }
    }
}

#[test]
fn prove_and_verify_small_circuit() {
    let (m, instance, witness) = small_circuit();
    let mut rng = rng();
    let (pk, vk, _domain) = Groth16::groth16_setup_dynarc(m.clone(), &mut rng).unwrap();
    let (proof, _cache) = Groth16::prove_dynark(&pk, &m, &instance, &witness, &mut rng).unwrap();
    let pvk = prepare_verifying_key(&vk);
    assert_eq!(Groth16::verify_dynark(&pvk, &proof, &instance), Ok(true));
    assert_eq!(Groth16::verify_dynark(&pvk, &proof, &[f(1), f(4)]), Ok(false));
    assert_eq!(
        Groth16::verify_dynark(&pvk, &proof, &[f(1)]),
        Err(SynthesisError::MalformedVerifyingKey)
    );
    let re = Groth16::rerandomize_proof_with_factors(&vk, &proof, f(3), f(5));
    assert_eq!(Groth16::verify_dynark(&pvk, &re, &instance), Ok(true));
    let re2 = Groth16::rerandomize_proof(&vk, &proof, &mut rng);
    assert_ne!(re2, proof);
    assert_eq!(Groth16::verify_dynark(&pvk, &re2, &instance), Ok(true));
}

#[test]
fn key_generation_refuses_zero_secrets() {
    let (m, _instance, _witness) = small_circuit();
    let mut rng = rng();
    let (pk0, _vk0, domain) = Groth16::groth16_setup_dynarc(m.clone(), &mut rng).unwrap();
    let tau = domain.sample_element_outside_domain(&mut rng);
    let r = Groth16::generate_prover_key_with_matrices(
        domain,
        &m,
        (tau, f(2), f(3), Scalar::zero(), f(5), pk0.delta_g1, pk0.vk.delta_g2),
    );
    assert_eq!(r.err(), Some(SynthesisError::UnexpectedIdentity));
    let r = Groth16::generate_prover_key_with_matrices(
        domain,
        &m,
        (tau, f(2), f(3), f(5), Scalar::zero(), pk0.delta_g1, pk0.vk.delta_g2),
    );
    assert_eq!(r.err(), Some(SynthesisError::UnexpectedIdentity));
}

#[test]
fn lagrange_form_refuses_too_many_constraints() {
    let cs = ConstraintSystemRef {
        matrices: ConstraintMatrices {
            num_instance_variables: 1,
            num_witness_variables: 0,
            num_constraints: 0,
            a_num_non_zero: 0,
            b_num_non_zero: 0,
            c_num_non_zero: 0,
            a: vec![],
            b: vec![],
            c: vec![],
        },
        num_constraints: usize::MAX,
        num_instance_variables: 1,
        instance_assignment: vec![f(1)],
        witness_assignment: vec![],
    };
    assert_eq!(
        LibsnarkReduction::lagrange_form_from_cs(&cs).err(),
        Some(SynthesisError::PolynomialDegreeTooLarge)
    );
}

#[test]
fn circuit_proof_verifies() {
    let (m, instance, witness) = small_circuit();
    let mut rng = rng();
    let (pk, vk, _domain) = Groth16::groth16_setup_dynarc(m.clone(), &mut rng).unwrap();
    let cs = ConstraintSystemRef {
        matrices: m,
        num_constraints: 4,
        num_instance_variables: 2,
        instance_assignment: instance.clone(),
        witness_assignment: witness,
    };
    let proof = Groth16::generate_proof_with_circuit(&cs, &pk, &mut rng).unwrap();
    let pvk = prepare_verifying_key(&vk);
    assert_eq!(Groth16::verify_dynark(&pvk, &proof, &instance), Ok(true));
}

#[test]
fn semi_dynamic_update_verifies() {
    let mut rng = rng();
    let (m, ka, kb, ca, cb) = generate_matrices(16, 1, 15, &mut rng);
    let (mut instance, mut witness) = generate_instance_witness(1, 15, &mut rng, &ka, &kb, &ca, &cb);
    let (pk, vk, domain) = Groth16::groth16_setup_dynarc(m.clone(), &mut rng).unwrap();
    let uk = Groth16::generate_updating_keys(&m, &domain, &pk).unwrap();
    let (_proof, mut cache) = Groth16::prove_dynark(&pk, &m, &instance, &witness, &mut rng).unwrap();
    Groth16::process_dynark(&uk, &m, &instance, &witness, &mut cache).unwrap();
    let (ui, uw) = generate_update(16, 2, 1, &ka, &kb, &ca, &cb, &mut instance, &mut witness, &mut rng);
    let updated = Groth16::update_dynark(&uk, &m, &ui, &uw, &cache).unwrap();
    let pvk = prepare_verifying_key(&vk);
    assert_eq!(Groth16::verify_dynark(&pvk, &updated, &instance), Ok(true));
}

#[test]
fn fully_dynamic_checkpoints_verify() {
    let mut rng = rng();
    let n = 16;
    let (m, ka, kb, ca, cb) = generate_matrices(n, 1, n - 1, &mut rng);
    let (mut instance, mut witness) = generate_instance_witness(1, n - 1, &mut rng, &ka, &kb, &ca, &cb);
    let (pk, vk, domain) = Groth16::groth16_setup_dynarc(m.clone(), &mut rng).unwrap();
    let pvk = prepare_verifying_key(&vk);
    let uk = Groth16::generate_updating_keys(&m, &domain, &pk).unwrap();
    let mut using = FullyCheckpoint::new(n, &uk, &m, &instance, &witness);
    let mut preparing = using.clone();
    preparing.prepare_for_reconstruct();
    assert!(matches!(preparing.cache.status, ReconstructPhase::VecPrepare(0)));
    let mut rebuilt = 0;
    for round in 0..6 {
        let (ui, uw) = generate_update(n, 2, 1, &ka, &kb, &ca, &cb, &mut instance, &mut witness, &mut rng);
        let sim = using.sim_update_from(&uk, 1, n - 1, &ui, &uw);
        let mut rem = 40;
        while rem > 0 {
            let (done, left) = preparing.mv_forward(&uk, rem);
            rem = left;
            if done {
                preparing.copy_proof_from(&using);
                std::mem::swap(&mut preparing, &mut using);
                preparing.prepare_for_reconstruct();
                rebuilt += 1;
            }
        }
        preparing.trivial_append(&uk, &ui, &uw);
        using.update_from(&uk, 1, n - 1, &ui, &uw);
        assert_eq!(sim.0, using.raw_a_g1, "round {}", round);
        assert_eq!(sim.3, using.raw_c_g1, "round {}", round);
        let proof = using.get_proof_with_rs(&uk);
        assert_eq!(Groth16::verify_dynark(&pvk, &proof, &instance), Ok(true), "round {}", round);
    }
    assert!(rebuilt >= 1);
}

#[test]
fn reconstruction_gives_fresh_quotients() {
    let mut rng = rng();
    let n = 16;
    let (m, ka, kb, ca, cb) = generate_matrices(n, 1, n - 1, &mut rng);
    let (mut instance, mut witness) = generate_instance_witness(1, n - 1, &mut rng, &ka, &kb, &ca, &cb);
    let (pk, _vk, domain) = Groth16::groth16_setup_dynarc(m.clone(), &mut rng).unwrap();
    let uk = Groth16::generate_updating_keys(&m, &domain, &pk).unwrap();
    let mut ck = FullyCheckpoint::new(n, &uk, &m, &instance, &witness);
    let (ui, uw) = generate_update(n, 3, 1, &ka, &kb, &ca, &cb, &mut instance, &mut witness, &mut rng);
    ck.trivial_append(&uk, &ui, &uw);
    ck.prepare_for_reconstruct();
    let mut total = 0;
    loop {
        let (done, left) = ck.mv_forward(&uk, 7);
        total += 7 - left;
        if done {
            break;
        }
    }
    assert!(total > 0);
    let fresh = FullyCheckpoint::new(n, &uk, &m, &instance, &witness);
    assert_eq!(ck.cache.acc_a, fresh.cache.acc_a);
    assert_eq!(ck.cache.acc_b, fresh.cache.acc_b);
    assert_eq!(ck.cache.q_a, fresh.cache.q_a);
    assert_eq!(ck.cache.q_b, fresh.cache.q_b);
}

#[test]
fn prepared_key_default_is_empty() {
    let pvk = dynark::data_structures::PreparedVerifyingKey::default();
    assert_eq!(pvk.alpha_g1_beta_g2, vec![0u8; 576]);
    assert_eq!(pvk.vk.domain.size(), 1);
    assert!(pvk.vk.t_v_g1.is_empty());
    assert_eq!(pvk.vk.num_constraints, 0);
}

#[test]
fn quotient_routes_agree() {
    let (m, instance, witness) = small_circuit();
    let cs = ConstraintSystemRef {
        matrices: m.clone(),
        num_constraints: 4,
        num_instance_variables: 2,
        instance_assignment: instance.clone(),
        witness_assignment: witness.clone(),
    };
    let z = concat(&instance, &witness);
    let h1 = LibsnarkReduction::compute_quotient_arkwork(&cs).unwrap();
    let h2 = LibsnarkReduction::compute_quotient_optimized(&cs).unwrap();
    let h3 = LibsnarkReduction::compute_quotient_from_matrices(&m, 2, 4, &z).unwrap();
    assert_eq!(h1.len(), 4);
    assert_eq!(h1, h2);
    assert_eq!(h1, h3);
    let (domain, a, b, c) = LibsnarkReduction::lagrange_form_from_cs(&cs).unwrap();
    assert_eq!(LibsnarkReduction::compute_quotient(&domain, a, b, c).unwrap(), h1);
}

fn stepped_cycle(n: usize, m: usize) -> (usize, Vec<Scalar>, Vec<Scalar>) {
    let domain = GeneralEvaluationDomain::new(n).unwrap();
    let haf_domain = GeneralEvaluationDomain::new(m).unwrap();
    let info = CustomParaFFT::new(n, domain.group_gen());
    let haf = CustomParaFFT::new(m, haf_domain.group_gen());
    let v = scalars(n as u64);
    let expected = domain.fft(&v);
    let mut x = FFTVectorTypes::XF(v);
    let mut mem = FFTVectorTypes::XF(vec![f(0); n]);
    let mut st = SqrtFftStatus::new(false);
    let mut calls = 0;
    loop {
        calls += 1;
        if sqrt_fft_fw(&haf, &info, &mut x, &mut st, &mut mem) {
            break;
        }
        assert!(calls < 1000);
    }
    match x {
        FFTVectorTypes::XF(r) => (calls, r, expected),
        _ => panic!("kind changed"),
    }
}

#[test]
fn stepped_cycle_lengths() {
    let (calls, r, expected) = stepped_cycle(4, 2);
    assert_eq!(calls, 10);
    assert_eq!(r, expected);
    let (calls, r, expected) = stepped_cycle(16, 4);
    assert_eq!(calls, 15);
    assert_eq!(r, expected);
}

#[test]
fn proof_from_matrices_verifies() {
    let (m, instance, witness) = small_circuit();
    let mut rng = rng();
    let (pk, vk, _domain) = Groth16::groth16_setup_dynarc(m.clone(), &mut rng).unwrap();
    let z = concat(&instance, &witness);
    let proof = Groth16::generate_proof_with_matrices(&pk, f(11), f(13), &m, 2, 4, &z).unwrap();
    let pvk = prepare_verifying_key(&vk);
    assert_eq!(Groth16::verify_dynark(&pvk, &proof, &instance), Ok(true));
}

#[test]
fn updated_proof_equals_fresh_proof() {
    let mut rng = rng();
    let (m, ka, kb, ca, cb) = generate_matrices(16, 1, 15, &mut rng);
    let (mut instance, mut witness) = generate_instance_witness(1, 15, &mut rng, &ka, &kb, &ca, &cb);
    let (pk, _vk, domain) = Groth16::groth16_setup_dynarc(m.clone(), &mut rng).unwrap();
    let uk = Groth16::generate_updating_keys(&m, &domain, &pk).unwrap();
    let (_proof, mut cache) = Groth16::prove_dynark(&pk, &m, &instance, &witness, &mut rng).unwrap();
    Groth16::process_dynark(&uk, &m, &instance, &witness, &mut cache).unwrap();
    let (ui, uw) = generate_update(16, 2, 1, &ka, &kb, &ca, &cb, &mut instance, &mut witness, &mut rng);
    let updated = Groth16::update_dynark_with_rs(&uk, &m, &ui, &uw, &cache, f(21), f(34)).unwrap();
    let z = concat(&instance, &witness);
    let fresh =
        Groth16::generate_proof_with_matrices(&pk, f(21), f(34), &m, instance.len(), m.num_constraints, &z).unwrap();
    assert_eq!(updated, fresh);
}
