//! The setup: the QAP polynomials at the secret point, the proving and
//! verifying keys, and the keys for updating proofs.
use vstd::prelude::*;
use crate::data_structures::{ProvingKey, UpdatingKey, VerifyingKey, copy_pk, copy_vk, pk_same, vk_same};
use crate::domain::resized;
use crate::fft_handler::{convolution_f_g, convolution_spec};
use crate::group::{GroupElem, g1_add_of, g1_identity, g1_neg_of, g1_add, g1_neg, g1_zero};
use crate::utils::ssum;
use crate::domain::{lagrange_coeff, GeneralEvaluationDomain};
use crate::fft_handler::conv_size;
use crate::field::{fadd, fmul, fpow, fsub, finv, root_of_unity_of, Scalar, fr_add, fr_inverse, fr_mul, fr_rand, fr_sub};
use crate::group::{G1Point, G2Point, g1_mul_of, g2_mul_of, models, g1_mul, g2_mul, g1_batch_mul, g2_batch_mul, g1_rand, g2_rand};
use crate::groth16::Groth16;
use crate::r1cs_to_qap::{matrix_in_range, tau_powers_field_lifted};
use crate::relations::{ConstraintMatrices, Matrix, SynthesisError};
use ark_std::rand::rngs::StdRng;

verus! {

/// `acc` with `l * a` added at index `j` for each term `(a, j)` of the row,
/// in order.
pub open spec fn accum_row(acc: Seq<nat>, row: Seq<(Scalar, usize)>, l: nat) -> Seq<nat>
    decreases row.len(),
{
    if row.len() == 0 {
        acc
    } else {
        let prev = accum_row(acc, row.drop_last(), l);
        let j = row.last().1 as int;
        prev.update(j, fadd(prev[j], fmul(l, row.last().0@)))
    }
}

/// The sums `sum_i l_i * m[i][j]` over the first `k` rows, for `len`
/// columns, added row by row.
pub open spec fn accum_rows(m: Seq<Vec<(Scalar, usize)>>, l: Seq<nat>, k: nat, len: nat) -> Seq<nat>
    decreases k,
{
    if k == 0 {
        Seq::new(len, |j: int| 0nat)
    } else {
        accum_row(accum_rows(m, l, (k - 1) as nat, len), m[k - 1]@, l[k - 1])
    }
}

proof fn lemma_accum_row_len(acc: Seq<nat>, row: Seq<(Scalar, usize)>, l: nat)
    requires
        row_in_range_usize(row, acc.len()),
    ensures
        accum_row(acc, row, l).len() == acc.len(),
    decreases row.len(),
{
    if row.len() > 0 {
        lemma_accum_row_len(acc, row.drop_last(), l);
        assert(row.last() == row[row.len() - 1]);
    }
}

proof fn lemma_accum_rows_len(m: Seq<Vec<(Scalar, usize)>>, l: Seq<nat>, k: nat, len: nat)
    requires
        k <= m.len(),
        matrix_in_range(m, len),
    ensures
        accum_rows(m, l, k, len).len() == len,
    decreases k,
{
    if k > 0 {
        lemma_accum_rows_len(m, l, (k - 1) as nat, len);
        assert(crate::utils::row_in_range(m[k - 1]@, len));
        lemma_accum_row_len(accum_rows(m, l, (k - 1) as nat, len), m[k - 1]@, l[k - 1]);
    }
}

/// The column sums `sum_i lag_i * m[i][j]` over rows `[0, k)`.
fn accumulate(m: &Matrix, lag: &Vec<Scalar>, k: usize, len: usize) -> (r: Vec<Scalar>)
    requires
        k <= m@.len(),
        k <= lag@.len(),
        matrix_in_range(m@, len as nat),
    ensures
        models(r@) == accum_rows(m@, models(lag@), k as nat, len as nat),
{
    let mut r: Vec<Scalar> = Vec::with_capacity(len);
    let mut j: usize = 0;
    while j < len
        invariant
            j <= len,
            r@.len() == j,
            forall|q: int| 0 <= q < j ==> (#[trigger] r@[q])@ == 0,
        decreases len - j,
    {
        r.push(Scalar::zero());
        j = j + 1;
    }
    proof {
        assert(models(r@) =~= accum_rows(m@, models(lag@), 0, len as nat));
    }
    let mut i: usize = 0;
    while i < k
        invariant
            i <= k,
            k <= m@.len(),
            k <= lag@.len(),
            matrix_in_range(m@, len as nat),
            r@.len() == len,
            models(r@) == accum_rows(m@, models(lag@), i as nat, len as nat),
        decreases k - i,
    {
        let row = &m[i];
        let l = lag[i];
        let ghost base = models(r@);
        proof {
            assert(crate::utils::row_in_range(m@[i as int]@, len as nat));
            assert(row_in_range_usize(row@, len as nat));
        }
        let mut t: usize = 0;
        while t < row.len()
            invariant
                t <= row@.len(),
                row@ == m@[i as int]@,
                row_in_range_usize(row@, len as nat),
                r@.len() == len,
                base.len() == len,
                models(r@) == accum_row(base, row@.take(t as int), l@),
            decreases row@.len() - t,
        {
            let (a, jj) = row[t];
            proof {
                assert(row@.take(t + 1).drop_last() =~= row@.take(t as int));
                assert(row_in_range_usize(row@.take(t as int), base.len()));
                lemma_accum_row_len(base, row@.take(t as int), l@);
            }
            let cur = r[jj];
            let add = fr_mul(&l, &a);
            r.set(jj, fr_add(&cur, &add));
            t = t + 1;
            proof {
                assert(models(r@) =~= accum_row(base, row@.take(t as int), l@));
            }
        }
        proof {
            assert(row@.take(row@.len() as int) =~= row@);
        }
        i = i + 1;
    }
    r
}

/// Every variable index of the row is below `n`.
pub open spec fn row_in_range_usize(row: Seq<(Scalar, usize)>, n: nat) -> bool {
    forall|q: int| 0 <= q < row.len() ==> (#[trigger] row[q]).1 < n
}

/// The number of rows read: the constraints, or the order of the subgroup
/// if smaller.
pub open spec fn rows_read(num_constraints: nat, n: nat) -> nat {
    if num_constraints < n {
        num_constraints
    } else {
        n
    }
}

/// The Lagrange coefficients at `tau` over the subgroup of order `n`.
pub open spec fn lagrange_at(n: nat, tau: nat) -> Seq<nat> {
    Seq::new(n, |i: int| lagrange_coeff(n, root_of_unity_of(n), tau, i as nat))
}

impl Groth16 {
    /// The evaluations at `tau` of the column polynomials of `A`, `B`, `C`,
    /// for every variable of the matrices.
    pub fn compute_u_v_w(
        domain: &GeneralEvaluationDomain,
        num_constraints: usize,
        num_instance_variables: usize,
        num_witness_variables: usize,
        matrices: &ConstraintMatrices,
        tau: &Scalar,
    ) -> (r: Result<(Vec<Scalar>, Vec<Scalar>, Vec<Scalar>, Scalar), SynthesisError>)
        requires
            num_instance_variables + num_witness_variables <= usize::MAX,
            rows_read(num_constraints as nat, domain.spec_size()) <= matrices.a@.len(),
            rows_read(num_constraints as nat, domain.spec_size()) <= matrices.b@.len(),
            rows_read(num_constraints as nat, domain.spec_size()) <= matrices.c@.len(),
            matrix_in_range(matrices.a@, (num_instance_variables + num_witness_variables) as nat),
            matrix_in_range(matrices.b@, (num_instance_variables + num_witness_variables) as nat),
            matrix_in_range(matrices.c@, (num_instance_variables + num_witness_variables) as nat),
        ensures
            ({
                let n = domain.spec_size();
                let k = rows_read(num_constraints as nat, n);
                let len = (num_instance_variables + num_witness_variables) as nat;
                let lag = lagrange_at(n, tau@);
                r matches Ok(t) && models(t.0@) == accum_rows(matrices.a@, lag, k, len) && models(t.1@) == accum_rows(
                    matrices.b@,
                    lag,
                    k,
                    len,
                ) && models(t.2@) == accum_rows(matrices.c@, lag, k, len) && t.3@ == fsub(fpow(tau@, n), 1)
            }),
    {
        let vanish_tau = domain.evaluate_vanishing_polynomial(tau);
        let lagrange_vec_tau = domain.evaluate_all_lagrange_coefficients(tau);
        let n = domain.size();
        let k = if num_constraints < n {
            num_constraints
        } else {
            n
        };
        let len = num_instance_variables + num_witness_variables;
        proof {
            assert(models(lagrange_vec_tau@) =~= lagrange_at(domain.spec_size(), tau@));
        }
        let u = accumulate(&matrices.a, &lagrange_vec_tau, k, len);
        let v = accumulate(&matrices.b, &lagrange_vec_tau, k, len);
        let w = accumulate(&matrices.c, &lagrange_vec_tau, k, len);
        Ok((u, v, w, vanish_tau))
    }

    /// Create parameters for a circuit, given some toxic waste, R1CS to QAP
    /// calculator and group generators
    pub fn generate_prover_key_with_matrices(
        domain: GeneralEvaluationDomain,
        matrices: &ConstraintMatrices,
        randomness: (Scalar, Scalar, Scalar, Scalar, Scalar, G1Point, G2Point),
    ) -> (r: Result<ProvingKey, SynthesisError>)
        requires
            keygen_ok(domain, *matrices),
        ensures
            r is Err <==> randomness.3@ == 0 || randomness.4@ == 0,
            r matches Err(e) ==> e == SynthesisError::UnexpectedIdentity,
            r matches Ok(pk) ==> prover_key_of(
                domain,
                *matrices,
                randomness.0@,
                randomness.1@,
                randomness.2@,
                randomness.3@,
                randomness.4@,
                randomness.5,
                randomness.6,
                pk,
            ),
    {
        let (tau, alpha, beta, gamma, delta, g1_gen, g2_gen) = randomness;
        let num_constraints = matrices.num_constraints;
        let num_instance = matrices.num_instance_variables;
        let num_witness = matrices.num_witness_variables;
        let domain_size = domain.size();
        let qap_num_variables = num_instance + num_witness;
        // process u, v, w
        let (u, v, w, vanish_tau) = match Self::compute_u_v_w(
            &domain,
            num_constraints,
            num_instance,
            num_witness,
            matrices,
            &tau,
        ) {
            Ok(t) => t,
            Err(e) => {
                return Err(e);
            },
        };
        proof {
            let n = domain.spec_size();
            let k = rows_read(num_constraints as nat, n);
            let lag = lagrange_at(n, tau@);
            lemma_accum_rows_len(matrices.a@, lag, k, qap_num_variables as nat);
            lemma_accum_rows_len(matrices.b@, lag, k, qap_num_variables as nat);
            lemma_accum_rows_len(matrices.c@, lag, k, qap_num_variables as nat);
            assert(models(u@).len() == u@.len());
            assert(models(v@).len() == v@.len());
            assert(models(w@).len() == w@.len());
        }
        // Compute query densities
        let non_zero_u = count_nonzero(&u);
        let non_zero_v = count_nonzero(&v);
        // process field elements
        let gamma_inverse = match fr_inverse(&gamma) {
            Some(x) => x,
            None => {
                return Err(SynthesisError::UnexpectedIdentity);
            },
        };
        let delta_inverse = match fr_inverse(&delta) {
            Some(x) => x,
            None => {
                return Err(SynthesisError::UnexpectedIdentity);
            },
        };
        let t_v = t_values_exec(&u, &v, &w, &alpha, &beta, &gamma_inverse, 0, num_instance);
        let t_p = t_values_exec(&u, &v, &w, &alpha, &beta, &delta_inverse, num_instance, qap_num_variables);
        let tau_powers = match tau_powers_field_lifted(domain_size - 1, tau, vanish_tau, delta_inverse) {
            Ok(t) => t,
            Err(e) => {
                return Err(e);
            },
        };
        // process group elements
        let g1_table_size = non_zero_u + non_zero_v + qap_num_variables + domain_size;
        let g2_table_size = non_zero_v;
        let alpha_g1 = g1_mul(&g1_gen, &alpha);
        let beta_g1 = g1_mul(&g1_gen, &beta);
        let beta_g2 = g2_mul(&g2_gen, &beta);
        let delta_g1 = g1_mul(&g1_gen, &delta);
        let delta_g2 = g2_mul(&g2_gen, &delta);
        let u_g1 = g1_batch_mul(&g1_gen, g1_table_size, u.as_slice());
        let v_g1 = g1_batch_mul(&g1_gen, g1_table_size, v.as_slice());
        let v_g2 = g2_batch_mul(&g2_gen, g2_table_size, v.as_slice());
        let t_p_g1 = g1_batch_mul(&g1_gen, g1_table_size, t_p.as_slice());
        let t_v_g1 = g1_batch_mul(&g1_gen, g1_table_size, t_v.as_slice());
        let tau_powers_g1 = g1_batch_mul(&g1_gen, g1_table_size, tau_powers.as_slice());
        let gamma_g2 = g2_mul(&g2_gen, &gamma);
        let vk = VerifyingKey {
            num_constraints,
            num_instance,
            num_witness,
            domain,
            alpha_g1,
            beta_g2,
            gamma_g2,
            delta_g2,
            t_v_g1,
        };
        let pk = ProvingKey { vk, beta_g1, delta_g1, u_g1, v_g1, v_g2, tau_powers_g1, t_p_g1 };
        proof {
            reveal(prover_key_of);
            assert(pk.vk.t_v_g1@ =~= g1_scaled(g1_gen, models(t_v@)));
            assert(pk.u_g1@ =~= g1_scaled(g1_gen, models(u@)));
            assert(pk.v_g1@ =~= g1_scaled(g1_gen, models(v@)));
            assert(pk.v_g2@ =~= g2_scaled(g2_gen, models(v@)));
            assert(pk.t_p_g1@ =~= g1_scaled(g1_gen, models(t_p@)));
            assert(pk.tau_powers_g1@ =~= g1_scaled(g1_gen, models(tau_powers@)));
            assert(models(tau_powers@) =~= tau_table(domain.spec_size(), tau@, vanish_tau@, delta_inverse@));
        }
        Ok(pk)
    }
}

/// The sizes of the matrices fit a key: their rows read only variables
/// below `num_instance + num_witness`, there are rows for the constraints
/// read, and the tables' sizes fit machine integers.
pub open spec fn keygen_ok(domain: GeneralEvaluationDomain, m: ConstraintMatrices) -> bool {
    let len = m.num_instance_variables + m.num_witness_variables;
    let k = rows_read(m.num_constraints as nat, domain.spec_size());
    &&& 3 * len + domain.spec_size() <= usize::MAX
    &&& k <= m.a@.len()
    &&& k <= m.b@.len()
    &&& k <= m.c@.len()
    &&& matrix_in_range(m.a@, len as nat)
    &&& matrix_in_range(m.b@, len as nat)
    &&& matrix_in_range(m.c@, len as nat)
}

/// `s_i * g` in G1 for each scalar.
pub open spec fn g1_scaled(g: G1Point, s: Seq<nat>) -> Seq<G1Point> {
    Seq::new(s.len(), |i: int| g1_mul_of(g, s[i]))
}

/// `s_i * g` in G2 for each scalar.
pub open spec fn g2_scaled(g: G2Point, s: Seq<nat>) -> Seq<G2Point> {
    Seq::new(s.len(), |i: int| g2_mul_of(g, s[i]))
}

/// `(beta * u_j + alpha * v_j + w_j) * k` for `j` in `[lo, hi)`.
pub open spec fn t_values(u: Seq<nat>, v: Seq<nat>, w: Seq<nat>, alpha: nat, beta: nat, k: nat, lo: nat, hi: nat) -> Seq<nat> {
    Seq::new(
        (hi - lo) as nat,
        |j: int| fmul(fadd(fadd(fmul(beta, u[lo + j]), fmul(alpha, v[lo + j])), w[lo + j]), k),
    )
}

/// `Z(tau) / delta * tau^i` for `i < n - 1`.
pub open spec fn tau_table(n: nat, tau: nat, vt: nat, di: nat) -> Seq<nat> {
    Seq::new((n - 1) as nat, |i: int| fmul(fmul(vt, di), fpow(tau, i as nat)))
}

/// `pk` is the key for the subgroup, the matrices, the secrets `tau`,
/// `alpha`, `beta`, `gamma`, `delta` and the generators `g1`, `g2`.
#[verifier::opaque]
pub open spec fn prover_key_of(
    domain: GeneralEvaluationDomain,
    m: ConstraintMatrices,
    tau: nat,
    alpha: nat,
    beta: nat,
    gamma: nat,
    delta: nat,
    g1: G1Point,
    g2: G2Point,
    pk: ProvingKey,
) -> bool {
    let n = domain.spec_size();
    let ni = m.num_instance_variables as nat;
    let len = (m.num_instance_variables + m.num_witness_variables) as nat;
    let k = rows_read(m.num_constraints as nat, n);
    let lag = lagrange_at(n, tau);
    let u = accum_rows(m.a@, lag, k, len);
    let v = accum_rows(m.b@, lag, k, len);
    let w = accum_rows(m.c@, lag, k, len);
    let vt = fsub(fpow(tau, n), 1);
    &&& pk.vk.num_constraints == m.num_constraints
    &&& pk.vk.num_instance == m.num_instance_variables
    &&& pk.vk.num_witness == m.num_witness_variables
    &&& pk.vk.domain == domain
    &&& pk.vk.alpha_g1 == g1_mul_of(g1, alpha)
    &&& pk.vk.beta_g2 == g2_mul_of(g2, beta)
    &&& pk.vk.gamma_g2 == g2_mul_of(g2, gamma)
    &&& pk.vk.delta_g2 == g2_mul_of(g2, delta)
    &&& pk.vk.t_v_g1@ == g1_scaled(g1, t_values(u, v, w, alpha, beta, finv(gamma), 0, ni))
    &&& pk.beta_g1 == g1_mul_of(g1, beta)
    &&& pk.delta_g1 == g1_mul_of(g1, delta)
    &&& pk.u_g1@ == g1_scaled(g1, u)
    &&& pk.v_g1@ == g1_scaled(g1, v)
    &&& pk.v_g2@ == g2_scaled(g2, v)
    &&& pk.tau_powers_g1@ == g1_scaled(g1, tau_table(n, tau, vt, finv(delta)))
    &&& pk.t_p_g1@ == g1_scaled(g1, t_values(u, v, w, alpha, beta, finv(delta), ni, len))
}

/// The number of entries of `s` whose value is not zero.
pub open spec fn nonzero_count(s: Seq<Scalar>) -> nat
    decreases s.len(),
{
    if s.len() == 0 {
        0
    } else {
        nonzero_count(s.drop_last()) + if s.last()@ != 0 { 1nat } else { 0nat }
    }
}

/// The number of nonzero entries.
fn count_nonzero(v: &Vec<Scalar>) -> (r: usize)
    ensures
        r == nonzero_count(v@),
        r <= v@.len(),
{
    let mut r: usize = 0;
    let mut i: usize = 0;
    while i < v.len()
        invariant
            i <= v@.len(),
            r <= i,
            r == nonzero_count(v@.take(i as int)),
        decreases v@.len() - i,
    {
        proof {
            assert(v@.take(i + 1).drop_last() =~= v@.take(i as int));
        }
        if !v[i].is_zero() {
            r = r + 1;
        }
        i = i + 1;
    }
    proof {
        assert(v@.take(v@.len() as int) =~= v@);
    }
    r
}

/// `(beta * u_j + alpha * v_j + w_j) * k` for `j` in `[lo, hi)`.
fn t_values_exec(
    u: &Vec<Scalar>,
    v: &Vec<Scalar>,
    w: &Vec<Scalar>,
    alpha: &Scalar,
    beta: &Scalar,
    k: &Scalar,
    lo: usize,
    hi: usize,
) -> (r: Vec<Scalar>)
    requires
        lo <= hi,
        hi <= u@.len(),
        hi <= v@.len(),
        hi <= w@.len(),
    ensures
        models(r@) == t_values(models(u@), models(v@), models(w@), alpha@, beta@, k@, lo as nat, hi as nat),
{
    let mut r: Vec<Scalar> = Vec::with_capacity(hi - lo);
    let mut j = lo;
    while j < hi
        invariant
            lo <= j <= hi,
            hi <= u@.len(),
            hi <= v@.len(),
            hi <= w@.len(),
            r@.len() == j - lo,
            forall|q: int|
                0 <= q < j - lo ==> (#[trigger] r@[q])@ == t_values(
                    models(u@),
                    models(v@),
                    models(w@),
                    alpha@,
                    beta@,
                    k@,
                    lo as nat,
                    hi as nat,
                )[q],
        decreases hi - j,
    {
        let x = fr_add(&fr_add(&fr_mul(beta, &u[j]), &fr_mul(alpha, &v[j])), &w[j]);
        r.push(fr_mul(&x, k));
        j = j + 1;
    }
    proof {
        assert(models(r@) =~= t_values(models(u@), models(v@), models(w@), alpha@, beta@, k@, lo as nat, hi as nat));
    }
    r
}

/// The weights `w_k = g^k / (1 - g^k) / n`, zero where `g^k = 1`.
pub open spec fn w_weights(n: nat, g: nat) -> Seq<nat> {
    Seq::new(
        n,
        |k: int|
            if fsub(1, fpow(g, k as nat)) == 0 {
                0
            } else {
                fmul(fmul(fpow(g, k as nat), finv(fsub(1, fpow(g, k as nat)))), finv(n))
            },
    )
}

/// The weights read backwards: zero, then `w_{n-1}, ..., w_1`.
pub open spec fn reversed_weights(w: Seq<nat>) -> Seq<nat> {
    Seq::new(w.len(), |i: int| if i == 0 { 0 } else { w[w.len() - i] })
}

/// The entries `(i, a)` of row `i` with variable index `j`, in order.
pub open spec fn row_col_entries(row: Seq<(Scalar, usize)>, i: usize, j: usize) -> Seq<(usize, Scalar)>
    decreases row.len(),
{
    if row.len() == 0 {
        Seq::empty()
    } else {
        let p = row_col_entries(row.drop_last(), i, j);
        if row.last().1 == j {
            p.push((i, row.last().0))
        } else {
            p
        }
    }
}

/// Column `j` of the first `k` rows: the entries `(i, a)` with variable
/// index `j`, row by row.
pub open spec fn col_entries(m: Seq<Vec<(Scalar, usize)>>, k: nat, j: usize) -> Seq<(usize, Scalar)>
    decreases k,
{
    if k == 0 {
        Seq::empty()
    } else {
        col_entries(m, (k - 1) as nat, j) + row_col_entries(m[k - 1]@, (k - 1) as usize, j)
    }
}

/// The number of times `x` occurs in `s`.
pub open spec fn seq_count<T>(s: Seq<T>, x: T) -> nat
    decreases s.len(),
{
    if s.len() == 0 {
        0
    } else {
        seq_count(s.drop_last(), x) + if s.last() == x { 1nat } else { 0nat }
    }
}

proof fn lemma_seq_count_concat<T>(s: Seq<T>, t: Seq<T>, x: T)
    ensures
        seq_count(s + t, x) == seq_count(s, x) + seq_count(t, x),
    decreases t.len(),
{
    if t.len() == 0 {
        assert(s + t =~= s);
    } else {
        lemma_seq_count_concat(s, t.drop_last(), x);
        assert((s + t).drop_last() =~= s + t.drop_last());
        assert((s + t).last() == t.last());
    }
}

proof fn lemma_row_col_count(row: Seq<(Scalar, usize)>, r: usize, j: usize, i: usize, a: Scalar)
    ensures
        seq_count(row_col_entries(row, r, j), (i, a)) == if i == r { seq_count(row, (a, j)) } else { 0 },
    decreases row.len(),
{
    if row.len() > 0 {
        lemma_row_col_count(row.drop_last(), r, j, i, a);
        let p = row_col_entries(row.drop_last(), r, j);
        if row.last().1 == j {
            assert(p.push((r, row.last().0)).drop_last() =~= p);
        }
    }
}

/// Column `j` of the first `k` rows holds each entry `(i, a)` exactly as
/// often as row `i < k` holds the term `(a, j)`, and nothing of the other
/// rows.
pub proof fn lemma_col_entries_count(m: Seq<Vec<(Scalar, usize)>>, k: nat, j: usize, i: usize, a: Scalar)
    requires
        k <= m.len(),
        m.len() <= usize::MAX,
    ensures
        seq_count(col_entries(m, k, j), (i, a)) == if i < k { seq_count(m[i as int]@, (a, j)) } else { 0 },
    decreases k,
{
    if k > 0 {
        let k1 = (k - 1) as nat;
        assert((k1 as usize) as nat == k1);
        lemma_col_entries_count(m, k1, j, i, a);
        lemma_seq_count_concat(col_entries(m, k1, j), row_col_entries(m[k1 as int]@, k1 as usize, j), (i, a));
        lemma_row_col_count(m[k1 as int]@, k1 as usize, j, i, a);
    }
}

/// The columns of the updating key are exactly those of the matrices: each
/// entry `(i, a)` occurs in column `j` of `A` (of `B`) as often as row `i`
/// of `A` (of `B`) holds the term `(a, j)`, so summing a column over the
/// Lagrange basis reproduces the column of the matrix.
pub proof fn lemma_key_columns(
    r1cs: ConstraintMatrices,
    domain: GeneralEvaluationDomain,
    pk: ProvingKey,
    uk: UpdatingKey,
    j: usize,
    i: usize,
    a: Scalar,
)
    requires
        updating_key_of(r1cs, domain, pk, uk),
        j < domain.spec_size(),
        r1cs.a@.len() <= usize::MAX,
        r1cs.b@.len() <= usize::MAX,
    ensures
        seq_count(uk.a_matrix_cols@[j as int]@, (i, a)) == if i < r1cs.a@.len() {
            seq_count(r1cs.a@[i as int]@, (a, j))
        } else {
            0
        },
        seq_count(uk.b_matrix_cols@[j as int]@, (i, a)) == if i < r1cs.b@.len() {
            seq_count(r1cs.b@[i as int]@, (a, j))
        } else {
            0
        },
{
    assert(uk.a_matrix_cols@[j as int]@ == col_entries(r1cs.a@, r1cs.a@.len(), j));
    assert(uk.b_matrix_cols@[j as int]@ == col_entries(r1cs.b@, r1cs.b@.len(), j));
    lemma_col_entries_count(r1cs.a@, r1cs.a@.len(), j, i, a);
    lemma_col_entries_count(r1cs.b@, r1cs.b@.len(), j, i, a);
}

/// The `n` columns of the matrix.
fn matrix_columns(m: &Matrix, n: usize) -> (cols: Vec<Vec<(usize, Scalar)>>)
    requires
        matrix_in_range(m@, n as nat),
    ensures
        cols@.len() == n,
        forall|j: int| 0 <= j < n ==> (#[trigger] cols@[j])@ == col_entries(m@, m@.len(), j as usize),
{
    let mut cols: Vec<Vec<(usize, Scalar)>> = Vec::with_capacity(n);
    let mut j: usize = 0;
    while j < n
        invariant
            j <= n,
            cols@.len() == j,
            forall|q: int| 0 <= q < j ==> (#[trigger] cols@[q])@ == Seq::<(usize, Scalar)>::empty(),
        decreases n - j,
    {
        cols.push(Vec::new());
        j = j + 1;
    }
    let mut i: usize = 0;
    while i < m.len()
        invariant
            i <= m@.len(),
            matrix_in_range(m@, n as nat),
            cols@.len() == n,
            forall|q: int| 0 <= q < n ==> (#[trigger] cols@[q])@ == col_entries(m@, i as nat, q as usize),
        decreases m@.len() - i,
    {
        let row = &m[i];
        proof {
            assert(crate::utils::row_in_range(m@[i as int]@, n as nat));
        }
        let mut t: usize = 0;
        while t < row.len()
            invariant
                t <= row@.len(),
                row@ == m@[i as int]@,
                i < m@.len(),
                crate::utils::row_in_range(row@, n as nat),
                cols@.len() == n,
                forall|q: int|
                    0 <= q < n ==> (#[trigger] cols@[q])@ == col_entries(m@, i as nat, q as usize) + row_col_entries(
                        row@.take(t as int),
                        i,
                        q as usize,
                    ),
            decreases row@.len() - t,
        {
            let (val, jj) = row[t];
            proof {
                assert(row@.take(t + 1).drop_last() =~= row@.take(t as int));
                assert(row@.take(t + 1).last() == (val, jj));
            }
            let ghost before = cols@;
            cols[jj].push((i, val));
            t = t + 1;
            proof {
                assert forall|q: int| 0 <= q < n implies (#[trigger] cols@[q])@ == col_entries(m@, i as nat, q as usize)
                    + row_col_entries(row@.take(t as int), i, q as usize) by {
                    if q == jj as int {
                        assert(cols@[q]@ =~= before[q]@.push((i, val)));
                    } else {
                        assert(cols@[q] == before[q]);
                    }
                }
            }
        }
        proof {
            assert(row@.take(row@.len() as int) =~= row@);
            assert forall|q: int| 0 <= q < n implies (#[trigger] cols@[q])@ == col_entries(m@, (i + 1) as nat, q as usize) by {
                assert(col_entries(m@, (i + 1) as nat, q as usize) == col_entries(m@, i as nat, q as usize)
                    + row_col_entries(m@[i as int]@, i, q as usize));
            }
        }
        i = i + 1;
    }
    cols
}

/// The weights `w_k` for the subgroup of order `n` generated by `g`.
fn weights(n: usize, g: &Scalar) -> (w: Vec<Scalar>)
    requires
        g@ != 0,
        1 <= n <= 0x1_0000_0000,
    ensures
        models(w@) == w_weights(n as nat, g@),
{
    let nn = Scalar::from_u64(n as u64);
    let one_over_n = match fr_inverse(&nn) {
        Some(x) => x,
        None => {
            proof {
                assert(false);
            }
            nn
        },
    };
    let g_inv = match fr_inverse(g) {
        Some(x) => x,
        None => {
            proof {
                assert(false);
            }
            *g
        },
    };
    let one = Scalar::one();
    let mut state = g_inv;
    let mut w: Vec<Scalar> = Vec::with_capacity(n);
    let mut k: usize = 0;
    while k < n
        invariant
            k <= n,
            1 <= n <= 0x1_0000_0000,
            one@ == 1,
            one_over_n@ == finv(n as nat),
            k == 0 ==> state@ == finv(g@) && fmul(state@, g@) == 1,
            k > 0 ==> state@ == fpow(g@, (k - 1) as nat),
            w@.len() == k,
            forall|q: int| 0 <= q < k ==> (#[trigger] w@[q])@ == w_weights(n as nat, g@)[q],
        decreases n - k,
    {
        state = fr_mul(&state, g);
        let gi = state;
        let denom = fr_sub(&one, &gi);
        let wk = if denom.is_zero() {
            Scalar::zero()
        } else {
            let dinv = match fr_inverse(&denom) {
                Some(x) => x,
                None => {
                    proof {
                        assert(false);
                    }
                    denom
                },
            };
            fr_mul(&fr_mul(&gi, &dinv), &one_over_n)
        };
        w.push(wk);
        k = k + 1;
    }
    proof {
        assert(models(w@) =~= w_weights(n as nat, g@));
    }
    w
}

/// The sum of the weights.
fn sum_scalars(v: &Vec<Scalar>) -> (r: Scalar)
    ensures
        r@ == ssum(v@),
{
    let mut acc = Scalar::zero();
    let mut i: usize = 0;
    while i < v.len()
        invariant
            i <= v@.len(),
            acc@ == ssum(v@.take(i as int)),
        decreases v@.len() - i,
    {
        acc = fr_add(&acc, &v[i]);
        proof {
            assert(v@.take(i + 1).drop_last() =~= v@.take(i as int));
        }
        i = i + 1;
    }
    proof {
        assert(v@.take(v@.len() as int) =~= v@);
    }
    acc
}

/// The updating key for the matrices, the subgroup and the proving key.
pub open spec fn updating_key_of(r1cs: ConstraintMatrices, domain: GeneralEvaluationDomain, pk: ProvingKey, uk: UpdatingKey) -> bool {
    let n = domain.spec_size();
    let g = root_of_unity_of(n);
    let w = w_weights(n, g);
    let l = G1Point::m_transform(resized(pk.tau_powers_g1@.push(g1_identity()), n, g1_identity()), true);
    let conv = convolution_spec::<G1Point>(w, l, conv_size(n));
    let c1 = ssum(uk.w@);
    &&& pk_same(uk.pk, pk)
    &&& uk.lagrange_truncated@ == l
    &&& models(uk.w@) == w
    &&& models(uk.w_reverse@) == reversed_weights(w)
    &&& uk.p@ == Seq::new(n, |i: int| g1_neg_of(g1_add_of(g1_mul_of(l[i], c1), conv[i])))
    &&& models(uk.w_for_q@) == Scalar::m_transform(w, false)
    &&& models(uk.w_reverse_for_q@) == Scalar::m_transform(reversed_weights(w), false)
    &&& uk.a_matrix_cols@.len() == n
    &&& uk.b_matrix_cols@.len() == n
    &&& forall|j: int| 0 <= j < n ==> (#[trigger] uk.a_matrix_cols@[j])@ == col_entries(r1cs.a@, r1cs.a@.len(), j as usize)
    &&& forall|j: int| 0 <= j < n ==> (#[trigger] uk.b_matrix_cols@[j])@ == col_entries(r1cs.b@, r1cs.b@.len(), j as usize)
}

impl Groth16 {
    /// Derives the key for updating proofs from the proving key: the
    /// Lagrange basis in G1, the projection weights and the columns of `A`
    /// and `B`.
    pub fn generate_updating_keys(
        r1cs: &ConstraintMatrices,
        domain: &GeneralEvaluationDomain,
        pk: &ProvingKey,
    ) -> (r: Result<UpdatingKey, SynthesisError>)
        requires
            matrix_in_range(r1cs.a@, domain.spec_size()),
            matrix_in_range(r1cs.b@, domain.spec_size()),
        ensures
            r matches Ok(uk) && updating_key_of(*r1cs, *domain, *pk, uk),
    {
        let domain_size = domain.size();
        let mut tau_powers_truncated = crate::fft_handler::copy_vec(&pk.tau_powers_g1);
        tau_powers_truncated.push(g1_zero());
        let lagrange_truncated = domain.ifft(tau_powers_truncated.as_slice());
        let domain_gen = domain.group_gen();
        let w = weights(domain_size, &domain_gen);
        proof {
            assert(models(w@).len() == w@.len());
        }
        let mut w_reverse: Vec<Scalar> = Vec::with_capacity(domain_size);
        let mut i: usize = 0;
        while i < domain_size
            invariant
                i <= domain_size,
                w@.len() == domain_size,
                w_reverse@.len() == i,
                forall|q: int| 0 <= q < i ==> (#[trigger] w_reverse@[q])@ == reversed_weights(models(w@))[q],
            decreases domain_size - i,
        {
            if i == 0 {
                w_reverse.push(Scalar::zero());
            } else {
                w_reverse.push(w[domain_size - i]);
            }
            i = i + 1;
        }
        let coeff1 = sum_scalars(&w);
        proof {
            assert(models(w_reverse@) =~= reversed_weights(models(w@)));
            assert(models(lagrange_truncated@) =~= lagrange_truncated@);
            assert(models(tau_powers_truncated@) =~= tau_powers_truncated@);
            assert(tau_powers_truncated@ =~= pk.tau_powers_g1@.push(g1_identity()));
            assert(lagrange_truncated@.len() == domain_size);
            assert(models(w@).len() == w@.len());
        }
        let conv = convolution_f_g(w.as_slice(), lagrange_truncated.as_slice());
        proof {
            let n = domain.spec_size();
            let k = choose|k: nat| k <= 32 && n == vstd::arithmetic::power2::pow2(k);
            assert(n == vstd::arithmetic::power2::pow2(k));
            assert(crate::domain::is_pow2(n));
            assert(n >= 1);
            assert(n == 1 || n / 2 < n);
            assert(crate::domain::is_next_pow2(n, n));
            crate::fft_handler::lemma_next_pow2_unique(n, n);
            assert(models(conv@) =~= conv@);
            assert(models(lagrange_truncated@) =~= lagrange_truncated@);
            assert(conv@.len() == domain_size);
        }
        let mut p: Vec<G1Point> = Vec::with_capacity(domain_size);
        let mut i: usize = 0;
        while i < domain_size
            invariant
                i <= domain_size,
                lagrange_truncated@.len() == domain_size,
                conv@.len() == domain_size,
                p@.len() == i,
                forall|q: int|
                    0 <= q < i ==> #[trigger] p@[q] == g1_neg_of(
                        g1_add_of(g1_mul_of(lagrange_truncated@[q], coeff1@), conv@[q]),
                    ),
            decreases domain_size - i,
        {
            let x = g1_neg(&g1_add(&crate::group::g1_mul(&lagrange_truncated[i], &coeff1), &conv[i]));
            p.push(x);
            i = i + 1;
        }
        let w_for_q = domain.fft(w.as_slice());
        let w_reverse_for_q = domain.fft(w_reverse.as_slice());
        proof {
            assert(resized(models(w@), domain.spec_size(), 0nat) =~= models(w@));
            assert(resized(models(w_reverse@), domain.spec_size(), 0nat) =~= models(w_reverse@));
        }
        let a_matrix_cols = matrix_columns(&r1cs.a, domain_size);
        let b_matrix_cols = matrix_columns(&r1cs.b, domain_size);
        let uk = UpdatingKey {
            pk: copy_pk(pk),
            lagrange_truncated,
            w,
            w_reverse,
            p,
            w_for_q,
            w_reverse_for_q,
            a_matrix_cols,
            b_matrix_cols,
        };
        proof {
            let n = domain.spec_size();
            let l = uk.lagrange_truncated@;
            let conv_s = convolution_spec::<G1Point>(models(uk.w@), l, conv_size(n));
            assert(uk.p@ =~= Seq::new(n, |i: int| g1_neg_of(g1_add_of(g1_mul_of(l[i], ssum(uk.w@)), conv_s[i]))));
        }
        Ok(uk)
    }
}

/// `pk` is the key over the subgroup for some secrets, with `tau` outside
/// the subgroup, and some generators.
pub open spec fn setup_keys_of(r1cs: ConstraintMatrices, domain: GeneralEvaluationDomain, pk: ProvingKey) -> bool {
    exists|tau: nat, alpha: nat, beta: nat, gamma: nat, delta: nat, g1: G1Point, g2: G2Point|
        fsub(fpow(tau, domain.spec_size()), 1) != 0 && #[trigger] prover_key_of(
            domain,
            r1cs,
            tau,
            alpha,
            beta,
            gamma,
            delta,
            g1,
            g2,
            pk,
        )
}

/// The sizes of the matrices fit a key over a subgroup of order `n`.
pub open spec fn keygen_sizes_ok(n: nat, m: ConstraintMatrices) -> bool {
    let len = m.num_instance_variables + m.num_witness_variables;
    let k = rows_read(m.num_constraints as nat, n);
    &&& 3 * len + n <= usize::MAX
    &&& k <= m.a@.len()
    &&& k <= m.b@.len()
    &&& k <= m.c@.len()
    &&& matrix_in_range(m.a@, len as nat)
    &&& matrix_in_range(m.b@, len as nat)
    &&& matrix_in_range(m.c@, len as nat)
}

impl Groth16 {
    /// Samples the secrets and the generators with `rng` and sets up the
    /// proving and verifying keys over the subgroup for the constraints.
    pub fn groth16_setup_dynarc(r1cs: ConstraintMatrices, rng: &mut StdRng) -> (r: Result<
        (ProvingKey, VerifyingKey, GeneralEvaluationDomain),
        SynthesisError,
    >)
        requires
            keygen_sizes_ok(conv_size(r1cs.num_constraints as nat), r1cs),
        ensures
            r matches Err(e) ==> e == SynthesisError::PolynomialDegreeTooLarge || e
                == SynthesisError::UnexpectedIdentity,
            (r matches Err(e) && e == SynthesisError::PolynomialDegreeTooLarge) <==> !(r1cs.num_constraints
                <= 0x1_0000_0000 && r1cs.num_constraints <= usize::MAX / 2 + 1),
            r matches Ok(t) ==> t.2.spec_size() == conv_size(r1cs.num_constraints as nat),
            r matches Ok(t) ==> vk_same(t.1, t.0.vk),
            r matches Ok(t) ==> setup_keys_of(r1cs, t.2, t.0),
    {
        let domain_min_size = r1cs.num_constraints;
        let domain = match GeneralEvaluationDomain::new(domain_min_size) {
            Some(d) => d,
            None => {
                return Err(SynthesisError::PolynomialDegreeTooLarge);
            },
        };
        proof {
            crate::fft_handler::lemma_next_pow2_unique(domain.spec_size(), domain_min_size as nat);
        }
        let tau = domain.sample_element_outside_domain(rng);
        let alpha = fr_rand(rng);
        let beta = fr_rand(rng);
        let gamma = fr_rand(rng);
        let delta = fr_rand(rng);
        let g1_gen = g1_rand(rng);
        let g2_gen = g2_rand(rng);
        let pk = match Self::generate_prover_key_with_matrices(
            domain,
            &r1cs,
            (tau, alpha, beta, gamma, delta, g1_gen, g2_gen),
        ) {
            Ok(pk) => pk,
            Err(e) => {
                return Err(e);
            },
        };
        let vk = copy_vk(&pk.vk);
        let out = (pk, vk, domain);
        proof {
            assert(fsub(fpow(tau@, out.2.spec_size()), 1) != 0 && prover_key_of(
                out.2,
                r1cs,
                tau@,
                alpha@,
                beta@,
                gamma@,
                delta@,
                g1_gen,
                g2_gen,
                out.0,
            ));
            assert(setup_keys_of(r1cs, out.2, out.0));
        }
        Ok(out)
    }
}

} // verus!
