//! Proving with the dynamic keys: the projection quotients kept with a
//! proof, and the update of a proof for a sparse change of its assignment.
use vstd::prelude::*;
use crate::data_structures::{Cache, Proof, ProvingKey, UpdatingKey};
use crate::domain::GeneralEvaluationDomain;
use crate::fft_handler::{
    add_entries, conv_size, convolution_f_f, convolution_f_g, convolution_spec, elementwise_add_g_g,
    elementwise_product_f_g, scale_entries,
};
use crate::field::{fadd, fmul, fsub, Scalar, fr_add, fr_mul, fr_sub, fr_rand_test_rng, lemma_fadd_assoc3, lemma_fadd_swap, lemma_fmul_fadd, lemma_rand_shift, lemma_fcong_refl, lemma_fcong_add, lemma_fcong_mul, lemma_fcong_sub, lemma_fcong_eq};
use crate::group::{
    G1Point, G2Point, models, g1_add_of, g1_identity, g1_mul_of, g1_sub_of, g2_add_of, g2_identity, g2_mul_of, g1_add,
    g1_mul, g1_sub, g1_zero, g2_add, g2_mul, g2_zero, g1_exp, g2_exp, g1_exps, g2_exps, exp_sparse, exp_dense, exp_dense_k,
};
use crate::utils::{
    column_terms, improved_lagrange_sparse_get, inner_product_sparse_f_dense_g, keys, merged_by_index, pair_models,
    sparse_g1_eval, sparse_in_range,
};
use crate::groth16::{Groth16, a_exp, b2_exp, b1_exp, c_exp, c_lin_exp};
use crate::r1cs_to_qap::{matrices_in_range, row_evals, concat_assignment};
use crate::relations::{ConstraintMatrices, SynthesisError};
use crate::utils::lagrange_of_dense_vec;

verus! {

/// The projection quotients of the evaluations `a` with the updating key:
/// `w * (a . L) + (a * w') . L + a . P`, with `*` the convolution over the
/// subgroup and `.` the products entry by entry.
pub open spec fn projection(uk: UpdatingKey, a: Seq<nat>) -> Seq<G1Point> {
    let l = uk.lagrange_truncated@;
    let w = models(uk.w@);
    let w_rev = models(uk.w_reverse@);
    let a_l_w = convolution_spec::<G1Point>(w, scale_entries(a, l), conv_size(w.len()));
    let a_w_rev_l = scale_entries(convolution_spec::<Scalar>(w_rev, a, conv_size(a.len())), l);
    add_entries(add_entries(a_l_w, a_w_rev_l), scale_entries(a, uk.p@))
}

/// The tables of the updating key have one entry per point of a subgroup of
/// order `n`.
pub open spec fn uk_sized(uk: UpdatingKey, n: nat) -> bool {
    &&& uk.lagrange_truncated@.len() == n
    &&& uk.w@.len() == n
    &&& uk.w_reverse@.len() == n
    &&& uk.p@.len() == n
    &&& n <= 0x1_0000_0000
    &&& n <= usize::MAX / 2 + 1
}

/// The projection quotients of `v`.
fn projection_of(uk: &UpdatingKey, v: &[Scalar], n: usize) -> (q: Vec<G1Point>)
    requires
        uk_sized(*uk, n as nat),
        v@.len() == n,
    ensures
        q@ == projection(*uk, models(v@)),
        q@.len() == n,
{
    let lagrg_trunc = &uk.lagrange_truncated;
    let w = &uk.w;
    let w_rev = &uk.w_reverse;
    let p = &uk.p;
    let vl = elementwise_product_f_g(v, lagrg_trunc.as_slice());
    proof {
        assert(vl@.len() == n);
    }
    let a_l_w = convolution_f_g(w.as_slice(), vl.as_slice());
    let cv = convolution_f_f(v, w_rev.as_slice());
    let a_w_rev_l = elementwise_product_f_g(cv.as_slice(), lagrg_trunc.as_slice());
    let q_first = elementwise_add_g_g(a_l_w.as_slice(), a_w_rev_l.as_slice());
    let q_second = elementwise_product_f_g(v, p.as_slice());
    let q = elementwise_add_g_g(q_first.as_slice(), q_second.as_slice());
    proof {
        assert(models(a_l_w@) =~= a_l_w@);
        assert(models(vl@) =~= vl@);
    }
    q
}

impl Groth16 {
    /// The projection quotients of the Lagrange-basis vectors `a` and `b`
    /// through the updating key, over the subgroup of `domain`.
    pub fn compute_projection_quotient(
        uk: &UpdatingKey,
        domain: GeneralEvaluationDomain,
        a: &[Scalar],
        b: &[Scalar],
        c: &[Scalar],
    ) -> (r: (Vec<G1Point>, Vec<G1Point>))
        requires
            uk_sized(*uk, domain.spec_size()),
            a@.len() == domain.spec_size(),
            b@.len() == domain.spec_size(),
            c@.len() == domain.spec_size(),
        ensures
            r.0@ == projection(*uk, models(a@)),
            r.1@ == projection(*uk, models(b@)),
            r.0@.len() == domain.spec_size(),
            r.1@.len() == domain.spec_size(),
    {
        let n = domain.size();
        let q_a = projection_of(uk, a, n);
        let q_b = projection_of(uk, b, n);
        (q_a, q_b)
    }

    /// Preprocess: the projection quotients of the evaluations of the rows
    /// of `A` and `B` on the assignment, kept in the cache.
    pub fn process_dynark(
        uk: &UpdatingKey,
        r1cs: &ConstraintMatrices,
        instance: &[Scalar],
        witness: &[Scalar],
        cache: &mut Cache,
    ) -> (r: Result<(), SynthesisError>)
        requires
            instance@.len() + witness@.len() <= usize::MAX,
            matrices_in_range(*r1cs, instance@.len() + witness@.len()),
            r1cs.num_constraints <= usize::MAX / 2 + 1,
            conv_size(r1cs.num_constraints as nat) == old(cache).domain.spec_size(),
            uk_sized(*uk, old(cache).domain.spec_size()),
        ensures
            r is Ok,
            ({
                let z = instance@ + witness@;
                let n = old(cache).domain.spec_size();
                let k = r1cs.num_constraints as nat;
                &&& final(cache).q_a@ == projection(*uk, row_evals(r1cs.a@, z, k, n))
                &&& final(cache).q_b@ == projection(*uk, row_evals(r1cs.b@, z, k, n))
            }),
            final(cache).domain == old(cache).domain,
            final(cache).num_instance == old(cache).num_instance,
            final(cache).r == old(cache).r,
            final(cache).s == old(cache).s,
            final(cache).a_g1 == old(cache).a_g1,
            final(cache).b_g1 == old(cache).b_g1,
            final(cache).b_g2 == old(cache).b_g2,
            final(cache).c_g1 == old(cache).c_g1,
    {
        let z = concat_assignment(instance, witness);
        let (a, b, c) = lagrange_of_dense_vec(r1cs, z.as_slice()).unwrap();
        proof {
            let n2 = choose|n: nat|
                crate::domain::is_next_pow2(n, r1cs.num_constraints as nat) && models(a@) == row_evals(
                    r1cs.a@,
                    z@,
                    r1cs.num_constraints as nat,
                    n,
                ) && models(b@) == row_evals(r1cs.b@, z@, r1cs.num_constraints as nat, n) && models(c@)
                    == row_evals(r1cs.c@, z@, r1cs.num_constraints as nat, n);
            crate::fft_handler::lemma_next_pow2_unique(n2, r1cs.num_constraints as nat);
            assert(models(a@).len() == a@.len());
            assert(models(b@).len() == b@.len());
            assert(models(c@).len() == c@.len());
        }
        let (q_a, q_b) = Self::compute_projection_quotient(uk, cache.domain, a.as_slice(), b.as_slice(), c.as_slice());
        cache.q_a = q_a;
        cache.q_b = q_b;
        Ok(())
    }
}

/// `sum_k dense[idx_k] * v_k` in G2, added left to right from the
/// identity.
pub open spec fn sparse_g2_eval(sv: Seq<(usize, Scalar)>, dense: Seq<G2Point>) -> G2Point
    decreases sv.len(),
{
    if sv.len() == 0 {
        g2_identity()
    } else {
        g2_add_of(sparse_g2_eval(sv.drop_last(), dense), g2_mul_of(dense[sv.last().0 as int], sv.last().1@))
    }
}

/// The sparse vector with each index lowered by `k`.
pub open spec fn shift_down(sv: Seq<(usize, Scalar)>, k: nat) -> Seq<(usize, Scalar)> {
    Seq::new(sv.len(), |t: int| ((sv[t].0 - k) as usize, sv[t].1))
}

/// `sum_{(x, v) in inner, x != o} w[(n + x - o) % n] * v`, added in order.
pub open spec fn cross_sum(inner: Seq<(usize, Scalar)>, o: usize, w: Seq<nat>, n: nat) -> nat
    decreases inner.len(),
{
    if inner.len() == 0 {
        0
    } else {
        let x = inner.last().0;
        fadd(
            cross_sum(inner.drop_last(), o, w, n),
            if x == o {
                0
            } else {
                fmul(w[((n + x - o) % (n as int))], inner.last().1@)
            },
        )
    }
}

/// `sum_{(o, v) in outer} l[o] * (v * cross_sum(inner, o))` in G1, added in
/// order from the identity.
pub open spec fn cross_side(
    outer: Seq<(usize, Scalar)>,
    inner: Seq<(usize, Scalar)>,
    l: Seq<G1Point>,
    w: Seq<nat>,
    n: nat,
) -> G1Point
    decreases outer.len(),
{
    if outer.len() == 0 {
        g1_identity()
    } else {
        let o = outer.last().0;
        g1_add_of(
            cross_side(outer.drop_last(), inner, l, w, n),
            g1_mul_of(l[o as int], fmul(outer.last().1@, cross_sum(inner, o, w, n))),
        )
    }
}

/// The entries of `a` and `b` with equal indices, multiplied, as merging
/// the two lists in index order pairs them up.
pub open spec fn join_spec(a: Seq<(usize, Scalar)>, b: Seq<(usize, Scalar)>) -> Seq<(usize, nat)>
    decreases a.len() + b.len(),
{
    if a.len() == 0 || b.len() == 0 {
        Seq::empty()
    } else if a[0].0 < b[0].0 {
        join_spec(a.drop_first(), b)
    } else if a[0].0 > b[0].0 {
        join_spec(a, b.drop_first())
    } else {
        seq![(a[0].0, fmul(a[0].1@, b[0].1@))] + join_spec(a.drop_first(), b.drop_first())
    }
}

/// `sum_{(i, v)} p[i] * v` in G1, added in order from the identity.
pub open spec fn pairs_eval(r: Seq<(usize, nat)>, p: Seq<G1Point>) -> G1Point
    decreases r.len(),
{
    if r.len() == 0 {
        g1_identity()
    } else {
        g1_add_of(pairs_eval(r.drop_last(), p), g1_mul_of(p[r.last().0 as int], r.last().1))
    }
}

/// Every index of the sparse vector is below `n`.
pub open spec fn pairs_in_range(r: Seq<(usize, nat)>, n: nat) -> bool {
    forall|k: int| 0 <= k < r.len() ==> (#[trigger] r[k]).0 < n
}

/// `sum_k dense[idx_k] * v_k` in G2.
pub(crate) fn sparse_g2(sv: &[(usize, Scalar)], dense: &Vec<G2Point>) -> (r: G2Point)
    requires
        sparse_in_range(sv@, dense@.len()),
    ensures
        r == sparse_g2_eval(sv@, dense@),
        g2_exp(r) == exp_sparse(sv@, g2_exps(dense@)),
{
    let mut sum = g2_zero();
    let mut k: usize = 0;
    while k < sv.len()
        invariant
            k <= sv@.len(),
            sparse_in_range(sv@, dense@.len()),
            sum == sparse_g2_eval(sv@.take(k as int), dense@),
            g2_exp(sum) == exp_sparse(sv@.take(k as int), g2_exps(dense@)),
        decreases sv.len() - k,
    {
        let (idx, coeff) = sv[k];
        sum = g2_add(&sum, &g2_mul(&dense[idx], &coeff));
        proof {
            assert(sv@.take(k + 1).drop_last() =~= sv@.take(k as int));
        }
        k = k + 1;
    }
    proof {
        assert(sv@.take(sv@.len() as int) =~= sv@);
    }
    sum
}

/// The sparse vector with each index lowered by `k`.
pub(crate) fn shifted(sv: &[(usize, Scalar)], k: usize) -> (r: Vec<(usize, Scalar)>)
    requires
        forall|t: int| 0 <= t < sv@.len() ==> (#[trigger] sv@[t]).0 >= k,
    ensures
        r@ == shift_down(sv@, k as nat),
{
    let mut r: Vec<(usize, Scalar)> = Vec::with_capacity(sv.len());
    let mut t: usize = 0;
    while t < sv.len()
        invariant
            t <= sv@.len(),
            forall|q: int| 0 <= q < sv@.len() ==> (#[trigger] sv@[q]).0 >= k,
            r@ == shift_down(sv@, k as nat).take(t as int),
        decreases sv.len() - t,
    {
        let (i, v) = sv[t];
        r.push((i - k, v));
        t = t + 1;
        proof {
            assert(r@ =~= shift_down(sv@, k as nat).take(t as int));
        }
    }
    proof {
        assert(shift_down(sv@, k as nat).take(sv@.len() as int) =~= shift_down(sv@, k as nat));
    }
    r
}

/// `cross_sum(inner, o, w, n)`.
fn cross_sum_exec(inner: &Vec<(usize, Scalar)>, o: usize, w: &Vec<Scalar>, n: usize) -> (r: Scalar)
    requires
        0 < n <= usize::MAX / 2 + 1,
        o < n,
        sparse_in_range(inner@, n as nat),
        w@.len() >= n,
    ensures
        r@ == cross_sum(inner@, o, models(w@), n as nat),
{
    let mut acc = Scalar::zero();
    let mut t: usize = 0;
    while t < inner.len()
        invariant
            t <= inner@.len(),
            0 < n <= usize::MAX / 2 + 1,
            o < n,
            sparse_in_range(inner@, n as nat),
            w@.len() >= n,
            acc@ == cross_sum(inner@.take(t as int), o, models(w@), n as nat),
        decreases inner.len() - t,
    {
        let (x, v) = inner[t];
        let term = if x == o {
            Scalar::zero()
        } else {
            fr_mul(&w[(n + x - o) % n], &v)
        };
        acc = fr_add(&acc, &term);
        proof {
            assert(inner@.take(t + 1).drop_last() =~= inner@.take(t as int));
        }
        t = t + 1;
    }
    proof {
        assert(inner@.take(inner@.len() as int) =~= inner@);
    }
    acc
}

/// `cross_side(outer, inner, l, w, n)`.
pub(crate) fn cross_side_exec(
    outer: &Vec<(usize, Scalar)>,
    inner: &Vec<(usize, Scalar)>,
    l: &Vec<G1Point>,
    w: &Vec<Scalar>,
    n: usize,
) -> (r: G1Point)
    requires
        0 < n <= usize::MAX / 2 + 1,
        sparse_in_range(outer@, n as nat),
        sparse_in_range(inner@, n as nat),
        w@.len() >= n,
        l@.len() >= n,
    ensures
        r == cross_side(outer@, inner@, l@, models(w@), n as nat),
{
    let mut acc = g1_zero();
    let mut t: usize = 0;
    while t < outer.len()
        invariant
            t <= outer@.len(),
            0 < n <= usize::MAX / 2 + 1,
            sparse_in_range(outer@, n as nat),
            sparse_in_range(inner@, n as nat),
            w@.len() >= n,
            l@.len() >= n,
            acc == cross_side(outer@.take(t as int), inner@, l@, models(w@), n as nat),
        decreases outer.len() - t,
    {
        let (o, v) = outer[t];
        let s = cross_sum_exec(inner, o, w, n);
        acc = g1_add(&acc, &g1_mul(&l[o], &fr_mul(&v, &s)));
        proof {
            assert(outer@.take(t + 1).drop_last() =~= outer@.take(t as int));
        }
        t = t + 1;
    }
    proof {
        assert(outer@.take(outer@.len() as int) =~= outer@);
    }
    acc
}

/// The two-pointer merge of `a` and `b` in index order, multiplying the
/// entries of equal index.
pub(crate) fn merge_join(a: &Vec<(usize, Scalar)>, b: &Vec<(usize, Scalar)>) -> (r: Vec<(usize, Scalar)>)
    ensures
        pair_models(r@) == join_spec(a@, b@),
{
    let mut results: Vec<(usize, Scalar)> = Vec::new();
    let mut cur_i: usize = 0;
    let mut cur_j: usize = 0;
    proof {
        assert(a@.skip(0) =~= a@);
        assert(b@.skip(0) =~= b@);
        assert(pair_models(results@) =~= Seq::<(usize, nat)>::empty());
        assert(pair_models(results@) + join_spec(a@, b@) =~= join_spec(a@, b@));
    }
    while cur_i < a.len() && cur_j < b.len()
        invariant
            cur_i <= a@.len(),
            cur_j <= b@.len(),
            pair_models(results@) + join_spec(a@.skip(cur_i as int), b@.skip(cur_j as int)) == join_spec(a@, b@),
        decreases a@.len() + b@.len() - cur_i - cur_j,
    {
        let ghost sa = a@.skip(cur_i as int);
        let ghost sb = b@.skip(cur_j as int);
        let ghost pr = pair_models(results@);
        proof {
            assert(sa.drop_first() =~= a@.skip(cur_i + 1));
            assert(sb.drop_first() =~= b@.skip(cur_j + 1));
            assert(sa[0] == a@[cur_i as int]);
            assert(sb[0] == b@[cur_j as int]);
        }
        let ka = a[cur_i].0;
        let kb = b[cur_j].0;
        if ka < kb {
            cur_i = cur_i + 1;
        } else if ka > kb {
            cur_j = cur_j + 1;
        } else {
            let p = fr_mul(&a[cur_i].1, &b[cur_j].1);
            results.push((ka, p));
            proof {
                assert(pair_models(results@) =~= pr.push((ka, p@)));
                assert(pr + join_spec(sa, sb) =~= pair_models(results@) + join_spec(
                    a@.skip(cur_i + 1),
                    b@.skip(cur_j + 1),
                ));
            }
            cur_i = cur_i + 1;
            cur_j = cur_j + 1;
        }
    }
    proof {
        assert(join_spec(a@.skip(cur_i as int), b@.skip(cur_j as int)) =~= Seq::<(usize, nat)>::empty());
        assert(pair_models(results@) =~= pair_models(results@) + Seq::<(usize, nat)>::empty());
    }
    results
}

/// `sum_{(i, v)} p[i] * v` in G1.
pub(crate) fn pairs_eval_exec(r: &Vec<(usize, Scalar)>, p: &Vec<G1Point>) -> (out: G1Point)
    requires
        sparse_in_range(r@, p@.len()),
    ensures
        out == pairs_eval(pair_models(r@), p@),
{
    let mut acc = g1_zero();
    let mut t: usize = 0;
    while t < r.len()
        invariant
            t <= r@.len(),
            sparse_in_range(r@, p@.len()),
            acc == pairs_eval(pair_models(r@.take(t as int)), p@),
        decreases r.len() - t,
    {
        let (i, v) = r[t];
        acc = g1_add(&acc, &g1_mul(&p[i], &v));
        proof {
            assert(pair_models(r@.take(t + 1)).drop_last() =~= pair_models(r@.take(t as int)));
        }
        t = t + 1;
    }
    proof {
        assert(r@.take(r@.len() as int) =~= r@);
    }
    acc
}

/// Every row index in the columns is below `n`.
pub open spec fn cols_rows_in_range(cols: Seq<Vec<(usize, Scalar)>>, n: nat) -> bool {
    forall|j: int, t: int| 0 <= j < cols.len() && 0 <= t < cols[j]@.len() ==> #[trigger] cols[j]@[t].0 < n
}

/// The entries gathered from columns with row indices below `n` have
/// indices below `n`.
proof fn lemma_column_terms_in_range(cols: Seq<Vec<(usize, Scalar)>>, sv: Seq<(usize, Scalar)>, n: nat)
    requires
        cols_rows_in_range(cols, n),
        sparse_in_range(sv, cols.len()),
    ensures
        forall|m: int| 0 <= m < column_terms(cols, sv).len() ==> (#[trigger] column_terms(cols, sv)[m]).0 < n,
    decreases sv.len(),
{
    if sv.len() > 0 {
        lemma_column_terms_in_range(cols, sv.drop_last(), n);
        let p = column_terms(cols, sv.drop_last());
        let c = crate::utils::scaled_column(cols[sv.last().0 as int]@, sv.last().1@);
        assert(column_terms(cols, sv) == p + c);
        assert forall|m: int| 0 <= m < (p + c).len() implies #[trigger] (p + c)[m].0 < n by {
            if m >= p.len() {
                assert(cols[sv.last().0 as int]@[m - p.len()].0 < n);
            }
        }
    }
}

/// A merge of entries with indices below `n` has indices below `n`.
pub(crate) proof fn lemma_merged_in_range(out: Seq<(usize, Scalar)>, cols: Seq<Vec<(usize, Scalar)>>, sv: Seq<(usize, Scalar)>, n: nat)
    requires
        merged_by_index(out, column_terms(cols, sv)),
        cols_rows_in_range(cols, n),
        sparse_in_range(sv, cols.len()),
    ensures
        sparse_in_range(out, n),
{
    lemma_column_terms_in_range(cols, sv, n);
    let terms = column_terms(cols, sv);
    assert forall|k: int| 0 <= k < out.len() implies (#[trigger] out[k]).0 < n by {
        let key = out[k].0;
        assert(keys(pair_models(out))[k] == key);
        assert(keys(pair_models(out)).contains(key));
        assert(keys(terms).contains(key));
        let m = choose|m: int| 0 <= m < keys(terms).len() && keys(terms)[m] == key;
        assert(terms[m].0 == key);
    }
}

/// The update can be applied with the key and the cache: the indices it
/// changes have entries in the key's tables, those of the witness come
/// after the instance, and the tables have an entry per point of the
/// subgroup.
pub open spec fn update_ok(
    uk: UpdatingKey,
    cache: Cache,
    instance_update: Seq<(usize, Scalar)>,
    witness_update: Seq<(usize, Scalar)>,
) -> bool {
    let n = cache.domain.spec_size();
    let upd = instance_update + witness_update;
    &&& instance_update.len() + witness_update.len() <= usize::MAX
    &&& sparse_in_range(upd, uk.pk.u_g1@.len())
    &&& sparse_in_range(upd, uk.pk.v_g1@.len())
    &&& sparse_in_range(upd, uk.pk.v_g2@.len())
    &&& sparse_in_range(upd, uk.a_matrix_cols@.len())
    &&& sparse_in_range(upd, uk.b_matrix_cols@.len())
    &&& forall|t: int| 0 <= t < witness_update.len() ==> (#[trigger] witness_update[t]).0 >= cache.num_instance
    &&& sparse_in_range(shift_down(witness_update, cache.num_instance as nat), uk.pk.t_p_g1@.len())
    &&& cols_rows_in_range(uk.a_matrix_cols@, n)
    &&& cols_rows_in_range(uk.b_matrix_cols@, n)
    &&& uk.lagrange_truncated@.len() >= n
    &&& uk.w@.len() >= n
    &&& uk.p@.len() >= n
    &&& cache.q_a@.len() >= n
    &&& cache.q_b@.len() >= n
}

/// The updated proof for the update `(instance_update, witness_update)` of
/// the cached proof, with its changes `a_ls`, `b_ls` in the Lagrange bases
/// of A and B and the new randomness `rn`, `sn`:
/// `A' = A + (rn - r) delta + sum u`, `B' = B + (sn - s) delta + sum v`,
/// and `C'` adds to `C` the witness terms, the change of the randomness
/// terms, the projections on the cached quotients and the cross terms.
pub open spec fn update_formula(
    uk: UpdatingKey,
    cache: Cache,
    instance_update: Seq<(usize, Scalar)>,
    witness_update: Seq<(usize, Scalar)>,
    a_ls: Seq<(usize, Scalar)>,
    b_ls: Seq<(usize, Scalar)>,
    rn: nat,
    sn: nat,
) -> Proof {
    let n = cache.domain.spec_size();
    let upd = instance_update + witness_update;
    let dg1 = uk.pk.delta_g1;
    let dg2 = uk.pk.vk.delta_g2;
    let r = cache.r@;
    let s = cache.s@;
    let uc0 = sparse_g1_eval(shift_down(witness_update, cache.num_instance as nat), uk.pk.t_p_g1@);
    let a_new = g1_add_of(g1_add_of(cache.a_g1, g1_mul_of(dg1, fsub(rn, r))), sparse_g1_eval(upd, uk.pk.u_g1@));
    let b1_new = g1_add_of(g1_add_of(cache.b_g1, g1_mul_of(dg1, fsub(sn, s))), sparse_g1_eval(upd, uk.pk.v_g1@));
    let b2_new = g2_add_of(g2_add_of(cache.b_g2, g2_mul_of(dg2, fsub(sn, s))), sparse_g2_eval(upd, uk.pk.v_g2@));
    let corr = g1_sub_of(
        g1_sub_of(
            g1_add_of(g1_sub_of(g1_mul_of(a_new, sn), g1_mul_of(cache.a_g1, s)), g1_mul_of(b1_new, rn)),
            g1_mul_of(cache.b_g1, r),
        ),
        g1_mul_of(dg1, fsub(fmul(rn, sn), fmul(r, s))),
    );
    let uc = g1_add_of(uc0, corr);
    let cp = g1_add_of(sparse_g1_eval(a_ls, cache.q_b@), sparse_g1_eval(b_ls, cache.q_a@));
    let l = uk.lagrange_truncated@;
    let w = models(uk.w@);
    let c1 = cross_side(a_ls, b_ls, l, w, n);
    let c2 = cross_side(b_ls, a_ls, l, w, n);
    let c3 = pairs_eval(join_spec(a_ls, b_ls), uk.p@);
    let c_new = g1_add_of(g1_add_of(g1_add_of(g1_add_of(g1_add_of(cache.c_g1, uc), cp), c1), c2), c3);
    Proof { a_g1: a_new, b_g2: b2_new, c_g1: c_new }
}

/// The update of a cached proof is `update_formula` for some new
/// randomness and for the merged changes in the Lagrange bases.
pub open spec fn update_result(
    uk: UpdatingKey,
    cache: Cache,
    instance_update: Seq<(usize, Scalar)>,
    witness_update: Seq<(usize, Scalar)>,
    proof: Proof,
) -> bool {
    let upd = instance_update + witness_update;
    exists|a_ls: Seq<(usize, Scalar)>, b_ls: Seq<(usize, Scalar)>, rn: nat, sn: nat|
        merged_by_index(a_ls, column_terms(uk.a_matrix_cols@, upd)) && merged_by_index(
            b_ls,
            column_terms(uk.b_matrix_cols@, upd),
        ) && proof == #[trigger] update_formula(uk, cache, instance_update, witness_update, a_ls, b_ls, rn, sn)
}

/// The assignment `z` with each change `(i, c)` of `upd` added at `i`, in
/// order.
pub open spec fn apply_updates(z: Seq<nat>, upd: Seq<(usize, Scalar)>) -> Seq<nat>
    decreases upd.len(),
{
    if upd.len() == 0 {
        z
    } else {
        let z0 = apply_updates(z, upd.drop_last());
        let i = upd.last().0 as int;
        z0.update(i, fadd(z0[i], upd.last().1@))
    }
}

/// Adding `c` at place `i < k` adds `e_i * c` to the first `k` products.
proof fn lemma_dense_update(e: Seq<nat>, z: Seq<nat>, i: int, c: nat, k: nat)
    requires
        0 <= i < z.len(),
        k <= z.len(),
        k <= e.len(),
    ensures
        exp_dense_k(e, z.update(i, fadd(z[i], c)), k) == if i < k {
            fadd(exp_dense_k(e, z, k), fmul(e[i], c))
        } else {
            exp_dense_k(e, z, k)
        },
    decreases k,
{
    let z1 = z.update(i, fadd(z[i], c));
    if k > 0 {
        let k1 = (k - 1) as nat;
        lemma_dense_update(e, z, i, c, k1);
        let s0 = exp_dense_k(e, z, k1);
        let j = k - 1;
        if i == j {
            lemma_fmul_fadd(e[j], z[j], c);
            lemma_fadd_assoc3(s0, fmul(e[j], z[j]), fmul(e[j], c));
        } else if i < j {
            lemma_fadd_swap(s0, fmul(e[i], c), fmul(e[j], z[j]));
        }
    }
}

/// The exponent of a multi-scalar multiplication over the updated
/// assignment is that over the old one plus the exponent of the sparse
/// combination of the changes.
pub proof fn lemma_dense_updates(e: Seq<nat>, z: Seq<nat>, upd: Seq<(usize, Scalar)>)
    requires
        z.len() <= e.len(),
        forall|t: int| 0 <= t < upd.len() ==> (#[trigger] upd[t]).0 < z.len(),
    ensures
        apply_updates(z, upd).len() == z.len(),
        exp_dense(e, apply_updates(z, upd)) == fadd(exp_dense(e, z), exp_sparse(upd, e)),
    decreases upd.len(),
{
    if upd.len() == 0 {
        vstd::arithmetic::div_mod::lemma_small_mod(exp_dense(e, z), crate::field::modulus());
        assert(exp_dense(e, z) < crate::field::modulus()) by {
            if z.len() > 0 {
                crate::field::lemma_field_ops_canonical(exp_dense_k(e, z, (z.len() - 1) as nat), 0);
            }
        }
    } else {
        let u0 = upd.drop_last();
        assert forall|t: int| 0 <= t < u0.len() implies (#[trigger] u0[t]).0 < z.len() by {
            assert(u0[t] == upd[t]);
        }
        lemma_dense_updates(e, z, u0);
        let z0 = apply_updates(z, u0);
        let i = upd.last().0 as int;
        assert(upd.last() == upd[upd.len() - 1]);
        lemma_dense_update(e, z0, i, upd.last().1@, z.len());
        lemma_fadd_assoc3(exp_dense(e, z), exp_sparse(u0, e), fmul(e[i], upd.last().1@));
    }
}

/// The updated `A'` and `B'` are those of the fresh proof of the updated
/// assignment with the new randomness: for a cache holding the proof of `z`
/// with randomness `r`, `s`, the update by `upd` with `rn`, `sn` gives
/// `A' = rn * delta + alpha + sum_i z'_i * u_i` and
/// `B' = sn * delta + beta + sum_i z'_i * v_i` for `z'` the updated `z`,
/// by their exponents.
pub proof fn lemma_update_ab(uk: UpdatingKey, cache: Cache, upd: Seq<(usize, Scalar)>, z: Seq<nat>, rn: nat, sn: nat, p: Proof)
    requires
        updated_ab_exps(uk, cache, upd, rn, sn, p),
        g1_exp(cache.a_g1) == a_exp(uk.pk, cache.r@, z),
        g2_exp(cache.b_g2) == b2_exp(uk.pk, cache.s@, z),
        z.len() <= uk.pk.u_g1@.len(),
        z.len() <= uk.pk.v_g2@.len(),
        forall|t: int| 0 <= t < upd.len() ==> (#[trigger] upd[t]).0 < z.len(),
    ensures
        g1_exp(p.a_g1) == a_exp(uk.pk, rn, apply_updates(z, upd)),
        g2_exp(p.b_g2) == b2_exp(uk.pk, sn, apply_updates(z, upd)),
{
    let eu = g1_exps(uk.pk.u_g1@);
    let ev = g2_exps(uk.pk.v_g2@);
    lemma_dense_updates(eu, z, upd);
    lemma_dense_updates(ev, z, upd);
    lemma_rand_shift(
        g1_exp(uk.pk.delta_g1),
        cache.r@,
        rn,
        g1_exp(uk.pk.vk.alpha_g1),
        exp_dense(eu, z),
        exp_sparse(upd, eu),
    );
    lemma_rand_shift(
        g2_exp(uk.pk.vk.delta_g2),
        cache.s@,
        sn,
        g2_exp(uk.pk.vk.beta_g2),
        exp_dense(ev, z),
        exp_sparse(upd, ev),
    );
}

/// The exponent of the projection part of the update of `C`: the
/// projections of the Lagrange-basis changes `a_ls`, `b_ls` on the cached
/// quotients, the two cross terms and the diagonal terms.
pub open spec fn proj_exp(uk: UpdatingKey, cache: Cache, a_ls: Seq<(usize, Scalar)>, b_ls: Seq<(usize, Scalar)>) -> nat {
    let n = cache.domain.spec_size();
    let cp = g1_add_of(sparse_g1_eval(a_ls, cache.q_b@), sparse_g1_eval(b_ls, cache.q_a@));
    let l = uk.lagrange_truncated@;
    let w = models(uk.w@);
    let c1 = cross_side(a_ls, b_ls, l, w, n);
    let c2 = cross_side(b_ls, a_ls, l, w, n);
    let c3 = pairs_eval(join_spec(a_ls, b_ls), uk.p@);
    fadd(fadd(fadd(g1_exp(cp), g1_exp(c1)), g1_exp(c2)), g1_exp(c3))
}

/// The exponent of `C'` of the update of the cached proof with the new
/// randomness `rn`, `sn`, as the update computes it: `C` plus the witness
/// terms of the change, plus the change of the randomness terms
/// `s' A' - s A + r' B' - r B - (r' s' - r s) delta` (with `A'`, `B'` in G1
/// moved by the whole update), plus the projection part, added left to
/// right.
pub open spec fn updated_c_exp(
    uk: UpdatingKey,
    cache: Cache,
    instance_update: Seq<(usize, Scalar)>,
    witness_update: Seq<(usize, Scalar)>,
    rn: nat,
    sn: nat,
    a_ls: Seq<(usize, Scalar)>,
    b_ls: Seq<(usize, Scalar)>,
) -> nat {
    let upd = instance_update + witness_update;
    let ed = g1_exp(uk.pk.delta_g1);
    let r = cache.r@;
    let s = cache.s@;
    let ea = g1_exp(cache.a_g1);
    let eb = g1_exp(cache.b_g1);
    let ea2 = fadd(fadd(ea, fmul(ed, fsub(rn, r))), exp_sparse(upd, g1_exps(uk.pk.u_g1@)));
    let eb2 = fadd(fadd(eb, fmul(ed, fsub(sn, s))), exp_sparse(upd, g1_exps(uk.pk.v_g1@)));
    let corr = fsub(
        fsub(fadd(fsub(fmul(ea2, sn), fmul(ea, s)), fmul(eb2, rn)), fmul(eb, r)),
        fmul(ed, fsub(fmul(rn, sn), fmul(r, s))),
    );
    let uc = fadd(exp_sparse(shift_down(witness_update, cache.num_instance as nat), g1_exps(uk.pk.t_p_g1@)), corr);
    let n = cache.domain.spec_size();
    let cp = g1_add_of(sparse_g1_eval(a_ls, cache.q_b@), sparse_g1_eval(b_ls, cache.q_a@));
    let l = uk.lagrange_truncated@;
    let w = models(uk.w@);
    let c1 = cross_side(a_ls, b_ls, l, w, n);
    let c2 = cross_side(b_ls, a_ls, l, w, n);
    let c3 = pairs_eval(join_spec(a_ls, b_ls), uk.p@);
    fadd(fadd(fadd(fadd(fadd(g1_exp(cache.c_g1), uc), g1_exp(cp)), g1_exp(c1)), g1_exp(c2)), g1_exp(c3))
}

/// The updated `C'` is the `C` of the fresh proof of the updated assignment
/// with the new randomness, up to its quotient term: for a cache holding the
/// proof of `z` (witness `w`, quotient `q`) with randomness `r`, `s`, the
/// exponent of `C'` is `s' A' + r' B' - r' s' delta + sum_i w'_i * l_i` of
/// the updated `z'`, `w'`, plus the old quotient term `sum_i q_i * h_i` and
/// the projection part of the update (which stands for the change of the
/// quotient).
pub proof fn lemma_update_c(
    uk: UpdatingKey,
    cache: Cache,
    instance_update: Seq<(usize, Scalar)>,
    witness_update: Seq<(usize, Scalar)>,
    rn: nat,
    sn: nat,
    a_ls: Seq<(usize, Scalar)>,
    b_ls: Seq<(usize, Scalar)>,
    p: Proof,
    z: Seq<nat>,
    w: Seq<nat>,
    q: Seq<nat>,
)
    requires
        g1_exp(p.c_g1) == updated_c_exp(uk, cache, instance_update, witness_update, rn, sn, a_ls, b_ls),
        g1_exp(cache.a_g1) == a_exp(uk.pk, cache.r@, z),
        g1_exp(cache.b_g1) == b1_exp(uk.pk, cache.s@, z),
        g1_exp(cache.c_g1) == c_exp(uk.pk, cache.r@, cache.s@, q, w, z),
        z.len() <= uk.pk.u_g1@.len(),
        z.len() <= uk.pk.v_g1@.len(),
        w.len() <= uk.pk.t_p_g1@.len(),
        forall|t: int|
            0 <= t < (instance_update + witness_update).len() ==> (#[trigger] (instance_update + witness_update)[t]).0
                < z.len(),
        forall|t: int|
            0 <= t < shift_down(witness_update, cache.num_instance as nat).len() ==> (#[trigger] shift_down(
                witness_update,
                cache.num_instance as nat,
            )[t]).0 < w.len(),
    ensures
        g1_exp(p.c_g1) == fadd(
            fadd(
                c_lin_exp(
                    uk.pk,
                    rn,
                    sn,
                    apply_updates(w, shift_down(witness_update, cache.num_instance as nat)),
                    apply_updates(z, instance_update + witness_update),
                ),
                exp_dense(g1_exps(uk.pk.tau_powers_g1@), q),
            ),
            proj_exp(uk, cache, a_ls, b_ls),
        ),
{
    let pk = uk.pk;
    let upd = instance_update + witness_update;
    let wsh = shift_down(witness_update, cache.num_instance as nat);
    let z2 = apply_updates(z, upd);
    let w2 = apply_updates(w, wsh);
    let r = cache.r@;
    let s = cache.s@;
    let d = g1_exp(pk.delta_g1);
    let eu = g1_exps(pk.u_g1@);
    let ev = g1_exps(pk.v_g1@);
    let et = g1_exps(pk.t_p_g1@);
    let aa = a_exp(pk, r, z);
    let bb = b1_exp(pk, s, z);
    let su = exp_sparse(upd, eu);
    let sv = exp_sparse(upd, ev);
    let ea2 = fadd(fadd(aa, fmul(d, fsub(rn, r))), su);
    let eb2 = fadd(fadd(bb, fmul(d, fsub(sn, s))), sv);
    // the moved A and B are those of the fresh proof
    lemma_dense_updates(eu, z, upd);
    lemma_dense_updates(ev, z, upd);
    lemma_dense_updates(et, w, wsh);
    lemma_rand_shift(d, r, rn, g1_exp(pk.vk.alpha_g1), exp_dense(eu, z), su);
    lemma_rand_shift(d, s, sn, g1_exp(pk.beta_g1), exp_dense(ev, z), sv);
    let a2 = a_exp(pk, rn, z2);
    let b2 = b1_exp(pk, sn, z2);
    assert(ea2 == a2);
    assert(eb2 == b2);
    let tw = exp_dense(et, w);
    let u0 = exp_sparse(wsh, et);
    let tw2 = exp_dense(et, w2);
    assert(tw2 == fadd(tw, u0));
    let qq = exp_dense(g1_exps(pk.tau_powers_g1@), q);
    let n = cache.domain.spec_size();
    let cp = g1_exp(g1_add_of(sparse_g1_eval(a_ls, cache.q_b@), sparse_g1_eval(b_ls, cache.q_a@)));
    let l = uk.lagrange_truncated@;
    let wv = models(uk.w@);
    let c1 = g1_exp(cross_side(a_ls, b_ls, l, wv, n));
    let c2 = g1_exp(cross_side(b_ls, a_ls, l, wv, n));
    let c3 = g1_exp(pairs_eval(join_spec(a_ls, b_ls), uk.p@));
    // integer images
    let (ai, bi, di, ri, si, rni, sni) = (aa as int, bb as int, d as int, r as int, s as int, rn as int, sn as int);
    let (a2i, b2i, twi, u0i, qi) = (a2 as int, b2 as int, tw as int, u0 as int, qq as int);
    let (cpi, c1i, c2i, c3i) = (cp as int, c1 as int, c2 as int, c3 as int);
    lemma_fcong_refl(ai);
    lemma_fcong_refl(bi);
    lemma_fcong_refl(di);
    lemma_fcong_refl(ri);
    lemma_fcong_refl(si);
    lemma_fcong_refl(rni);
    lemma_fcong_refl(sni);
    lemma_fcong_refl(a2i);
    lemma_fcong_refl(b2i);
    lemma_fcong_refl(twi);
    lemma_fcong_refl(u0i);
    lemma_fcong_refl(qi);
    lemma_fcong_refl(cpi);
    lemma_fcong_refl(c1i);
    lemma_fcong_refl(c2i);
    lemma_fcong_refl(c3i);
    // C of the cache
    lemma_fcong_mul(aa, s, ai, si);
    lemma_fcong_mul(bb, r, bi, ri);
    lemma_fcong_add(fmul(aa, s), fmul(bb, r), ai * si, bi * ri);
    lemma_fcong_mul(r, s, ri, si);
    lemma_fcong_mul(d, fmul(r, s), di, ri * si);
    let x1 = fsub(fadd(fmul(aa, s), fmul(bb, r)), fmul(d, fmul(r, s)));
    lemma_fcong_sub(fadd(fmul(aa, s), fmul(bb, r)), fmul(d, fmul(r, s)), ai * si + bi * ri, di * (ri * si));
    let x1i = ai * si + bi * ri - di * (ri * si);
    let ll = fadd(x1, tw);
    lemma_fcong_add(x1, tw, x1i, twi);
    let cc = fadd(ll, qq);
    lemma_fcong_add(ll, qq, x1i + twi, qi);
    assert(g1_exp(cache.c_g1) == cc);
    // the correction
    lemma_fcong_mul(ea2, sn, a2i, sni);
    let k1 = fsub(fmul(ea2, sn), fmul(aa, s));
    lemma_fcong_sub(fmul(ea2, sn), fmul(aa, s), a2i * sni, ai * si);
    lemma_fcong_mul(eb2, rn, b2i, rni);
    let k2 = fadd(k1, fmul(eb2, rn));
    lemma_fcong_add(k1, fmul(eb2, rn), a2i * sni - ai * si, b2i * rni);
    let k3 = fsub(k2, fmul(bb, r));
    lemma_fcong_sub(k2, fmul(bb, r), a2i * sni - ai * si + b2i * rni, bi * ri);
    lemma_fcong_mul(rn, sn, rni, sni);
    lemma_fcong_sub(fmul(rn, sn), fmul(r, s), rni * sni, ri * si);
    lemma_fcong_mul(d, fsub(fmul(rn, sn), fmul(r, s)), di, rni * sni - ri * si);
    let corr = fsub(k3, fmul(d, fsub(fmul(rn, sn), fmul(r, s))));
    let corri = a2i * sni - ai * si + b2i * rni - bi * ri - di * (rni * sni - ri * si);
    lemma_fcong_sub(k3, fmul(d, fsub(fmul(rn, sn), fmul(r, s))), a2i * sni - ai * si + b2i * rni - bi * ri, di * (
    rni * sni - ri * si));
    let uc = fadd(u0, corr);
    lemma_fcong_add(u0, corr, u0i, corri);
    // the left side
    let ccc = x1i + twi + qi;
    let l1 = fadd(cc, uc);
    lemma_fcong_add(cc, uc, ccc, u0i + corri);
    let l2 = fadd(l1, cp);
    lemma_fcong_add(l1, cp, ccc + (u0i + corri), cpi);
    let l3 = fadd(l2, c1);
    lemma_fcong_add(l2, c1, ccc + (u0i + corri) + cpi, c1i);
    let l4 = fadd(l3, c2);
    lemma_fcong_add(l3, c2, ccc + (u0i + corri) + cpi + c1i, c2i);
    let l5 = fadd(l4, c3);
    let lhsi = ccc + (u0i + corri) + cpi + c1i + c2i + c3i;
    lemma_fcong_add(l4, c3, ccc + (u0i + corri) + cpi + c1i + c2i, c3i);
    assert(g1_exp(p.c_g1) == l5);
    // the right side
    lemma_fcong_mul(a2, sn, a2i, sni);
    lemma_fcong_mul(b2, rn, b2i, rni);
    lemma_fcong_add(fmul(a2, sn), fmul(b2, rn), a2i * sni, b2i * rni);
    lemma_fcong_mul(d, fmul(rn, sn), di, rni * sni);
    let y1 = fsub(fadd(fmul(a2, sn), fmul(b2, rn)), fmul(d, fmul(rn, sn)));
    let y1i = a2i * sni + b2i * rni - di * (rni * sni);
    lemma_fcong_sub(fadd(fmul(a2, sn), fmul(b2, rn)), fmul(d, fmul(rn, sn)), a2i * sni + b2i * rni, di * (rni * sni));
    lemma_fcong_add(tw, u0, twi, u0i);
    let l2p = fadd(y1, tw2);
    lemma_fcong_add(y1, tw2, y1i, twi + u0i);
    assert(l2p == c_lin_exp(pk, rn, sn, w2, z2));
    let rr1 = fadd(l2p, qq);
    lemma_fcong_add(l2p, qq, y1i + (twi + u0i), qi);
    let pp1 = fadd(cp, c1);
    lemma_fcong_add(cp, c1, cpi, c1i);
    let pp2 = fadd(pp1, c2);
    lemma_fcong_add(pp1, c2, cpi + c1i, c2i);
    let pp3 = fadd(pp2, c3);
    lemma_fcong_add(pp2, c3, cpi + c1i + c2i, c3i);
    assert(pp3 == proj_exp(uk, cache, a_ls, b_ls));
    let rhs = fadd(rr1, pp3);
    let rhsi = y1i + (twi + u0i) + qi + (cpi + c1i + c2i + c3i);
    lemma_fcong_add(rr1, pp3, y1i + (twi + u0i) + qi, cpi + c1i + c2i + c3i);
    assert(lhsi == rhsi) by (nonlinear_arith)
        requires
            lhsi == ccc + (u0i + corri) + cpi + c1i + c2i + c3i,
            ccc == x1i + twi + qi,
            x1i == ai * si + bi * ri - di * (ri * si),
            corri == a2i * sni - ai * si + b2i * rni - bi * ri - di * (rni * sni - ri * si),
            rhsi == y1i + (twi + u0i) + qi + (cpi + c1i + c2i + c3i),
            y1i == a2i * sni + b2i * rni - di * (rni * sni),
    ;
    crate::field::lemma_field_ops_canonical(l4, c3);
    crate::field::lemma_field_ops_canonical(rr1, pp3);
    lemma_fcong_eq(l5, rhs, lhsi);
}

/// The exponents of `A'` and `B'` of the update `upd` of the cached proof
/// with the new randomness `rn`, `sn`: `A' = A + (rn - r) delta + sum u`,
/// `B' = B + (sn - s) delta + sum v` (in G2).
pub open spec fn updated_ab_exps(uk: UpdatingKey, cache: Cache, upd: Seq<(usize, Scalar)>, rn: nat, sn: nat, p: Proof) -> bool {
    &&& g1_exp(p.a_g1) == fadd(
        fadd(g1_exp(cache.a_g1), fmul(g1_exp(uk.pk.delta_g1), fsub(rn, cache.r@))),
        exp_sparse(upd, g1_exps(uk.pk.u_g1@)),
    )
    &&& g2_exp(p.b_g2) == fadd(
        fadd(g2_exp(cache.b_g2), fmul(g2_exp(uk.pk.vk.delta_g2), fsub(sn, cache.s@))),
        exp_sparse(upd, g2_exps(uk.pk.v_g2@)),
    )
}

/// The update of a cached proof with the new randomness `rn`, `sn` is
/// `update_formula` for the merged changes in the Lagrange bases.
pub open spec fn update_result_with_rs(
    uk: UpdatingKey,
    cache: Cache,
    instance_update: Seq<(usize, Scalar)>,
    witness_update: Seq<(usize, Scalar)>,
    rn: nat,
    sn: nat,
    proof: Proof,
) -> bool {
    let upd = instance_update + witness_update;
    exists|a_ls: Seq<(usize, Scalar)>, b_ls: Seq<(usize, Scalar)>|
        merged_by_index(a_ls, column_terms(uk.a_matrix_cols@, upd)) && merged_by_index(
            b_ls,
            column_terms(uk.b_matrix_cols@, upd),
        ) && proof == #[trigger] update_formula(uk, cache, instance_update, witness_update, a_ls, b_ls, rn, sn)
}

impl Groth16 {
    /// Updates the proof with new instance and witness values, drawing the
    /// new randomness from `ark_std::test_rng()` (see
    /// `update_dynark_with_rs`).
    pub fn update_dynark(
        uk: &UpdatingKey,
        matrices: &ConstraintMatrices,
        instance_update: &[(usize, Scalar)],
        witness_update: &[(usize, Scalar)],
        cache: &Cache,
    ) -> (r: Result<Proof, SynthesisError>)
        requires
            update_ok(*uk, *cache, instance_update@, witness_update@),
        ensures
            r matches Ok(p) && update_result(*uk, *cache, instance_update@, witness_update@, p),
    {
        let r_new = fr_rand_test_rng();
        let s_new = fr_rand_test_rng();
        let r = Self::update_dynark_with_rs(uk, matrices, instance_update, witness_update, cache, r_new, s_new);
        proof {
            if let Ok(p) = r {
                let upd = instance_update@ + witness_update@;
                let (a_ls, b_ls) = choose|a_ls: Seq<(usize, Scalar)>, b_ls: Seq<(usize, Scalar)>|
                    merged_by_index(a_ls, column_terms(uk.a_matrix_cols@, upd)) && merged_by_index(
                        b_ls,
                        column_terms(uk.b_matrix_cols@, upd),
                    ) && p == #[trigger] update_formula(*uk, *cache, instance_update@, witness_update@, a_ls, b_ls, r_new@, s_new@);
                assert(p == update_formula(*uk, *cache, instance_update@, witness_update@, a_ls, b_ls, r_new@, s_new@));
            }
        }
        r
    }

    /// Update with the new randomness `r_new`, `s_new`:
    /// compute a_acc' = a_acc + (r'-r) * delta_g1 + \sum update[i] * u[i]
    /// compute b_acc' = b_acc + (s'-s) * delta_g2 + \sum update[i] * v[i]
    /// compute c_acc' = c_acc + s' * a_acc' - s * a_acc + r' * b_acc' - r *
    /// b_acc  - (r's' - rs) * delta_g1 + \sum witness_update[i] * t_p_g1[i]
    pub fn update_dynark_with_rs(
        uk: &UpdatingKey,
        matrices: &ConstraintMatrices,
        instance_update: &[(usize, Scalar)],
        witness_update: &[(usize, Scalar)],
        cache: &Cache,
        r_new: Scalar,
        s_new: Scalar,
    ) -> (r: Result<Proof, SynthesisError>)
        requires
            update_ok(*uk, *cache, instance_update@, witness_update@),
        ensures
            r matches Ok(p) && update_result_with_rs(*uk, *cache, instance_update@, witness_update@, r_new@, s_new@, p),
            r matches Ok(p) && updated_ab_exps(*uk, *cache, instance_update@ + witness_update@, r_new@, s_new@, p),
            r matches Ok(p) && exists|a_ls: Seq<(usize, Scalar)>, b_ls: Seq<(usize, Scalar)>|
                merged_by_index(a_ls, column_terms(uk.a_matrix_cols@, instance_update@ + witness_update@))
                    && merged_by_index(b_ls, column_terms(uk.b_matrix_cols@, instance_update@ + witness_update@))
                    && g1_exp(p.c_g1) == #[trigger] updated_c_exp(
                    *uk,
                    *cache,
                    instance_update@,
                    witness_update@,
                    r_new@,
                    s_new@,
                    a_ls,
                    b_ls,
                ),
    {
        let n = cache.domain.size();
        let update = concat_pairs(instance_update, witness_update);
        let delta_g1 = uk.pk.delta_g1;
        let delta_g2 = uk.pk.vk.delta_g2;
        let wsh = shifted(witness_update, cache.num_instance);
        let mut update_c_g1_linear_combination = inner_product_sparse_f_dense_g(wsh.as_slice(), uk.pk.t_p_g1.as_slice());
        let update_a_linear_combine = inner_product_sparse_f_dense_g(update.as_slice(), uk.pk.u_g1.as_slice());
        let a_g1_new = g1_add(
            &g1_add(&cache.a_g1, &g1_mul(&delta_g1, &fr_sub(&r_new, &cache.r))),
            &update_a_linear_combine,
        );
        let update_b_g1_linear_combine = inner_product_sparse_f_dense_g(update.as_slice(), uk.pk.v_g1.as_slice());
        let b_g1_new = g1_add(
            &g1_add(&cache.b_g1, &g1_mul(&delta_g1, &fr_sub(&s_new, &cache.s))),
            &update_b_g1_linear_combine,
        );
        let update_b_g2_linear_combine = sparse_g2(update.as_slice(), &uk.pk.v_g2);
        let b_g2_new = g2_add(
            &g2_add(&cache.b_g2, &g2_mul(&delta_g2, &fr_sub(&s_new, &cache.s))),
            &update_b_g2_linear_combine,
        );
        let corr = g1_sub(
            &g1_sub(
                &g1_add(
                    &g1_sub(&g1_mul(&a_g1_new, &s_new), &g1_mul(&cache.a_g1, &cache.s)),
                    &g1_mul(&b_g1_new, &r_new),
                ),
                &g1_mul(&cache.b_g1, &cache.r),
            ),
            &g1_mul(&delta_g1, &fr_sub(&fr_mul(&r_new, &s_new), &fr_mul(&cache.r, &cache.s))),
        );
        update_c_g1_linear_combination = g1_add(&update_c_g1_linear_combination, &corr);
        let (a_lagrange_sparse, b_lagrange_sparse) = improved_lagrange_sparse_get(
            &uk.a_matrix_cols,
            &uk.b_matrix_cols,
            update.as_slice(),
        ).unwrap();
        proof {
            lemma_merged_in_range(a_lagrange_sparse@, uk.a_matrix_cols@, update@, n as nat);
            lemma_merged_in_range(b_lagrange_sparse@, uk.b_matrix_cols@, update@, n as nat);
        }
        let c_project = g1_add(
            &inner_product_sparse_f_dense_g(a_lagrange_sparse.as_slice(), cache.q_b.as_slice()),
            &inner_product_sparse_f_dense_g(b_lagrange_sparse.as_slice(), cache.q_a.as_slice()),
        );
        let c_cross_1 = cross_side_exec(&a_lagrange_sparse, &b_lagrange_sparse, &uk.lagrange_truncated, &uk.w, n);
        let c_cross_2 = cross_side_exec(&b_lagrange_sparse, &a_lagrange_sparse, &uk.lagrange_truncated, &uk.w, n);
        let results = merge_join(&a_lagrange_sparse, &b_lagrange_sparse);
        proof {
            lemma_join_in_range(a_lagrange_sparse@, b_lagrange_sparse@, n as nat);
            assert(sparse_in_range(results@, uk.p@.len())) by {
                assert forall|k: int| 0 <= k < results@.len() implies (#[trigger] results@[k]).0 < uk.p@.len() by {
                    assert(pair_models(results@)[k].0 == results@[k].0);
                }
            }
        }
        let c_cross_3 = pairs_eval_exec(&results, &uk.p);
        let c_new = g1_add(
            &g1_add(
                &g1_add(&g1_add(&g1_add(&cache.c_g1, &update_c_g1_linear_combination), &c_project), &c_cross_1),
                &c_cross_2,
            ),
            &c_cross_3,
        );
        let proof = Proof { a_g1: a_g1_new, b_g2: b_g2_new, c_g1: c_new };
        proof {
            assert(proof == update_formula(
                *uk,
                *cache,
                instance_update@,
                witness_update@,
                a_lagrange_sparse@,
                b_lagrange_sparse@,
                r_new@,
                s_new@,
            ));
            assert(g1_exp(proof.c_g1) == updated_c_exp(
                *uk,
                *cache,
                instance_update@,
                witness_update@,
                r_new@,
                s_new@,
                a_lagrange_sparse@,
                b_lagrange_sparse@,
            ));
        }
        Ok(proof)
    }
}

/// The merge of two lists with indices below `n` has indices below `n`.
pub(crate) proof fn lemma_join_in_range(a: Seq<(usize, Scalar)>, b: Seq<(usize, Scalar)>, n: nat)
    requires
        sparse_in_range(a, n),
        sparse_in_range(b, n),
    ensures
        pairs_in_range(join_spec(a, b), n),
    decreases a.len() + b.len(),
{
    if a.len() > 0 && b.len() > 0 {
        assert(sparse_in_range(a.drop_first(), n)) by {
            assert forall|k: int| 0 <= k < a.drop_first().len() implies (#[trigger] a.drop_first()[k]).0 < n by {
                assert(a.drop_first()[k] == a[k + 1]);
            }
        }
        assert(sparse_in_range(b.drop_first(), n)) by {
            assert forall|k: int| 0 <= k < b.drop_first().len() implies (#[trigger] b.drop_first()[k]).0 < n by {
                assert(b.drop_first()[k] == b[k + 1]);
            }
        }
        if a[0].0 < b[0].0 {
            lemma_join_in_range(a.drop_first(), b, n);
        } else if a[0].0 > b[0].0 {
            lemma_join_in_range(a, b.drop_first(), n);
        } else {
            lemma_join_in_range(a.drop_first(), b.drop_first(), n);
            let rest = join_spec(a.drop_first(), b.drop_first());
            let head = seq![(a[0].0, fmul(a[0].1@, b[0].1@))];
            assert forall|k: int| 0 <= k < (head + rest).len() implies (#[trigger] (head + rest)[k]).0 < n by {
                if k > 0 {
                    assert((head + rest)[k] == rest[k - 1]);
                }
            }
        }
    }
}

/// The list `a ++ b`.
pub(crate) fn concat_pairs(a: &[(usize, Scalar)], b: &[(usize, Scalar)]) -> (r: Vec<(usize, Scalar)>)
    requires
        a@.len() + b@.len() <= usize::MAX,
    ensures
        r@ == a@ + b@,
{
    let mut r: Vec<(usize, Scalar)> = Vec::with_capacity(a.len() + b.len());
    let mut i: usize = 0;
    while i < a.len()
        invariant
            i <= a@.len(),
            r@ == a@.take(i as int),
        decreases a@.len() - i,
    {
        r.push(a[i]);
        i = i + 1;
        proof {
            assert(r@ =~= a@.take(i as int));
        }
    }
    let mut j: usize = 0;
    while j < b.len()
        invariant
            j <= b@.len(),
            i == a@.len(),
            r@ == a@ + b@.take(j as int),
        decreases b@.len() - j,
    {
        r.push(b[j]);
        j = j + 1;
        proof {
            assert(r@ =~= a@ + b@.take(j as int));
        }
    }
    proof {
        assert(a@.take(a@.len() as int) =~= a@);
        assert(b@.take(b@.len() as int) =~= b@);
    }
    r
}

} // verus!
