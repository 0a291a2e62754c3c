//! Sparse–dense products and the change of a sparse assignment update into
//! the Lagrange basis of the constraint domain.
use vstd::prelude::*;
use vstd::arithmetic::power2::pow2;
use crate::field::{fadd, fmul, modulus, Scalar, fr_add, fr_mul};
use crate::group::{G1Point, g1_add_of, g1_identity, g1_mul_of, g1_add, g1_mul, g1_zero, models, g1_exp, g1_exps, exp_sparse};
use crate::relations::{ConstraintMatrices, Matrix, SynthesisError};
use crate::sorting::{sort_by_index, sorted_by_index, with_key};

verus! {

/// `sum_k z[idx_k] * coef_k` over the terms `(coef_k, idx_k)` of a row.
pub open spec fn row_eval(terms: Seq<(Scalar, usize)>, z: Seq<Scalar>) -> nat
    decreases terms.len(),
{
    if terms.len() == 0 {
        0
    } else {
        fadd(row_eval(terms.drop_last(), z), fmul(z[terms.last().1 as int]@, terms.last().0@))
    }
}

/// Every variable index of the row is below `n`.
pub open spec fn row_in_range(terms: Seq<(Scalar, usize)>, n: nat) -> bool {
    forall|k: int| 0 <= k < terms.len() ==> (#[trigger] terms[k]).1 < n
}

/// `sum_k dense[idx_k] * coef_k` in G1 over the entries `(idx_k, coef_k)`,
/// added left to right from the identity.
pub open spec fn sparse_g1_eval(sv: Seq<(usize, Scalar)>, dense: Seq<G1Point>) -> G1Point
    decreases sv.len(),
{
    if sv.len() == 0 {
        g1_identity()
    } else {
        g1_add_of(sparse_g1_eval(sv.drop_last(), dense), g1_mul_of(dense[sv.last().0 as int], sv.last().1@))
    }
}

/// Every index of the sparse vector is below `n`.
pub open spec fn sparse_in_range(sv: Seq<(usize, Scalar)>, n: nat) -> bool {
    forall|k: int| 0 <= k < sv.len() ==> (#[trigger] sv[k]).0 < n
}

/// The sparse vector with its values as field values.
pub open spec fn pair_models(s: Seq<(usize, Scalar)>) -> Seq<(usize, nat)> {
    Seq::new(s.len(), |k: int| (s[k].0, s[k].1@))
}

/// The indices of a list of entries.
pub open spec fn keys(terms: Seq<(usize, nat)>) -> Seq<usize> {
    Seq::new(terms.len(), |k: int| terms[k].0)
}

/// The sum of the values of the entries with index `k`.
pub open spec fn key_total(terms: Seq<(usize, nat)>, k: usize) -> nat
    decreases terms.len(),
{
    if terms.len() == 0 {
        0
    } else if terms.last().0 == k {
        fadd(key_total(terms.drop_last(), k), terms.last().1)
    } else {
        key_total(terms.drop_last(), k)
    }
}

/// `out` lists each index of `terms` once, in ascending order, with the sum
/// of its values.
pub open spec fn merged_by_index(out: Seq<(usize, Scalar)>, terms: Seq<(usize, nat)>) -> bool {
    &&& forall|i: int, j: int| 0 <= i < j < out.len() ==> out[i].0 < out[j].0
    &&& forall|k: usize| #[trigger] keys(terms).contains(k) <==> keys(pair_models(out)).contains(k)
    &&& forall|m: int| 0 <= m < out.len() ==> (#[trigger] out[m]).1@ == key_total(terms, out[m].0)
}

/// The entries `(i, coef * vl)` of a column scaled by `vl`.
pub open spec fn scaled_column(col: Seq<(usize, Scalar)>, vl: nat) -> Seq<(usize, nat)> {
    Seq::new(col.len(), |k: int| (col[k].0, fmul(col[k].1@, vl)))
}

/// The entries of `sum_j vl_j * cols[j]` before merging, for the sparse
/// vector of `(j, vl_j)`.
pub open spec fn column_terms(cols: Seq<Vec<(usize, Scalar)>>, sv: Seq<(usize, Scalar)>) -> Seq<(usize, nat)>
    decreases sv.len(),
{
    if sv.len() == 0 {
        Seq::empty()
    } else {
        column_terms(cols, sv.drop_last()) + scaled_column(cols[sv.last().0 as int]@, sv.last().1@)
    }
}

/// Inner product of a sparse row `(coefficient, index)` with a dense
/// assignment.
pub fn inner_product_sparse_f_dense_f(terms: &[(Scalar, usize)], assignment: &[Scalar]) -> (r: Scalar)
    requires
        row_in_range(terms@, assignment@.len()),
    ensures
        r@ == row_eval(terms@, assignment@),
{
    serial_inner_product_sparse_f_dense_f(terms, assignment)
}

fn serial_inner_product_sparse_f_dense_f(terms: &[(Scalar, usize)], assignment: &[Scalar]) -> (r: Scalar)
    requires
        row_in_range(terms@, assignment@.len()),
    ensures
        r@ == row_eval(terms@, assignment@),
{
    let mut sum = Scalar::zero();
    let mut k: usize = 0;
    while k < terms.len()
        invariant
            k <= terms@.len(),
            row_in_range(terms@, assignment@.len()),
            sum@ == row_eval(terms@.take(k as int), assignment@),
        decreases terms.len() - k,
    {
        let (coeff, index) = terms[k];
        let val = assignment[index];
        let t = if coeff.is_one() {
            proof {
                use_type_invariant(&val);
                Scalar::lemma_canonical(val);
                vstd::arithmetic::div_mod::lemma_small_mod(val@, modulus());
                assert(fmul(val@, coeff@) == val@);
            }
            val
        } else {
            fr_mul(&val, &coeff)
        };
        sum = fr_add(&sum, &t);
        proof {
            assert(terms@.take(k + 1).drop_last() =~= terms@.take(k as int));
        }
        k = k + 1;
    }
    proof {
        assert(terms@.take(terms@.len() as int) =~= terms@);
    }
    sum
}

/// Inner product of a sparse vector `(index, coefficient)` with dense G1
/// elements.
pub fn inner_product_sparse_f_dense_g(sparse_vec: &[(usize, Scalar)], dense_vec: &[G1Point]) -> (r: G1Point)
    requires
        sparse_in_range(sparse_vec@, dense_vec@.len()),
    ensures
        r == sparse_g1_eval(sparse_vec@, dense_vec@),
        g1_exp(r) == exp_sparse(sparse_vec@, g1_exps(dense_vec@)),
{
    serial_inner_product_sparse_f_dense_g(sparse_vec, dense_vec)
}

/// Inner product of a sparse vector with dense G1 elements, in order.
pub fn serial_inner_product_sparse_f_dense_g(sparse_vec: &[(usize, Scalar)], dense_vec: &[G1Point]) -> (r: G1Point)
    requires
        sparse_in_range(sparse_vec@, dense_vec@.len()),
    ensures
        r == sparse_g1_eval(sparse_vec@, dense_vec@),
        g1_exp(r) == exp_sparse(sparse_vec@, g1_exps(dense_vec@)),
{
    let mut sum = g1_zero();
    let mut k: usize = 0;
    while k < sparse_vec.len()
        invariant
            k <= sparse_vec@.len(),
            sparse_in_range(sparse_vec@, dense_vec@.len()),
            sum == sparse_g1_eval(sparse_vec@.take(k as int), dense_vec@),
            g1_exp(sum) == exp_sparse(sparse_vec@.take(k as int), g1_exps(dense_vec@)),
        decreases sparse_vec.len() - k,
    {
        let (idx, coeff) = sparse_vec[k];
        let t = g1_mul(&dense_vec[idx], &coeff);
        sum = g1_add(&sum, &t);
        proof {
            assert(sparse_vec@.take(k + 1).drop_last() =~= sparse_vec@.take(k as int));
        }
        k = k + 1;
    }
    proof {
        assert(sparse_vec@.take(sparse_vec@.len() as int) =~= sparse_vec@);
    }
    sum
}

/// The field sum of a list of scalars, left to right.
pub open spec fn ssum(v: Seq<Scalar>) -> nat
    decreases v.len(),
{
    if v.len() == 0 {
        0
    } else {
        fadd(ssum(v.drop_last()), v.last()@)
    }
}

proof fn lemma_keys_step(terms: Seq<(usize, nat)>, k: usize)
    requires
        terms.len() > 0,
    ensures
        keys(terms).contains(k) <==> (keys(terms.drop_last()).contains(k) || terms.last().0 == k),
{
    assert(keys(terms.drop_last()) =~= keys(terms).drop_last());
    if keys(terms).contains(k) && terms.last().0 != k {
        let p = choose|p: int| 0 <= p < keys(terms).len() && keys(terms)[p] == k;
        assert(p != terms.len() - 1);
        assert(keys(terms.drop_last())[p] == k);
    }
    if terms.last().0 == k {
        assert(keys(terms)[terms.len() - 1] == k);
    }
    if keys(terms.drop_last()).contains(k) {
        let p = choose|p: int| 0 <= p < keys(terms.drop_last()).len() && keys(terms.drop_last())[p] == k;
        assert(keys(terms)[p] == k);
    }
}

/// An index that does not occur sums to zero.
proof fn lemma_key_total_absent(terms: Seq<(usize, nat)>, k: usize)
    requires
        !keys(terms).contains(k),
    ensures
        key_total(terms, k) == 0,
    decreases terms.len(),
{
    if terms.len() > 0 {
        lemma_keys_step(terms, k);
        lemma_key_total_absent(terms.drop_last(), k);
    }
}

/// The total and the presence of an index depend only on the entries of
/// that index, in order.
pub(crate) proof fn lemma_key_total_by_with_key(s: Seq<(usize, Scalar)>, k: usize)
    ensures
        key_total(pair_models(s), k) == ssum(with_key(s, k)),
        keys(pair_models(s)).contains(k) <==> with_key(s, k).len() > 0,
    decreases s.len(),
{
    if s.len() > 0 {
        lemma_key_total_by_with_key(s.drop_last(), k);
        assert(pair_models(s).drop_last() =~= pair_models(s.drop_last()));
        lemma_keys_step(pair_models(s), k);
        if s.last().0 == k {
            assert(with_key(s, k).drop_last() =~= with_key(s.drop_last(), k));
        }
    }
}

/// Merges a list sorted by index into one entry per index, summing values.
pub fn merge_sorted_by_index(s: &Vec<(usize, Scalar)>) -> (out: Vec<(usize, Scalar)>)
    requires
        sorted_by_index(s@),
    ensures
        merged_by_index(out@, pair_models(s@)),
{
    let mut out: Vec<(usize, Scalar)> = Vec::new();
    let mut t: usize = 0;
    proof {
        assert(keys(pair_models(s@.take(0))) =~= Seq::<usize>::empty());
        assert(keys(pair_models(out@)) =~= Seq::<usize>::empty());
    }
    while t < s.len()
        invariant
            t <= s@.len(),
            sorted_by_index(s@),
            merged_by_index(out@, pair_models(s@.take(t as int))),
            t > 0 ==> out@.len() > 0 && out@.last().0 == s@[t - 1].0,
            t == 0 ==> out@.len() == 0,
        decreases s.len() - t,
    {
        let ghost prev_out = out@;
        let ghost pp = pair_models(s@.take(t as int));
        let ghost pn = pair_models(s@.take(t + 1));
        let (i, vl) = s[t];
        proof {
            assert(pn.drop_last() =~= pp);
            assert(pn.last() == (i, vl@));
            use_type_invariant(&vl);
            Scalar::lemma_canonical(vl);
            assert forall|k: usize| #[trigger] keys(pn).contains(k) <==> (keys(pp).contains(k) || k == i) by {
                lemma_keys_step(pn, k);
            }
        }
        let n = out.len();
        if n > 0 && out[n - 1].0 == i {
            let (li, lv) = out[n - 1];
            let nv = fr_add(&lv, &vl);
            out.set(n - 1, (li, nv));
            proof {
                assert(keys(pair_models(out@)) =~= keys(pair_models(prev_out)));
                assert(keys(pair_models(prev_out))[n - 1] == i);
                assert forall|k: usize| #[trigger] keys(pn).contains(k) <==> keys(pair_models(out@)).contains(k) by {
                    assert(keys(pp).contains(k) <==> keys(pair_models(prev_out)).contains(k));
                }
                assert forall|m: int| 0 <= m < out@.len() implies (#[trigger] out@[m]).1@ == key_total(
                    pn,
                    out@[m].0,
                ) by {
                    if m < n - 1 {
                        assert(prev_out[m].0 < prev_out[n - 1].0);
                    }
                }
            }
        } else {
            proof {
                assert forall|m: int| 0 <= m < n implies #[trigger] prev_out[m].0 < i by {
                    if m < n - 1 {
                        assert(prev_out[m].0 < prev_out[n - 1].0);
                    }
                    assert(s@[t - 1].0 <= s@[t as int].0);
                }
                if keys(pp).contains(i) {
                    assert(keys(pair_models(prev_out)).contains(i));
                    let m = choose|m: int| 0 <= m < keys(pair_models(prev_out)).len() && keys(pair_models(prev_out))[m] == i;
                    assert(prev_out[m].0 < i);
                }
                lemma_key_total_absent(pp, i);
                vstd::arithmetic::div_mod::lemma_small_mod(vl@, modulus());
            }
            out.push((i, vl));
            proof {
                assert(keys(pair_models(out@)) =~= keys(pair_models(prev_out)).push(i));
                assert forall|k: usize| #[trigger] keys(pn).contains(k) <==> keys(pair_models(out@)).contains(k) by {
                    if k == i {
                        assert(keys(pair_models(out@))[n as int] == i);
                    }
                    if keys(pair_models(out@)).contains(k) && k != i {
                        let m = choose|m: int| 0 <= m < keys(pair_models(out@)).len() && keys(pair_models(out@))[m] == k;
                        assert(keys(pair_models(prev_out))[m] == k);
                    }
                    if keys(pair_models(prev_out)).contains(k) {
                        let m = choose|m: int| 0 <= m < keys(pair_models(prev_out)).len() && keys(pair_models(prev_out))[m] == k;
                        assert(keys(pair_models(out@))[m] == k);
                    }
                }
            }
        }
        proof {
            assert(merged_by_index(out@, pn));
        }
        t = t + 1;
    }
    proof {
        assert(s@.take(s@.len() as int) =~= s@);
    }
    out
}

/// The entries `(i, coef * vl)` of each column `cols[j]` for each entry
/// `(j, vl)` of the sparse vector, in order.
fn scale_columns(cols: &Vec<Vec<(usize, Scalar)>>, sv: &[(usize, Scalar)]) -> (r: Vec<(usize, Scalar)>)
    requires
        sparse_in_range(sv@, cols@.len()),
    ensures
        pair_models(r@) == column_terms(cols@, sv@),
{
    let mut r: Vec<(usize, Scalar)> = Vec::new();
    let mut j: usize = 0;
    while j < sv.len()
        invariant
            j <= sv@.len(),
            sparse_in_range(sv@, cols@.len()),
            pair_models(r@) == column_terms(cols@, sv@.take(j as int)),
        decreases sv.len() - j,
    {
        let (c, vl) = sv[j];
        let col = &cols[c];
        let ghost base = r@;
        let mut k: usize = 0;
        while k < col.len()
            invariant
                k <= col@.len(),
                c < cols@.len(),
                col@ == cols@[c as int]@,
                r@.len() == base.len() + k,
                forall|m: int| 0 <= m < base.len() ==> r@[m] == base[m],
                pair_models(r@) == pair_models(base) + scaled_column(col@, vl@).take(k as int),
            decreases col.len() - k,
        {
            let ghost old_r = r@;
            let (i, coef) = col[k];
            let p = fr_mul(&coef, &vl);
            r.push((i, p));
            proof {
                assert forall|m: int| 0 <= m < r@.len() implies #[trigger] pair_models(r@)[m] == (pair_models(base)
                    + scaled_column(col@, vl@).take(k + 1))[m] by {
                    if m < r@.len() - 1 {
                        assert(pair_models(r@)[m] == pair_models(old_r)[m]);
                    }
                }
                assert(pair_models(r@) =~= pair_models(base) + scaled_column(col@, vl@).take(k + 1));
            }
            k = k + 1;
        }
        proof {
            assert(sv@.take(j + 1).drop_last() =~= sv@.take(j as int));
            assert(scaled_column(col@, vl@).take(col@.len() as int) =~= scaled_column(col@, vl@));
            assert(pair_models(r@) =~= column_terms(cols@, sv@.take(j + 1)));
        }
        j = j + 1;
    }
    proof {
        assert(sv@.take(sv@.len() as int) =~= sv@);
    }
    r
}

/// Both sides of a stable sort have the same totals and the same indices.
pub(crate) proof fn lemma_sort_keeps_totals(before: Seq<(usize, Scalar)>, after: Seq<(usize, Scalar)>)
    requires
        forall|k: usize| #[trigger] with_key(after, k) == with_key(before, k),
    ensures
        forall|k: usize| #[trigger] key_total(pair_models(after), k) == key_total(pair_models(before), k),
        forall|k: usize| #[trigger] keys(pair_models(after)).contains(k) <==> keys(pair_models(before)).contains(k),
{
    assert forall|k: usize| #[trigger] key_total(pair_models(after), k) == key_total(pair_models(before), k) by {
        lemma_key_total_by_with_key(after, k);
        lemma_key_total_by_with_key(before, k);
    }
    assert forall|k: usize| #[trigger] keys(pair_models(after)).contains(k) <==> keys(pair_models(before)).contains(k) by {
        lemma_key_total_by_with_key(after, k);
        lemma_key_total_by_with_key(before, k);
    }
}

/// The change `sum_j vl_j * col_j` in the Lagrange basis of A and of B for a
/// sparse change `(j, vl_j)` of the assignment, given the columns of A and
/// B: one entry per row index, in ascending order.
pub fn improved_lagrange_sparse_get(
    a_cols: &Vec<Vec<(usize, Scalar)>>,
    b_cols: &Vec<Vec<(usize, Scalar)>>,
    sparse_vec: &[(usize, Scalar)],
) -> (r: Result<(Vec<(usize, Scalar)>, Vec<(usize, Scalar)>), SynthesisError>)
    requires
        sparse_in_range(sparse_vec@, a_cols@.len()),
        sparse_in_range(sparse_vec@, b_cols@.len()),
    ensures
        r matches Ok((a, b)) && merged_by_index(a@, column_terms(a_cols@, sparse_vec@))
            && merged_by_index(b@, column_terms(b_cols@, sparse_vec@)),
{
    let mut a_pairs = scale_columns(a_cols, sparse_vec);
    let mut b_pairs = scale_columns(b_cols, sparse_vec);
    let ghost a0 = a_pairs@;
    let ghost b0 = b_pairs@;
    sort_by_index(&mut a_pairs);
    sort_by_index(&mut b_pairs);
    let a_lagrange_sparse = merge_sorted_by_index(&a_pairs);
    let b_lagrange_sparse = merge_sorted_by_index(&b_pairs);
    proof {
        lemma_sort_keeps_totals(a0, a_pairs@);
        lemma_sort_keeps_totals(b0, b_pairs@);
        let ta = column_terms(a_cols@, sparse_vec@);
        let tb = column_terms(b_cols@, sparse_vec@);
        assert forall|k: usize| #[trigger] keys(ta).contains(k) <==> keys(pair_models(a_lagrange_sparse@)).contains(k) by {
            assert(keys(pair_models(a_pairs@)).contains(k) <==> keys(pair_models(a_lagrange_sparse@)).contains(k));
        }
        assert forall|k: usize| #[trigger] keys(tb).contains(k) <==> keys(pair_models(b_lagrange_sparse@)).contains(k) by {
            assert(keys(pair_models(b_pairs@)).contains(k) <==> keys(pair_models(b_lagrange_sparse@)).contains(k));
        }
        assert forall|m: int| 0 <= m < a_lagrange_sparse@.len() implies (#[trigger] a_lagrange_sparse@[m]).1@ == key_total(ta, a_lagrange_sparse@[m].0) by {
            assert(a_lagrange_sparse@[m].1@ == key_total(pair_models(a_pairs@), a_lagrange_sparse@[m].0));
        }
        assert forall|m: int| 0 <= m < b_lagrange_sparse@.len() implies (#[trigger] b_lagrange_sparse@[m]).1@ == key_total(tb, b_lagrange_sparse@[m].0) by {
            assert(b_lagrange_sparse@[m].1@ == key_total(pair_models(b_pairs@), b_lagrange_sparse@[m].0));
        }
    }
    Ok((a_lagrange_sparse, b_lagrange_sparse))
}

/// The rows of `A`, `B`, `C` evaluated on `dense_vec`, in the Lagrange
/// basis of the constraint subgroup.
pub fn lagrange_of_dense_vec(matrices: &ConstraintMatrices, dense_vec: &[Scalar]) -> (r: Result<
    (Vec<Scalar>, Vec<Scalar>, Vec<Scalar>),
    SynthesisError,
>)
    requires
        crate::r1cs_to_qap::matrices_in_range(*matrices, dense_vec@.len()),
        matrices.num_constraints <= usize::MAX / 2 + 1,
    ensures
        r matches Ok(t) && exists|n: nat|
            crate::domain::is_next_pow2(n, matrices.num_constraints as nat) && models(t.0@)
                == crate::r1cs_to_qap::row_evals(matrices.a@, dense_vec@, matrices.num_constraints as nat, n)
                && models(t.1@) == crate::r1cs_to_qap::row_evals(
                matrices.b@,
                dense_vec@,
                matrices.num_constraints as nat,
                n,
            ) && models(t.2@) == crate::r1cs_to_qap::row_evals(
                matrices.c@,
                dense_vec@,
                matrices.num_constraints as nat,
                n,
            ),
{
    let num_constraints = matrices.num_constraints;
    let domain_size = crate::domain::next_power_of_two(num_constraints);
    let a_lagrg = crate::r1cs_to_qap::eval_rows(&matrices.a, dense_vec, num_constraints, domain_size);
    let b_lagrg = crate::r1cs_to_qap::eval_rows(&matrices.b, dense_vec, num_constraints, domain_size);
    let c_lagrg = crate::r1cs_to_qap::eval_rows(&matrices.c, dense_vec, num_constraints, domain_size);
    Ok((a_lagrg, b_lagrg, c_lagrg))
}

} // verus!
