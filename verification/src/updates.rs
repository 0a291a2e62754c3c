//! How a sparse change of an assignment moves the row evaluations of the
//! constraint matrices: the change of row `i` is the sum, over the changed
//! variables, of the change times the coefficient of the variable in row `i`,
//! which is what the columns of the updating key give.
use vstd::prelude::*;
use crate::dynark_generator::{col_entries, row_col_entries};
use crate::dynark_prover::apply_updates;
use crate::field::{
    fadd, fmul, fsub, modulus, Scalar, fcong, lemma_fcong_add, lemma_fcong_eq, lemma_fcong_mul, lemma_fcong_refl,
    lemma_fcong_sub, lemma_field_ops_canonical, lemma_icong_add, lemma_icong_mul, lemma_icong_sym, lemma_icong_trans,
};
use crate::group::models;
use crate::utils::{column_terms, key_total, keys, merged_by_index, pair_models, row_eval, row_in_range, scaled_column, sparse_in_range};
use crate::dynamic_cache::record_added;

verus! {

/// `sum_t z[var_t] * coef_t` over a row, in the field.
pub open spec fn row_eval_n(row: Seq<(Scalar, usize)>, z: Seq<nat>) -> nat
    decreases row.len(),
{
    if row.len() == 0 {
        0
    } else {
        fadd(row_eval_n(row.drop_last(), z), fmul(z[row.last().1 as int], row.last().0@))
    }
}

/// The coefficient of variable `v` in a row: the sum of the coefficients of
/// its terms with index `v`.
pub open spec fn row_coef(row: Seq<(Scalar, usize)>, v: usize) -> nat
    decreases row.len(),
{
    if row.len() == 0 {
        0
    } else {
        fadd(row_coef(row.drop_last(), v), if row.last().1 == v { row.last().0@ } else { 0 })
    }
}

/// The sum of the values of the entries of row `i` in a column.
pub open spec fn col_sum(col: Seq<(usize, Scalar)>, i: usize) -> nat
    decreases col.len(),
{
    if col.len() == 0 {
        0
    } else {
        fadd(col_sum(col.drop_last(), i), if col.last().0 == i { col.last().1@ } else { 0 })
    }
}

/// A row evaluates alike on an assignment and on its models.
pub proof fn lemma_row_eval_models(row: Seq<(Scalar, usize)>, z: Seq<Scalar>)
    requires
        row_in_range(row, z.len()),
    ensures
        row_eval(row, z) == row_eval_n(row, models(z)),
    decreases row.len(),
{
    if row.len() > 0 {
        assert(row_in_range(row.drop_last(), z.len()));
        lemma_row_eval_models(row.drop_last(), z);
        assert(row.last() == row[row.len() - 1]);
    }
}

/// Adding `c` to variable `v` adds `c` times the coefficient of `v` to the
/// evaluation of a row.
proof fn lemma_row_change(row: Seq<(Scalar, usize)>, zz: Seq<nat>, v: usize, c: nat)
    requires
        v < zz.len(),
        row_in_range(row, zz.len()),
    ensures
        fcong(
            row_eval_n(row, zz.update(v as int, fadd(zz[v as int], c))) as int,
            row_eval_n(row, zz) as int + (c as int) * (row_coef(row, v) as int),
        ),
    decreases row.len(),
{
    let z2 = zz.update(v as int, fadd(zz[v as int], c));
    let ci = c as int;
    if row.len() == 0 {
        lemma_fcong_refl(0);
        assert(0 + ci * 0 == 0) by (nonlinear_arith);
    } else {
        let r0 = row.drop_last();
        assert(row_in_range(r0, zz.len()));
        lemma_row_change(r0, zz, v, c);
        let (coef, var) = row.last();
        assert(row.last() == row[row.len() - 1]);
        let e0 = row_eval_n(r0, zz) as int;
        let e2n = row_eval_n(r0, z2);
        let k0 = row_coef(r0, v) as int;
        let co = coef@ as int;
        let zv = zz[var as int] as int;
        let rr = row_eval_n(row, zz) as int;
        let r2 = row_eval_n(row, z2) as int;
        let kk = row_coef(row, v) as int;
        lemma_fcong_refl(co);
        lemma_fcong_refl(ci);
        lemma_fcong_refl(zv);
        lemma_fcong_refl(e0);
        lemma_fcong_refl(k0);
        // the old row
        lemma_fcong_mul(zz[var as int], coef@, zv, co);
        lemma_fcong_add(row_eval_n(r0, zz), fmul(zz[var as int], coef@), e0, zv * co);
        if var == v {
            lemma_fcong_add(zz[v as int], c, zv, ci);
            lemma_fcong_mul(z2[v as int], coef@, zv + ci, co);
            lemma_fcong_add(e2n, fmul(z2[v as int], coef@), e0 + ci * k0, (zv + ci) * co);
            lemma_fcong_add(row_coef(r0, v), coef@, k0, co);
            lemma_icong_mul(ci, kk, k0 + co);
            lemma_icong_add(rr, e0 + zv * co, ci * kk, ci * (k0 + co));
            assert((e0 + ci * k0) + (zv + ci) * co == (e0 + zv * co) + ci * (k0 + co)) by (nonlinear_arith);
        } else {
            assert(z2[var as int] == zz[var as int]);
            lemma_fcong_add(e2n, fmul(zz[var as int], coef@), e0 + ci * k0, zv * co);
            lemma_fcong_refl(0);
            lemma_fcong_add(row_coef(r0, v), 0, k0, 0);
            lemma_icong_mul(ci, kk, k0 + 0);
            lemma_icong_add(rr, e0 + zv * co, ci * kk, ci * (k0 + 0));
            assert((e0 + ci * k0) + zv * co == (e0 + zv * co) + ci * (k0 + 0)) by (nonlinear_arith);
        }
        lemma_icong_sym(rr + ci * kk, e0 + zv * co + ci * (k0 + if var == v { co } else { 0 }));
        lemma_icong_trans(r2, e0 + zv * co + ci * (k0 + if var == v { co } else { 0 }), rr + ci * kk);
    }
}

/// Changes keep the length of the assignment.
pub proof fn lemma_apply_len(z: Seq<nat>, upd: Seq<(usize, Scalar)>)
    requires
        forall|t: int| 0 <= t < upd.len() ==> (#[trigger] upd[t]).0 < z.len(),
    ensures
        apply_updates(z, upd).len() == z.len(),
    decreases upd.len(),
{
    if upd.len() > 0 {
        let u0 = upd.drop_last();
        assert forall|t: int| 0 <= t < u0.len() implies (#[trigger] u0[t]).0 < z.len() by {
            assert(u0[t] == upd[t]);
        }
        lemma_apply_len(z, u0);
        assert(upd.last() == upd[upd.len() - 1]);
    }
}

proof fn lemma_col_sum_canonical(col: Seq<(usize, Scalar)>, i: usize)
    ensures
        col_sum(col, i) < modulus(),
{
    if col.len() > 0 {
        lemma_field_ops_canonical(col_sum(col.drop_last(), i), 0);
    }
}

proof fn lemma_col_sum_concat(s1: Seq<(usize, Scalar)>, t: Seq<(usize, Scalar)>, i: usize)
    ensures
        col_sum(s1 + t, i) == fadd(col_sum(s1, i), col_sum(t, i)),
    decreases t.len(),
{
    lemma_col_sum_canonical(s1, i);
    if t.len() == 0 {
        assert(s1 + t =~= s1);
        vstd::arithmetic::div_mod::lemma_small_mod(col_sum(s1, i), modulus());
    } else {
        lemma_col_sum_concat(s1, t.drop_last(), i);
        assert((s1 + t).drop_last() =~= s1 + t.drop_last());
        assert((s1 + t).last() == t.last());
        crate::field::lemma_fadd_assoc3(
            col_sum(s1, i),
            col_sum(t.drop_last(), i),
            if t.last().0 == i { t.last().1@ } else { 0 },
        );
    }
}

proof fn lemma_row_coef_canonical(row: Seq<(Scalar, usize)>, v: usize)
    ensures
        row_coef(row, v) < modulus(),
{
    if row.len() > 0 {
        lemma_field_ops_canonical(row_coef(row.drop_last(), v), 0);
    }
}

proof fn lemma_col_sum_row(row: Seq<(Scalar, usize)>, r: usize, v: usize, i: usize)
    ensures
        col_sum(row_col_entries(row, r, v), i) == if i == r { row_coef(row, v) } else { 0 },
    decreases row.len(),
{
    if row.len() > 0 {
        let r0 = row.drop_last();
        lemma_col_sum_row(r0, r, v, i);
        let p = row_col_entries(r0, r, v);
        lemma_row_coef_canonical(r0, v);
        if row.last().1 == v {
            assert(p.push((r, row.last().0)).drop_last() =~= p);
        } else {
            if i == r {
                vstd::arithmetic::div_mod::lemma_small_mod(row_coef(r0, v), modulus());
            }
        }
        if i != r {
            vstd::arithmetic::div_mod::lemma_small_mod(0, modulus());
        }
    }
}

/// The sum of column `v` of the first `k` rows over the entries of row `i`
/// is the coefficient of variable `v` in row `i` (for `i < k`).
pub proof fn lemma_col_sum_entries(m: Seq<Vec<(Scalar, usize)>>, k: nat, v: usize, i: usize)
    requires
        k <= m.len(),
        m.len() <= usize::MAX,
    ensures
        col_sum(col_entries(m, k, v), i) == if i < k { row_coef(m[i as int]@, v) } else { 0 },
    decreases k,
{
    if k > 0 {
        let k1 = (k - 1) as nat;
        assert((k1 as usize) as nat == k1);
        lemma_col_sum_entries(m, k1, v, i);
        lemma_col_sum_concat(col_entries(m, k1, v), row_col_entries(m[k1 as int]@, k1 as usize, v), i);
        lemma_col_sum_row(m[k1 as int]@, k1 as usize, v, i);
        lemma_row_coef_canonical(m[i as int]@, v);
        if i < k1 {
            vstd::arithmetic::div_mod::lemma_small_mod(row_coef(m[i as int]@, v), modulus());
        } else if i == k1 {
            vstd::arithmetic::div_mod::lemma_small_mod(row_coef(m[i as int]@, v), modulus());
        } else {
            vstd::arithmetic::div_mod::lemma_small_mod(0, modulus());
        }
    }
}

proof fn lemma_key_total_canonical(t: Seq<(usize, nat)>, k: usize)
    ensures
        key_total(t, k) < modulus(),
    decreases t.len(),
{
    if t.len() > 0 {
        lemma_key_total_canonical(t.drop_last(), k);
        if t.last().0 == k {
            lemma_field_ops_canonical(key_total(t.drop_last(), k), t.last().1);
        }
    }
}

proof fn lemma_key_total_concat(s1: Seq<(usize, nat)>, t: Seq<(usize, nat)>, k: usize)
    ensures
        key_total(s1 + t, k) == fadd(key_total(s1, k), key_total(t, k)),
    decreases t.len(),
{
    lemma_key_total_canonical(s1, k);
    if t.len() == 0 {
        assert(s1 + t =~= s1);
        vstd::arithmetic::div_mod::lemma_small_mod(key_total(s1, k), modulus());
    } else {
        lemma_key_total_concat(s1, t.drop_last(), k);
        assert((s1 + t).drop_last() =~= s1 + t.drop_last());
        assert((s1 + t).last() == t.last());
        if t.last().0 == k {
            crate::field::lemma_fadd_assoc3(key_total(s1, k), key_total(t.drop_last(), k), t.last().1);
        }
    }
}

/// The entries of row `i` of a column scaled by `c` add up to `c` times
/// the column's sum over row `i`.
proof fn lemma_scaled_total(col: Seq<(usize, Scalar)>, c: nat, i: usize)
    ensures
        fcong(key_total(scaled_column(col, c), i) as int, (c as int) * (col_sum(col, i) as int)),
    decreases col.len(),
{
    if col.len() == 0 {
        lemma_fcong_refl(0);
        assert((c as int) * 0 == 0) by (nonlinear_arith);
    } else {
        let c0 = col.drop_last();
        lemma_scaled_total(c0, c, i);
        assert(scaled_column(col, c).drop_last() =~= scaled_column(c0, c));
        assert(scaled_column(col, c).last() == (col.last().0, fmul(col.last().1@, c)));
        let kt0 = key_total(scaled_column(c0, c), i);
        let s0 = col_sum(c0, i) as int;
        let ci = c as int;
        let v = col.last().1@ as int;
        lemma_fcong_refl(ci);
        lemma_fcong_refl(v);
        lemma_fcong_refl(s0);
        let cs = col_sum(col, i) as int;
        if col.last().0 == i {
            lemma_fcong_mul(col.last().1@, c, v, ci);
            lemma_fcong_add(kt0, fmul(col.last().1@, c), ci * s0, v * ci);
            lemma_fcong_add(col_sum(c0, i), col.last().1@, s0, v);
            lemma_icong_mul(ci, cs, s0 + v);
            assert(ci * s0 + v * ci == ci * (s0 + v)) by (nonlinear_arith);
            lemma_icong_sym(ci * cs, ci * (s0 + v));
            lemma_icong_trans(key_total(scaled_column(col, c), i) as int, ci * (s0 + v), ci * cs);
        } else {
            lemma_fcong_refl(0);
            lemma_fcong_add(col_sum(c0, i), 0, s0, 0);
            lemma_icong_mul(ci, cs, s0 + 0);
            lemma_icong_sym(ci * cs, ci * (s0 + 0));
            assert(ci * s0 == ci * (s0 + 0));
            lemma_icong_trans(key_total(scaled_column(col, c), i) as int, ci * (s0 + 0), ci * cs);
        }
    }
}

/// The sparse change of `sum_j vl_j * cols[j]` of a sparse change
/// `(j, vl_j)`, with the columns of a matrix, is, at row `i`, the change of
/// the evaluation of row `i` of the matrix between the assignment and the
/// changed one.
pub proof fn lemma_terms_row_change(
    m: Seq<Vec<(Scalar, usize)>>,
    cols: Seq<Vec<(usize, Scalar)>>,
    upd: Seq<(usize, Scalar)>,
    z: Seq<nat>,
    i: usize,
)
    requires
        m.len() <= usize::MAX,
        forall|v: int| 0 <= v < cols.len() ==> (#[trigger] cols[v])@ == col_entries(m, m.len(), v as usize),
        forall|t: int| 0 <= t < upd.len() ==> (#[trigger] upd[t]).0 < cols.len() && upd[t].0 < z.len(),
        i < m.len(),
        row_in_range(m[i as int]@, z.len()),
    ensures
        fcong(
            key_total(column_terms(cols, upd), i) as int,
            row_eval_n(m[i as int]@, apply_updates(z, upd)) as int - row_eval_n(m[i as int]@, z) as int,
        ),
    decreases upd.len(),
{
    let row = m[i as int]@;
    if upd.len() == 0 {
        lemma_fcong_refl(0);
    } else {
        let u0 = upd.drop_last();
        assert forall|t: int| 0 <= t < u0.len() implies (#[trigger] u0[t]).0 < cols.len() && u0[t].0 < z.len() by {
            assert(u0[t] == upd[t]);
        }
        lemma_terms_row_change(m, cols, u0, z, i);
        let (v, c) = upd.last();
        assert(upd.last() == upd[upd.len() - 1]);
        let ct0 = column_terms(cols, u0);
        let sc = scaled_column(cols[v as int]@, c@);
        lemma_key_total_concat(ct0, sc, i);
        lemma_scaled_total(cols[v as int]@, c@, i);
        lemma_col_sum_entries(m, m.len(), v, i);
        let z1 = apply_updates(z, u0);
        assert forall|t: int| 0 <= t < u0.len() implies (#[trigger] u0[t]).0 < z.len() by {
            assert(u0[t] == upd[t]);
        }
        lemma_apply_len(z, u0);
        lemma_row_change(row, z1, v, c@);
        let r0 = row_eval_n(row, z) as int;
        let r1 = row_eval_n(row, z1) as int;
        let r2 = row_eval_n(row, apply_updates(z, upd)) as int;
        let kk = row_coef(row, v) as int;
        let ci = c@ as int;
        // key_total(ct0 ++ sc) = kt0 + kts = (r1 - r0) + c * kk = r2 - r0
        lemma_fcong_add(key_total(ct0, i), key_total(sc, i), r1 - r0, ci * kk);
        lemma_fcong_refl(0 - r0);
        lemma_icong_add(r2, r1 + ci * kk, 0 - r0, 0 - r0);
        assert(r1 - r0 + ci * kk == r1 + ci * kk + (0 - r0));
        lemma_icong_sym(r2 + (0 - r0), r1 + ci * kk + (0 - r0));
        assert(r2 + (0 - r0) == r2 - r0);
        lemma_icong_trans(key_total(column_terms(cols, upd), i) as int, r1 - r0 + ci * kk, r2 - r0);
    }
}

/// Adding the changes `d` to the values `v` entry by entry moves value `i`
/// by the total of the changes at `i`.
pub proof fn lemma_record_added_total(v: Seq<nat>, d: Seq<(usize, Scalar)>, i: usize)
    requires
        sparse_in_range(d, v.len()),
        i < v.len(),
    ensures
        record_added(v, d).len() == v.len(),
        fcong(record_added(v, d)[i as int] as int, v[i as int] as int + key_total(pair_models(d), i) as int),
    decreases d.len(),
{
    if d.len() == 0 {
        lemma_fcong_refl(v[i as int] as int);
        assert(pair_models(d).len() == 0);
    } else {
        let d0 = d.drop_last();
        assert(sparse_in_range(d0, v.len()));
        lemma_record_added_total(v, d0, i);
        let prev = record_added(v, d0);
        let (k, c) = d.last();
        assert(d.last() == d[d.len() - 1]);
        assert(pair_models(d).drop_last() =~= pair_models(d0));
        assert(pair_models(d).last() == (k, c@));
        let t0 = key_total(pair_models(d0), i) as int;
        if k == i {
            lemma_fcong_refl(c@ as int);
            lemma_fcong_add(prev[i as int], c@, v[i as int] as int + t0, c@ as int);
            lemma_fcong_refl(v[i as int] as int);
            lemma_fcong_refl(t0);
            lemma_fcong_add(key_total(pair_models(d0), i), c@, t0, c@ as int);
            lemma_icong_add(v[i as int] as int, v[i as int] as int, key_total(pair_models(d), i) as int, t0 + c@ as int);
            lemma_icong_sym(
                v[i as int] as int + key_total(pair_models(d), i) as int,
                v[i as int] as int + (t0 + c@ as int),
            );
            assert(v[i as int] as int + t0 + c@ as int == v[i as int] as int + (t0 + c@ as int));
            lemma_icong_trans(
                record_added(v, d)[i as int] as int,
                v[i as int] as int + (t0 + c@ as int),
                v[i as int] as int + key_total(pair_models(d), i) as int,
            );
        } else {
            assert(record_added(v, d)[i as int] == prev[i as int]);
        }
    }
}

/// A total over entries none of which has index `k` is zero.
proof fn lemma_total_absent(t: Seq<(usize, nat)>, k: usize)
    requires
        !keys(t).contains(k),
    ensures
        key_total(t, k) == 0,
    decreases t.len(),
{
    if t.len() > 0 {
        let t0 = t.drop_last();
        assert(!keys(t0).contains(k)) by {
            if keys(t0).contains(k) {
                let j = choose|j: int| 0 <= j < keys(t0).len() && keys(t0)[j] == k;
                assert(keys(t)[j] == k);
            }
        }
        lemma_total_absent(t0, k);
        assert(keys(t)[t.len() - 1] == t.last().0);
    }
}

/// Over entries with strictly increasing indices, the total at `k` is the
/// value of the entry with index `k`, if any.
proof fn lemma_total_sorted(o: Seq<(usize, Scalar)>, k: usize)
    requires
        forall|a: int, b: int| 0 <= a < b < o.len() ==> o[a].0 < o[b].0,
        forall|m: int| 0 <= m < o.len() ==> (#[trigger] o[m]).1@ < modulus(),
    ensures
        forall|m: int| 0 <= m < o.len() && o[m].0 == k ==> key_total(pair_models(o), k) == o[m].1@,
    decreases o.len(),
{
    if o.len() > 0 {
        let o0 = o.drop_last();
        assert forall|m: int| 0 <= m < o0.len() implies (#[trigger] o0[m]).1@ < modulus() by {
            assert(o0[m] == o[m]);
        }
        lemma_total_sorted(o0, k);
        assert(pair_models(o).drop_last() =~= pair_models(o0));
        let last = o[o.len() - 1];
        assert(pair_models(o).last() == (last.0, last.1@));
        assert forall|m: int| 0 <= m < o.len() && o[m].0 == k implies key_total(pair_models(o), k) == o[m].1@ by {
            if m == o.len() - 1 {
                assert(!keys(pair_models(o0)).contains(k)) by {
                    if keys(pair_models(o0)).contains(k) {
                        let j = choose|j: int| 0 <= j < keys(pair_models(o0)).len() && keys(pair_models(o0))[j] == k;
                        assert(o[j].0 == k);
                    }
                }
                lemma_total_absent(pair_models(o0), k);
                vstd::arithmetic::div_mod::lemma_small_mod(last.1@, modulus());
            } else {
                assert(o0[m] == o[m]);
            }
        }
    }
}

/// The merged entries have the same totals as the entries merged.
pub proof fn lemma_merged_total(o: Seq<(usize, Scalar)>, terms: Seq<(usize, nat)>, k: usize)
    requires
        merged_by_index(o, terms),
    ensures
        key_total(pair_models(o), k) == key_total(terms, k),
{
    assert forall|m: int| 0 <= m < o.len() implies (#[trigger] o[m]).1@ < modulus() by {
        lemma_key_total_canonical(terms, o[m].0);
    }
    lemma_total_sorted(o, k);
    if keys(pair_models(o)).contains(k) {
        let j = choose|j: int| 0 <= j < keys(pair_models(o)).len() && keys(pair_models(o))[j] == k;
        assert(o[j].0 == k);
        assert(o[j].1@ == key_total(terms, o[j].0));
    } else {
        assert(!keys(terms).contains(k));
        lemma_total_absent(pair_models(o), k);
        lemma_total_absent(terms, k);
    }
}

} // verus!
