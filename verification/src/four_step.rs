//! The four-step FFT over the scalars is the FFT over the subgroup, and its
//! inverse: read as an `R x C` array, the transform of length `R * C` is
//! `R`-point transforms of the columns, a twiddle by the powers of the
//! generator, and `C`-point transforms of the rows, read out transposed.
use vstd::prelude::*;
use vstd::arithmetic::power2::{pow2, lemma_pow2_pos};
use crate::field::{fadd, fmul, fpow, finv, modulus, root_of_unity_of, lemma_field_ops_canonical, lemma_fadd_assoc3, lemma_fmul_fadd};
use crate::group::{GroupElem, lincomb_by, powers};
use crate::field::Scalar;
use crate::fft_handler::{sqrt_fft_spec, transposed, twiddled, rows_transform, lemma_fmul_assoc, lemma_fmul_comm, para_fft_of, twiddles, CustomParaFFT};
use crate::fft_handler::{rows_sqrt, sqrt_stage, SqrtPlan};

verus! {

/// `f(0) + f(1) + ... + f(n - 1)` in the field.
pub open spec fn fsum(n: nat, f: spec_fn(int) -> nat) -> nat
    decreases n,
{
    if n == 0 {
        0
    } else {
        fadd(fsum((n - 1) as nat, f), f(n - 1))
    }
}

/// Sums are canonical.
proof fn lemma_fsum_canonical(n: nat, f: spec_fn(int) -> nat)
    ensures
        fsum(n, f) < modulus(),
{
    if n > 0 {
        lemma_field_ops_canonical(fsum((n - 1) as nat, f), f(n - 1));
    }
}

/// Zero is neutral for sums and absorbing for products.
proof fn lemma_zero_ops(a: nat)
    ensures
        fadd(0, 0) == 0,
        fmul(a, 0) == 0,
{
    vstd::arithmetic::div_mod::lemma_small_mod(0, modulus());
    assert(a * 0 == 0);
}

/// Sums of terms that agree agree.
proof fn lemma_fsum_ext(n: nat, f: spec_fn(int) -> nat, g: spec_fn(int) -> nat)
    requires
        forall|j: int| 0 <= j < n ==> #[trigger] f(j) == g(j),
    ensures
        fsum(n, f) == fsum(n, g),
    decreases n,
{
    if n > 0 {
        lemma_fsum_ext((n - 1) as nat, f, g);
    }
}

/// `(a + b) + (c + d) = (a + c) + (b + d)` in the field.
proof fn lemma_fadd_4(a: nat, b: nat, c: nat, d: nat)
    ensures
        fadd(fadd(a, b), fadd(c, d)) == fadd(fadd(a, c), fadd(b, d)),
{
    let p = modulus() as int;
    vstd::arithmetic::div_mod::lemma_add_mod_noop((a + b) as int, (c + d) as int, p);
    vstd::arithmetic::div_mod::lemma_add_mod_noop((a + c) as int, (b + d) as int, p);
    assert((a + b) + (c + d) == (a + c) + (b + d));
}

/// A factor comes out of a sum.
proof fn lemma_fsum_scale(n: nat, a: nat, f: spec_fn(int) -> nat, h: spec_fn(int) -> nat)
    requires
        forall|j: int| 0 <= j < n ==> #[trigger] h(j) == fmul(a, f(j)),
    ensures
        fmul(a, fsum(n, f)) == fsum(n, h),
    decreases n,
{
    if n > 0 {
        let n1 = (n - 1) as nat;
        lemma_fsum_scale(n1, a, f, h);
        assert(h(n - 1) == fmul(a, f(n - 1)));
        lemma_fmul_fadd(a, fsum(n1, f), f(n - 1));
    } else {
        lemma_zero_ops(a);
    }
}

/// A sum over `a + b` terms is the sum over the first `a` plus the sum
/// over the next `b`.
proof fn lemma_fsum_split(a: nat, b: nat, f: spec_fn(int) -> nat, h: spec_fn(int) -> nat)
    requires
        forall|p: int| 0 <= p < b ==> #[trigger] h(p) == f(a + p),
    ensures
        fsum(a + b, f) == fadd(fsum(a, f), fsum(b, h)),
    decreases b,
{
    if b == 0 {
        lemma_fsum_canonical(a, f);
        vstd::arithmetic::div_mod::lemma_small_mod(fsum(a, f), modulus());
    } else {
        let b1 = (b - 1) as nat;
        lemma_fsum_split(a, b1, f, h);
        assert(h(b1 as int) == f((a + b1) as int));
        lemma_fadd_assoc3(fsum(a, f), fsum(b1, h), f((a + b1) as int));
    }
}

/// `sum_{p < c} h(q, p)`.
pub open spec fn rsum(c: nat, h: spec_fn(int, int) -> nat, q: int) -> nat
    decreases c,
{
    if c == 0 {
        0
    } else {
        fadd(rsum((c - 1) as nat, h, q), h(q, c - 1))
    }
}

/// `sum_{q < r} h(q, p)`.
pub open spec fn csum(r: nat, h: spec_fn(int, int) -> nat, p: int) -> nat
    decreases r,
{
    if r == 0 {
        0
    } else {
        fadd(csum((r - 1) as nat, h, p), h(r - 1, p))
    }
}

/// `sum_{q < r} sum_{p < c} h(q, p)`.
pub open spec fn by_rows(r: nat, c: nat, h: spec_fn(int, int) -> nat) -> nat
    decreases r,
{
    if r == 0 {
        0
    } else {
        fadd(by_rows((r - 1) as nat, c, h), rsum(c, h, r - 1))
    }
}

/// `sum_{p < c} sum_{q < r} h(q, p)`.
pub open spec fn by_cols(r: nat, c: nat, h: spec_fn(int, int) -> nat) -> nat
    decreases c,
{
    if c == 0 {
        0
    } else {
        fadd(by_cols(r, (c - 1) as nat, h), csum(r, h, c - 1))
    }
}

/// A row sum is the sum of the terms of the row.
proof fn lemma_rsum_fsum(c: nat, h: spec_fn(int, int) -> nat, q: int, f: spec_fn(int) -> nat)
    requires
        forall|p: int| 0 <= p < c ==> #[trigger] f(p) == h(q, p),
    ensures
        rsum(c, h, q) == fsum(c, f),
    decreases c,
{
    if c > 0 {
        lemma_rsum_fsum((c - 1) as nat, h, q, f);
        assert(f(c - 1) == h(q, c - 1));
    }
}

/// A sum of column sums, term by term.
proof fn lemma_by_cols_fsum(r: nat, c: nat, h: spec_fn(int, int) -> nat, f: spec_fn(int) -> nat)
    requires
        forall|p: int| 0 <= p < c ==> #[trigger] f(p) == csum(r, h, p),
    ensures
        by_cols(r, c, h) == fsum(c, f),
    decreases c,
{
    if c > 0 {
        lemma_by_cols_fsum(r, (c - 1) as nat, h, f);
        assert(f(c - 1) == csum(r, h, c - 1));
    }
}

/// Adding a row to the rows adds its terms to the column sums.
proof fn lemma_by_cols_push(r: nat, c: nat, h: spec_fn(int, int) -> nat)
    ensures
        by_cols(r + 1, c, h) == fadd(by_cols(r, c, h), rsum(c, h, r as int)),
    decreases c,
{
    if c > 0 {
        let c1 = (c - 1) as nat;
        lemma_by_cols_push(r, c1, h);
        assert(csum(r + 1, h, c - 1) == fadd(csum(r, h, c - 1), h(r as int, c - 1)));
        lemma_fadd_4(by_cols(r, c1, h), rsum(c1, h, r as int), csum(r, h, c - 1), h(r as int, c - 1));
    } else {
        lemma_zero_ops(0);
    }
}

/// The order of a double sum does not matter.
proof fn lemma_swap_sums(r: nat, c: nat, h: spec_fn(int, int) -> nat)
    ensures
        by_rows(r, c, h) == by_cols(r, c, h),
    decreases r,
{
    if r == 0 {
        lemma_by_cols_zero(c, h);
    } else {
        let r1 = (r - 1) as nat;
        lemma_swap_sums(r1, c, h);
        lemma_by_cols_push(r1, c, h);
    }
}

/// With no rows, the column sums are zero.
proof fn lemma_by_cols_zero(c: nat, h: spec_fn(int, int) -> nat)
    ensures
        by_cols(0, c, h) == 0,
    decreases c,
{
    if c > 0 {
        lemma_by_cols_zero((c - 1) as nat, h);
    }
}

/// A sum over `r * c` terms is the sum over `r` blocks of `c` consecutive
/// terms.
proof fn lemma_fsum_blocks(r: nat, c: nat, f: spec_fn(int) -> nat, h: spec_fn(int, int) -> nat)
    requires
        forall|q: int, p: int| 0 <= q < r && 0 <= p < c ==> #[trigger] h(q, p) == f(q * c + p),
    ensures
        fsum(r * c, f) == by_rows(r, c, h),
    decreases r,
{
    if r > 0 {
        let r1 = (r - 1) as nat;
        assert forall|q: int, p: int| 0 <= q < r1 && 0 <= p < c implies #[trigger] h(q, p) == f(q * c + p) by {
            assert(h(q, p) == f(q * c + p));
        }
        lemma_fsum_blocks(r1, c, f, h);
        assert(r1 * c + c == r * c) by (nonlinear_arith)
            requires
                r1 == r - 1,
        ;
        let g = |p: int| h(r1 as int, p);
        assert forall|p: int| 0 <= p < c implies #[trigger] g(p) == f(r1 * c + p) by {
            assert(h(r1 as int, p) == f(r1 * c + p));
        }
        lemma_fsum_split(r1 * c, c, f, g);
        lemma_rsum_fsum(c, h, r1 as int, g);
    } else {
        assert(r * c == 0) by (nonlinear_arith) requires r == 0;
    }
}

/// Powers are canonical.
proof fn lemma_fpow_canonical(a: nat, e: nat)
    ensures
        fpow(a, e) < modulus(),
{
    if e > 0 {
        lemma_field_ops_canonical(fpow(a, (e - 1) as nat), a);
    }
}

/// One is neutral for products of canonical elements.
proof fn lemma_fmul_one(x: nat)
    requires
        x < modulus(),
    ensures
        fmul(x, 1) == x,
        fmul(1, x) == x,
{
    vstd::arithmetic::div_mod::lemma_small_mod(x, modulus());
}

/// `a^(m + n) = a^m * a^n`.
proof fn lemma_fpow_add(a: nat, m: nat, n: nat)
    ensures
        fpow(a, m + n) == fmul(fpow(a, m), fpow(a, n)),
    decreases n,
{
    if n == 0 {
        lemma_fpow_canonical(a, m);
        lemma_fmul_one(fpow(a, m));
    } else {
        let n1 = (n - 1) as nat;
        lemma_fpow_add(a, m, n1);
        assert((m + n - 1) as nat == m + n1);
        lemma_fmul_assoc(fpow(a, m), fpow(a, n1), a);
    }
}

/// `(a^m)^n = a^(m * n)`.
proof fn lemma_fpow_mul(a: nat, m: nat, n: nat)
    ensures
        fpow(fpow(a, m), n) == fpow(a, m * n),
    decreases n,
{
    if n == 0 {
        assert(m * n == 0) by (nonlinear_arith) requires n == 0;
    } else {
        let n1 = (n - 1) as nat;
        lemma_fpow_mul(a, m, n1);
        lemma_fpow_add(a, m * n1, m);
        assert(m * n1 + m == m * n) by (nonlinear_arith) requires n1 == n - 1;
    }
}

/// The powers of one are one.
proof fn lemma_fpow_one(t: nat)
    ensures
        fpow(1, t) == 1,
    decreases t,
{
    if t > 0 {
        lemma_fpow_one((t - 1) as nat);
        lemma_fmul_one(1);
    }
}

/// For `a^n = 1`, `a^(n * t + e) = a^e`.
proof fn lemma_fpow_period(a: nat, n: nat, t: nat, e: nat)
    requires
        fpow(a, n) == 1,
    ensures
        fpow(a, n * t + e) == fpow(a, e),
{
    lemma_fpow_add(a, n * t, e);
    lemma_fpow_mul(a, n, t);
    lemma_fpow_one(t);
    lemma_fpow_canonical(a, e);
    lemma_fmul_one(fpow(a, e));
}

/// A linear combination over the field is the sum of its terms.
proof fn lemma_lincomb_fsum(
    v: Seq<nat>,
    c: Seq<nat>,
    plus: spec_fn(nat, nat) -> nat,
    scale: spec_fn(nat, nat) -> nat,
    f: spec_fn(int) -> nat,
)
    requires
        forall|a: nat, b: nat| #[trigger] plus(a, b) == fadd(a, b),
        forall|a: nat, b: nat| #[trigger] scale(a, b) == fmul(a, b),
        forall|j: int| 0 <= j < v.len() ==> #[trigger] f(j) == fmul(v[j], c[j]),
    ensures
        lincomb_by(v, c, 0nat, plus, scale) == fsum(v.len(), f),
    decreases v.len(),
{
    if v.len() > 0 {
        let v0 = v.drop_last();
        assert forall|j: int| 0 <= j < v0.len() implies #[trigger] f(j) == fmul(v0[j], c[j]) by {
            assert(f(j) == fmul(v[j], c[j]));
        }
        lemma_lincomb_fsum(v0, c, plus, scale, f);
        assert(f(v.len() - 1) == fmul(v[v.len() - 1], c[v.len() - 1]));
    }
}

/// The generator of the subgroup of order `m` that the transform of the
/// direction runs over: `g`, or `1/g` for the inverse.
pub open spec fn gen_of(m: nat, inverse: bool) -> nat {
    if inverse {
        finv(root_of_unity_of(m))
    } else {
        root_of_unity_of(m)
    }
}

/// The final scaling of the direction: none, or by `1/m` for the inverse.
pub open spec fn unscale(v: nat, m: nat, inverse: bool) -> nat {
    if inverse {
        fmul(v, finv(m))
    } else {
        v
    }
}

/// Entry `k` of the FFT of `v` over the subgroup: `sum_j v[j] * (h^k)^j`
/// with `h` the generator of the direction, scaled by `1/n` for the inverse.
proof fn lemma_transform_entry(v: Seq<nat>, k: nat, f: spec_fn(int) -> nat, inverse: bool)
    requires
        k < v.len(),
        forall|j: int| 0 <= j < v.len() ==> #[trigger] f(j) == fmul(v[j], fpow(fpow(gen_of(v.len(), inverse), k), j as nat)),
    ensures
        Scalar::m_transform(v, inverse)[k as int] == unscale(fsum(v.len(), f), v.len(), inverse),
{
    let n = v.len();
    let c = powers(fpow(gen_of(n, inverse), k), n);
    assert forall|j: int| 0 <= j < v.len() implies #[trigger] f(j) == fmul(v[j], c[j]) by {
        assert(f(j) == fmul(v[j], fpow(fpow(gen_of(v.len(), inverse), k), j as nat)));
    }
    lemma_lincomb_fsum(v, c, |a: nat, b: nat| fadd(a, b), |a: nat, k: nat| fmul(a, k), f);
}

/// A column sum is the sum of the terms of the column.
proof fn lemma_csum_fsum(r: nat, h: spec_fn(int, int) -> nat, p: int, f: spec_fn(int) -> nat)
    requires
        forall|q: int| 0 <= q < r ==> #[trigger] f(q) == h(q, p),
    ensures
        csum(r, h, p) == fsum(r, f),
    decreases r,
{
    if r > 0 {
        lemma_csum_fsum((r - 1) as nat, h, p, f);
        assert(f(r - 1) == h(r - 1, p));
    }
}

/// `j = q * w + k` with `k < w` has quotient `q` and remainder `k` by `w`.
proof fn lemma_divmod(j: int, w: int, q: int, k: int)
    requires
        w > 0,
        0 <= k < w,
        j == q * w + k,
    ensures
        j / w == q,
        j % w == k,
{
    vstd::arithmetic::div_mod::lemma_fundamental_div_mod_converse(j, w, q, k);
}

/// The second stage: entry `p * r + k1` of the `r`-point transforms of the
/// columns of `x`, read as `r` rows of `c`, is `sum_q x[q * c + p] * (wr^k1)^q`.
proof fn lemma_column_transform(x: Seq<nat>, r: nat, c: nat, k1: nat, p: nat, a: spec_fn(int) -> nat, inverse: bool)
    requires
        x.len() == r * c,
        k1 < r,
        p < c,
        forall|q: int| 0 <= q < r ==> #[trigger] a(q) == fmul(x[q * c + p], fpow(fpow(gen_of(r, inverse), k1), q as nat)),
    ensures
        rows_transform::<Scalar>(transposed(x, r, c), r, inverse)[(p * r + k1) as int] == unscale(fsum(r, a), r, inverse),
{
    let s1 = transposed(x, r, c);
    let ri = r as int;
    let i = (p * r + k1) as int;
    lemma_divmod(i, ri, p as int, k1 as int);
    assert(p * r + r <= r * c) by (nonlinear_arith)
        requires
            p < c,
    ;
    let sub = s1.subrange((p * r) as int, (p * r + r) as int);
    assert forall|q: int| 0 <= q < r implies #[trigger] a(q) == fmul(sub[q], fpow(fpow(gen_of(sub.len(), inverse), k1), q as nat)) by {
        let j = p * r + q;
        lemma_divmod(j, ri, p as int, q);
        assert(q * c + p < r * c) by (nonlinear_arith)
            requires
                q < r,
                p < c,
        ;
        assert(j < r * c);
        assert(sub[q] == s1[j]);
        assert(s1[j] == x[q * c + p]);
    }
    lemma_transform_entry(sub, k1, a, inverse);
}

/// The fourth stage: entry `k1 * c + k2` of the `c`-point transforms of the
/// rows of `s` is `sum_p s[k1 * c + p] * (wc^k2)^p`.
proof fn lemma_row_transform(s: Seq<nat>, r: nat, c: nat, k1: nat, k2: nat, b: spec_fn(int) -> nat, inverse: bool)
    requires
        s.len() == r * c,
        k1 < r,
        k2 < c,
        forall|p: int| 0 <= p < c ==> #[trigger] b(p) == fmul(s[k1 * c + p], fpow(fpow(gen_of(c, inverse), k2), p as nat)),
    ensures
        rows_transform::<Scalar>(s, c, inverse)[(k1 * c + k2) as int] == unscale(fsum(c, b), c, inverse),
{
    let ci = c as int;
    let i = (k1 * c + k2) as int;
    lemma_divmod(i, ci, k1 as int, k2 as int);
    assert(k1 * c + c <= r * c) by (nonlinear_arith)
        requires
            k1 < r,
    ;
    let sub = s.subrange((k1 * c) as int, (k1 * c + c) as int);
    assert forall|p: int| 0 <= p < c implies #[trigger] b(p) == fmul(sub[p], fpow(fpow(gen_of(sub.len(), inverse), k2), p as nat)) by {
        assert(sub[p] == s[k1 * c + p]);
    }
    lemma_transform_entry(sub, k2, b, inverse);
}

/// The exponents of one term: `g^(k1 p) * ((g^r)^k2)^p * ((g^c)^k1)^q` is
/// `(g^i)^(q c + p)` for `i = k2 r + k1` and `g^(r c) = 1`.
proof fn lemma_term_exponent(g: nat, r: nat, c: nat, i: nat, k1: nat, k2: nat, q: nat, p: nat)
    requires
        fpow(g, r * c) == 1,
        i == k2 * r + k1,
    ensures
        fmul(fmul(fpow(g, k1 * p), fpow(fpow(fpow(g, r), k2), p)), fpow(fpow(fpow(g, c), k1), q)) == fpow(
            fpow(g, i),
            q * c + p,
        ),
{
    lemma_fpow_mul(g, r, k2);
    lemma_fpow_mul(g, r * k2, p);
    lemma_fpow_mul(g, c, k1);
    lemma_fpow_mul(g, c * k1, q);
    lemma_fpow_add(g, k1 * p, r * k2 * p);
    lemma_fpow_add(g, k1 * p + r * k2 * p, c * k1 * q);
    lemma_fpow_mul(g, i, q * c + p);
    let e = k1 * p + r * k2 * p + c * k1 * q;
    let qc = q * c;
    assert(i * (qc + p) == i * qc + i * p) by (nonlinear_arith);
    assert(i * qc == (k2 * r) * qc + k1 * qc) by (nonlinear_arith)
        requires
            i == k2 * r + k1,
    ;
    assert(i * p == (k2 * r) * p + k1 * p) by (nonlinear_arith)
        requires
            i == k2 * r + k1,
    ;
    assert((k2 * r) * qc == (r * c) * (k2 * q)) by (nonlinear_arith)
        requires
            qc == q * c,
    ;
    assert(k1 * qc == c * k1 * q) by (nonlinear_arith)
        requires
            qc == q * c,
    ;
    assert((k2 * r) * p == r * k2 * p) by (nonlinear_arith);
    assert(i * (q * c + p) == (r * c) * (k2 * q) + e);
    lemma_fpow_period(g, r * c, k2 * q, e);
}

/// One column of the double sum: the twiddled transform of column `p`,
/// transformed again, is the column sum of the terms `x[j] * (g^i)^j`.
proof fn lemma_column_sum(
    x: Seq<nat>,
    g: nat,
    r: nat,
    c: nat,
    i: nat,
    k1: nat,
    k2: nat,
    p: nat,
    a: spec_fn(int) -> nat,
    h: spec_fn(int, int) -> nat,
)
    requires
        x.len() == r * c,
        p < c,
        fpow(g, r * c) == 1,
        i == k2 * r + k1,
        forall|q: int| 0 <= q < r ==> #[trigger] a(q) == fmul(x[q * c + p], fpow(fpow(fpow(g, c), k1), q as nat)),
        forall|q: int, p2: int| 0 <= q < r && 0 <= p2 < c ==> #[trigger] h(q, p2) == fmul(x[q * c + p2], fpow(fpow(g, i), (q * c + p2) as nat)),
    ensures
        fmul(fmul(fsum(r, a), fpow(g, k1 * p)), fpow(fpow(fpow(g, r), k2), p)) == csum(r, h, p as int),
{
    let t = fpow(g, k1 * p);
    let w = fpow(fpow(fpow(g, r), k2), p);
    let tw = fmul(t, w);
    let sa = fsum(r, a);
    lemma_fmul_assoc(sa, t, w);
    lemma_fmul_comm(sa, tw);
    let hh = |q: int| fmul(tw, a(q));
    lemma_fsum_scale(r, tw, a, hh);
    assert forall|q: int| 0 <= q < r implies #[trigger] hh(q) == h(q, p as int) by {
        let xv = x[q * c + p];
        let aw = fpow(fpow(fpow(g, c), k1), q as nat);
        lemma_term_exponent(g, r, c, i, k1, k2, q as nat, p);
        assert(a(q) == fmul(xv, aw));
        // tw * (xv * aw) = xv * (tw * aw)
        lemma_fmul_assoc(tw, xv, aw);
        lemma_fmul_comm(tw, xv);
        lemma_fmul_assoc(xv, tw, aw);
        assert(h(q, p as int) == fmul(xv, fpow(fpow(g, i), (q * c + p) as nat)));
        assert((q * c + p) as nat == (q as nat) * c + p);
    }
    lemma_csum_fsum(r, h, p as int, hh);
}

/// `(a b)^e = a^e b^e`.
proof fn lemma_fpow_of_product(a: nat, b: nat, e: nat)
    ensures
        fpow(a * b, e) == fmul(fpow(a, e), fpow(b, e)),
    decreases e,
{
    if e == 0 {
        lemma_fmul_one(1);
    } else {
        let e1 = (e - 1) as nat;
        lemma_fpow_of_product(a, b, e1);
        let x = fpow(a, e1);
        let y = fpow(b, e1);
        let p = modulus() as int;
        vstd::arithmetic::div_mod::lemma_mul_mod_noop_left((x * y) as int, (a * b) as int, p);
        vstd::arithmetic::div_mod::lemma_mul_mod_noop_general((x * a) as int, (y * b) as int, p);
        assert((x * y) * (a * b) == (x * a) * (y * b)) by (nonlinear_arith);
    }
}

/// `1/(g^c) = (1/g)^c`.
proof fn lemma_finv_fpow(g: nat, c: nat)
    ensures
        finv(fpow(g, c)) == fpow(finv(g), c),
{
    let e = (modulus() - 2) as nat;
    lemma_fpow_mul(g, c, e);
    lemma_fpow_mul(g, e, c);
    assert(c * e == e * c) by (nonlinear_arith);
}

/// `1/(a b) = (1/a) (1/b)`.
proof fn lemma_finv_product(a: nat, b: nat)
    ensures
        finv(a * b) == fmul(finv(a), finv(b)),
{
    lemma_fpow_of_product(a, b, (modulus() - 2) as nat);
}

/// What the law asks of the twiddles and the roots: the generators of the
/// subgroups of orders `2^rl` and `2^cl` are the powers `g^(2^cl)` and
/// `g^(2^rl)` of the generator `g` of the subgroup of order
/// `n = 2^rl * 2^cl`, `g^n = 1`, and `tw` lists the powers of the
/// generator of the direction (`g`, or `1/g` for the inverse).
pub open spec fn four_step_ready(n: nat, rl: nat, cl: nat, tw: Seq<nat>, inverse: bool) -> bool {
    let g = root_of_unity_of(n);
    &&& n == pow2(rl) * pow2(cl)
    &&& tw.len() >= n
    &&& forall|k: int| 0 <= k < n ==> #[trigger] tw[k] == fpow(gen_of(n, inverse), k as nat)
    &&& fpow(g, n) == 1
    &&& root_of_unity_of(pow2(rl)) == fpow(g, pow2(cl))
    &&& root_of_unity_of(pow2(cl)) == fpow(g, pow2(rl))
}

/// The same facts for the generator of the direction.
proof fn lemma_direction_roots(n: nat, rl: nat, cl: nat, tw: Seq<nat>, inverse: bool)
    requires
        four_step_ready(n, rl, cl, tw, inverse),
    ensures
        fpow(gen_of(n, inverse), n) == 1,
        gen_of(pow2(rl), inverse) == fpow(gen_of(n, inverse), pow2(cl)),
        gen_of(pow2(cl), inverse) == fpow(gen_of(n, inverse), pow2(rl)),
{
    if inverse {
        let g = root_of_unity_of(n);
        lemma_finv_fpow(g, pow2(cl));
        lemma_finv_fpow(g, pow2(rl));
        lemma_finv_fpow(g, n);
        lemma_fpow_one((modulus() - 2) as nat);
    }
}

/// One entry of the four-step FFT.
#[verifier::rlimit(60)]
proof fn lemma_four_step_entry(x: Seq<nat>, rl: nat, cl: nat, tw: Seq<nat>, i: nat, inverse: bool)
    requires
        four_step_ready(x.len(), rl, cl, tw, inverse),
        i < x.len(),
    ensures
        sqrt_fft_spec::<Scalar>(x, rl, cl, tw, inverse)[i as int] == Scalar::m_transform(x, inverse)[i as int],
{
    let r = pow2(rl);
    let c = pow2(cl);
    let n = x.len();
    let g = gen_of(n, inverse);
    lemma_direction_roots(n, rl, cl, tw, inverse);
    lemma_pow2_pos(rl);
    lemma_pow2_pos(cl);
    let s1 = transposed(x, r, c);
    let s2 = rows_transform::<Scalar>(s1, r, inverse);
    let s3 = twiddled::<Scalar>(s2, c, r, tw);
    let s4 = rows_transform::<Scalar>(s3, c, inverse);
    let k1 = i % r;
    let k2 = i / r;
    vstd::arithmetic::div_mod::lemma_fundamental_div_mod(i as int, r as int);
    assert(k2 < c) by (nonlinear_arith)
        requires
            i < r * c,
            i == r * k2 + k1,
            k1 >= 0,
            r > 0,
    ;
    assert(i == k2 * r + k1) by (nonlinear_arith)
        requires
            i == r * k2 + k1,
    ;
    assert(c * r == r * c) by (nonlinear_arith);
    assert(s3.len() == r * c);
    let zr = finv(r);
    let b = |p: int| fmul(s3[k1 * c + p], fpow(fpow(gen_of(c, inverse), k2), p as nat));
    lemma_row_transform(s3, r, c, k1, k2, b, inverse);
    let h = |q: int, p: int| fmul(x[q * c + p], fpow(fpow(g, i), (q * c + p) as nat));
    let cs = |p: int| csum(r, h, p);
    assert forall|p: int| 0 <= p < c implies #[trigger] b(p) == (if inverse { fmul(zr, cs(p)) } else { cs(p) }) by {
        let a = |q: int| fmul(x[q * c + p], fpow(fpow(fpow(g, c), k1), q as nat));
        lemma_column_transform(x, r, c, k1, p as nat, a, inverse);
        let j = k1 * c + p;
        lemma_divmod(j, c as int, k1 as int, p);
        assert(j < c * r) by (nonlinear_arith)
            requires
                k1 < r,
                0 <= p < c,
                j == k1 * c + p,
        ;
        assert(k1 * p < r * c) by (nonlinear_arith)
            requires
                k1 < r,
                0 <= p < c,
        ;
        assert(s3[j] == fmul(s2[p * r + k1], tw[k1 * p]));
        assert(tw[k1 * p] == fpow(g, (k1 * p) as nat));
        lemma_column_sum(x, g, r, c, i, k1, k2, p as nat, a, h);
        if inverse {
            // ((S z) T) W = z ((S T) W)
            let sa = fsum(r, a);
            let t = fpow(g, k1 * (p as nat));
            let w = fpow(fpow(fpow(g, r), k2), p as nat);
            lemma_fmul_comm(sa, zr);
            lemma_fmul_assoc(zr, sa, t);
            lemma_fmul_assoc(zr, fmul(sa, t), w);
        }
    }
    let f = |j: int| fmul(x[j], fpow(fpow(g, i), j as nat));
    lemma_by_cols_fsum(r, c, h, cs);
    lemma_swap_sums(r, c, h);
    lemma_fsum_blocks(r, c, f, h);
    lemma_transform_entry(x, i, f, inverse);
    if inverse {
        let bb = |p: int| fmul(zr, cs(p));
        lemma_fsum_ext(c, b, bb);
        lemma_fsum_scale(c, zr, cs, bb);
        // (zr X) zc = X (zr zc) = X / n
        let xs = fsum(c, cs);
        let zc = finv(c);
        lemma_fmul_comm(zr, xs);
        lemma_fmul_assoc(xs, zr, zc);
        lemma_finv_product(r, c);
    } else {
        lemma_fsum_ext(c, b, cs);
    }
}

/// The four-step FFT over the scalars, with the twiddles the powers of the
/// generator of the direction (`g`, or `1/g` for the inverse) of the
/// subgroup of order `n = 2^rl * 2^cl`, is the FFT over that subgroup, or
/// its inverse: for every split of `log n`, the unequal ones (odd `log n`)
/// included, entry `k` is `sum_j x[j] * g^(j k)`, or `(1/n) sum_j x[j] g^(-j k)`.
pub proof fn lemma_four_step_is_fft(x: Seq<nat>, rl: nat, cl: nat, tw: Seq<nat>, inverse: bool)
    requires
        four_step_ready(x.len(), rl, cl, tw, inverse),
    ensures
        sqrt_fft_spec::<Scalar>(x, rl, cl, tw, inverse) == Scalar::m_transform(x, inverse),
{
    let y = sqrt_fft_spec::<Scalar>(x, rl, cl, tw, inverse);
    let t = Scalar::m_transform(x, inverse);
    assert forall|i: int| 0 <= i < x.len() implies #[trigger] y[i] == t[i] by {
        lemma_four_step_entry(x, rl, cl, tw, i as nat, inverse);
    }
    assert(y =~= t);
}

/// `sqrt_fft` on scalars, with the tables of the generator of the subgroup
/// of order `n = 2^log_n`, computes the FFT over that subgroup, or with
/// `is_rev` its inverse, for odd `log_n` as for even.
pub proof fn lemma_sqrt_fft_is_fft(info: CustomParaFFT, x: Seq<nat>, is_rev: bool)
    requires
        para_fft_of(info, info.n as nat, root_of_unity_of(info.n as nat)),
        info.n == pow2(info.log_n as nat),
        x.len() == info.n,
        fpow(root_of_unity_of(info.n as nat), info.n as nat) == 1,
        root_of_unity_of(pow2((info.log_n / 2) as nat)) == fpow(
            root_of_unity_of(info.n as nat),
            pow2((info.log_n - info.log_n / 2) as nat),
        ),
        root_of_unity_of(pow2((info.log_n - info.log_n / 2) as nat)) == fpow(
            root_of_unity_of(info.n as nat),
            pow2((info.log_n / 2) as nat),
        ),
    ensures
        sqrt_fft_spec::<Scalar>(
            x,
            (info.log_n / 2) as nat,
            (info.log_n - info.log_n / 2) as nat,
            twiddles(info, is_rev),
            is_rev,
        ) == Scalar::m_transform(x, is_rev),
{
    let rl = (info.log_n / 2) as nat;
    let cl = (info.log_n - info.log_n / 2) as nat;
    vstd::arithmetic::power2::lemma_pow2_adds(rl, cl);
    assert(rl + cl == info.log_n);
    let tw = twiddles(info, is_rev);
    assert forall|k: int| 0 <= k < x.len() implies #[trigger] tw[k] == fpow(gen_of(x.len(), is_rev), k as nat) by {
        assert(info.omegas@[k]@ == fpow(root_of_unity_of(info.n as nat), k as nat));
        assert(info.omega_invs@[k]@ == fpow(finv(root_of_unity_of(info.n as nat)), k as nat));
    }
    lemma_four_step_is_fft(x, rl, cl, tw, is_rev);
}

/// The stepped transform of an `m * m` square (`m = 2^h`), whose rows go
/// through the four-step FFT of the plan, is the FFT over the subgroup of
/// order `m * m`, or its inverse, when the tables of the rows and of the
/// square are those of the generators of their subgroups; the rows may have
/// an odd logarithm.
pub proof fn lemma_stepped_is_fft(x0: Seq<nat>, p: SqrtPlan, h: nat)
    requires
        p.m == pow2(h),
        x0.len() >= p.m * p.m,
        four_step_ready(p.m, p.rl, p.cl, p.rtw, p.inverse),
        four_step_ready(p.m * p.m, h, h, p.tw, p.inverse),
    ensures
        sqrt_stage::<Scalar>(x0, p, 5) == Scalar::m_transform(x0.take((p.m * p.m) as int), p.inverse),
{
    let m = p.m;
    let x = x0.take((m * m) as int);
    lemma_pow2_pos(h);
    assert forall|v: Seq<nat>| v.len() == m * m implies #[trigger] rows_sqrt::<Scalar>(v, m, p.rl, p.cl, p.rtw, p.inverse)
        == rows_transform::<Scalar>(v, m, p.inverse) by {
        let a = rows_sqrt::<Scalar>(v, m, p.rl, p.cl, p.rtw, p.inverse);
        let b = rows_transform::<Scalar>(v, m, p.inverse);
        assert forall|i: int| 0 <= i < v.len() implies #[trigger] a[i] == b[i] by {
            let mi = m as int;
            let q = i / mi;
            vstd::arithmetic::div_mod::lemma_fundamental_div_mod(i, mi);
            assert(q * mi + mi <= m * m) by (nonlinear_arith)
                requires
                    0 <= i < m * m,
                    i == mi * q + i % mi,
                    0 <= i % mi < mi,
                    mi == m,
                    m > 0,
            ;
            assert(q >= 0) by (nonlinear_arith)
                requires
                    0 <= i,
                    i == mi * q + i % mi,
                    i % mi < mi,
                    mi > 0,
            ;
            let sub = v.subrange(q * mi, q * mi + mi);
            lemma_four_step_is_fft(sub, p.rl, p.cl, p.rtw, p.inverse);
        }
        assert(a =~= b);
    }
    let s1 = transposed(x, m, m);
    let s2 = rows_sqrt::<Scalar>(s1, m, p.rl, p.cl, p.rtw, p.inverse);
    let s3 = twiddled::<Scalar>(s2, m, m, p.tw);
    let s4 = rows_sqrt::<Scalar>(s3, m, p.rl, p.cl, p.rtw, p.inverse);
    assert(s1.len() == m * m);
    assert(s3.len() == m * m);
    assert(sqrt_stage::<Scalar>(x0, p, 0) == x);
    assert(sqrt_stage::<Scalar>(x0, p, 1) == s1);
    assert(sqrt_stage::<Scalar>(x0, p, 2) == s2);
    assert(sqrt_stage::<Scalar>(x0, p, 3) == s3);
    assert(sqrt_stage::<Scalar>(x0, p, 4) == s4);
    assert(sqrt_stage::<Scalar>(x0, p, 5) == transposed(s4, m, m));
    assert(sqrt_stage::<Scalar>(x0, p, 5) == sqrt_fft_spec::<Scalar>(x, h, h, p.tw, p.inverse));
    lemma_four_step_is_fft(x, h, h, p.tw, p.inverse);
}

} // verus!
