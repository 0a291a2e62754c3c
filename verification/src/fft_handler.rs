//! FFTs over the scalar field and the source groups: the precomputed
//! tables, the butterflies, the four-step ("square root") FFT that
//! transposes and transforms rows, and its version that advances a bounded
//! number of steps per call so that the work can be spread over updates.
use vstd::prelude::*;
use vstd::arithmetic::power2::{pow2, lemma_pow2_unfold, lemma_pow2_adds, lemma_pow2_strictly_increases, lemma2_to64, lemma_pow2_pos};
use crate::domain::{is_log2_ceil, is_next_pow2, log2, resized, GeneralEvaluationDomain};
use crate::field::{fadd, finv, fmul, fpow, is_fft_size, modulus, root_of_unity_of, Scalar, fr_add, fr_inverse, fr_mul};
use crate::group::{G1Point, G2Point, GroupElem, g1_identity, models, powers};

verus! {

/// Number of Threads
pub const N_THREADS: usize = 1;

/// Size of Step of Sqrt FFT
pub const STEP_SQRT_FFT: usize = 1;

/// Size of Step of Transpose
pub const STEP_SQRT_TRANSPOSE: usize = 2;

/// Size of Step of Copy
pub const STEP_SQRT_COPY: usize = 32;

/// The bit reversal of `i` over `log_n` bits, built as the table is: from
/// the reversal of `i / 2`.
pub open spec fn bit_rev_spec(i: nat, log_n: nat) -> nat
    decreases i,
{
    if i == 0 {
        0
    } else {
        bit_rev_spec(i / 2, log_n) / 2 + (i % 2) * pow2((log_n - 1) as nat)
    }
}

/// The pairs `i, rev(i)` with `i < rev(i)`, for `i < k`, flattened.
pub open spec fn bit_rev_tasks(tab: Seq<usize>, k: nat) -> Seq<usize>
    decreases k,
{
    if k == 0 {
        Seq::empty()
    } else {
        let p = bit_rev_tasks(tab, (k - 1) as nat);
        if ((k - 1) as int) < tab[k - 1] {
            p.push((k - 1) as usize).push(tab[k - 1])
        } else {
            p
        }
    }
}

/// Stores info of FFT, including powers of generators and bit-reversion table
#[derive(Clone, Debug)]
pub struct CustomParaFFT {
    /// log of the size of a FFT array
    pub log_n: usize,
    /// size of a FFT array
    pub n: usize,
    /// power of roots of unity
    pub omegas: Vec<Scalar>,
    /// power of inversion of roots of unity
    pub omega_invs: Vec<Scalar>,
    /// list of bit-reversed match
    pub bit_rev_table: Vec<usize>,
    /// the pairs to swap for the bit reversal
    pub bit_rev_task: Vec<usize>,
    /// inverse of N
    pub inv_n: Scalar,
    /// covering_length per Thread
    pub len_thread: usize,
}

/// The tables that `CustomParaFFT::new` builds for size `g_size` and
/// generator `g`: the powers of `g` and of `1 / g`, the bit-reversal table
/// and its swaps, and `1 / 2^log_n`, with `log_n` the ceiling of the
/// logarithm of the size.
pub open spec fn para_fft_of(r: CustomParaFFT, g_size: nat, g: nat) -> bool {
    &&& r.n == g_size
    &&& is_log2_ceil(r.log_n as nat, g_size)
    &&& r.omegas@.len() == g_size
    &&& r.omega_invs@.len() == g_size
    &&& forall|i: int| 0 <= i < g_size ==> (#[trigger] r.omegas@[i])@ == fpow(g, i as nat)
    &&& forall|i: int| 0 <= i < g_size ==> (#[trigger] r.omega_invs@[i])@ == fpow(finv(g), i as nat)
    &&& r.bit_rev_table@.len() == g_size
    &&& forall|i: int| 0 <= i < g_size ==> (#[trigger] r.bit_rev_table@[i]) == bit_rev_spec(i as nat, r.log_n as nat)
    &&& r.bit_rev_task@ == bit_rev_tasks(r.bit_rev_table@, g_size)
    &&& r.inv_n@ == fpow(finv(2), r.log_n as nat)
    &&& r.len_thread == g_size / N_THREADS as nat
    &&& fmul(finv(g), g) == 1
}

/// Field products associate.
pub(crate) proof fn lemma_fmul_assoc(a: nat, b: nat, c: nat)
    ensures
        fmul(fmul(a, b), c) == fmul(a, fmul(b, c)),
{
    let p = modulus() as int;
    vstd::arithmetic::div_mod::lemma_mul_mod_noop_left((a * b) as int, c as int, p);
    vstd::arithmetic::div_mod::lemma_mul_mod_noop_right(a as int, (b * c) as int, p);
    vstd::arithmetic::mul::lemma_mul_is_associative(a as int, b as int, c as int);
}

/// Field products commute.
pub(crate) proof fn lemma_fmul_comm(a: nat, b: nat)
    ensures
        fmul(a, b) == fmul(b, a),
{
    vstd::arithmetic::mul::lemma_mul_is_commutative(a as int, b as int);
}

/// The `k`-th powers of two inverse elements are inverse.
proof fn lemma_fpow_inverse(g: nat, h: nat, k: nat)
    requires
        fmul(h, g) == 1,
    ensures
        fmul(fpow(g, k), fpow(h, k)) == 1,
    decreases k,
{
    if k == 0 {
        assert(fmul(1, 1) == 1);
    } else {
        let k1 = (k - 1) as nat;
        lemma_fpow_inverse(g, h, k1);
        let gk = fpow(g, k1);
        let hk = fpow(h, k1);
        assert(fpow(g, k) == fmul(gk, g));
        assert(fpow(h, k) == fmul(hk, h));
        // (gk g)(hk h) = gk (g (hk h)) = gk ((hk h) g) = gk (hk (h g)) = (gk hk)(h g)
        lemma_fmul_assoc(gk, g, fmul(hk, h));
        lemma_fmul_comm(g, fmul(hk, h));
        lemma_fmul_assoc(hk, h, g);
        lemma_fmul_assoc(gk, hk, fmul(h, g));
        assert(fmul(1, 1) == 1);
    }
}

/// Transposing a square twice gives it back: a call of `transpose`
/// undone by a second one, for every kind of vector.
pub proof fn lemma_transpose_round_trip<M>(x: Seq<M>, m: nat)
    requires
        m > 0,
        x.len() == m * m,
    ensures
        transposed(transposed(x, m, m), m, m) == x,
{
    let y = transposed(x, m, m);
    let z = transposed(y, m, m);
    let mi = m as int;
    assert forall|i: int| 0 <= i < x.len() implies #[trigger] z[i] == x[i] by {
        lemma_transpose_index(i, mi, mi);
        let q = i / mi;
        let r = i % mi;
        let j = r * mi + q;
        vstd::arithmetic::div_mod::lemma_fundamental_div_mod_converse(j, mi, r, q);
        vstd::arithmetic::div_mod::lemma_fundamental_div_mod(i, mi);
        assert((j % mi) * mi + j / mi == i) by (nonlinear_arith)
            requires
                j % mi == q,
                j / mi == r,
                i == mi * q + r,
        ;
    }
    assert(z =~= x);
}

/// Twiddling the transpose of a square of scalars with the powers of the
/// generator, then twiddling the transpose of the result with the powers
/// of its inverse (or the other way round), gives the square back: a call
/// of `transpose_mult` undone by a call with the other direction.
pub proof fn lemma_twiddle_round_trip(info: CustomParaFFT, g: nat, x: Seq<nat>, rev: bool)
    requires
        para_fft_of(info, info.n as nat, g),
        info.log_n % 2 == 0,
        info.n == pow2(info.log_n as nat),
        x.len() == info.n,
        forall|i: int| 0 <= i < x.len() ==> #[trigger] x[i] < modulus(),
    ensures
        ({
            let m = pow2((info.log_n / 2) as nat);
            twiddled::<Scalar>(twiddled::<Scalar>(x, m, m, twiddles(info, rev)), m, m, twiddles(info, !rev)) == x
        }),
{
    let m = pow2((info.log_n / 2) as nat);
    lemma_square(info.log_n as nat);
    let y = twiddled::<Scalar>(x, m, m, twiddles(info, rev));
    let z = twiddled::<Scalar>(y, m, m, twiddles(info, !rev));
    let mi = m as int;
    assert forall|i: int| 0 <= i < x.len() implies #[trigger] z[i] == x[i] by {
        lemma_transpose_index(i, mi, mi);
        let q = i / mi;
        let r = i % mi;
        let j = r * mi + q;
        vstd::arithmetic::div_mod::lemma_fundamental_div_mod_converse(j, mi, r, q);
        vstd::arithmetic::div_mod::lemma_fundamental_div_mod(i, mi);
        assert(j % mi == q && j / mi == r);
        assert((j % mi) * mi + j / mi == i) by (nonlinear_arith)
            requires
                j % mi == q,
                j / mi == r,
                i == mi * q + r,
        ;
        let k = q * r;
        assert((j / mi) * (j % mi) == k) by (nonlinear_arith)
            requires
                j % mi == q,
                j / mi == r,
                k == q * r,
        ;
        lemma_transpose_index(j, mi, mi);
        assert(0 <= k < m * m);
        assert(y[j] == fmul(x[i], twiddles(info, rev)[k]));
        assert(z[i] == fmul(y[j], twiddles(info, !rev)[k]));
        let a = fpow(g, k as nat);
        let b = fpow(finv(g), k as nat);
        assert(info.omegas@[k]@ == a);
        assert(info.omega_invs@[k]@ == b);
        lemma_fpow_inverse(g, finv(g), k as nat);
        lemma_fmul_assoc(x[i], twiddles(info, rev)[k], twiddles(info, !rev)[k]);
        if rev {
            lemma_fmul_comm(b, a);
        }
        assert(fmul(twiddles(info, rev)[k], twiddles(info, !rev)[k]) == 1);
        vstd::arithmetic::div_mod::lemma_small_mod(x[i], modulus());
        assert(fmul(x[i], 1) == x[i]);
    }
    assert(z =~= x);
}

/// `2^k` as a machine integer.
pub fn pow2_usize(k: usize) -> (r: usize)
    requires
        pow2(k as nat) <= usize::MAX,
    ensures
        r == pow2(k as nat),
{
    let mut r: usize = 1;
    let mut i: usize = 0;
    proof {
        lemma2_to64();
    }
    while i < k
        invariant
            i <= k,
            r == pow2(i as nat),
            pow2(k as nat) <= usize::MAX,
        decreases k - i,
    {
        proof {
            lemma_pow2_unfold((i + 1) as nat);
            if i + 1 < k {
                lemma_pow2_strictly_increases((i + 1) as nat, k as nat);
            }
        }
        r = r * 2;
        i = i + 1;
    }
    r
}

proof fn lemma_bit_rev_bound(i: nat, log_n: nat)
    requires
        log_n >= 1,
    ensures
        bit_rev_spec(i, log_n) < pow2(log_n),
    decreases i,
{
    lemma_pow2_unfold(log_n);
    lemma_pow2_pos(log_n);
    if i > 0 {
        lemma_bit_rev_bound(i / 2, log_n);
        let h = pow2((log_n - 1) as nat);
        assert(bit_rev_spec(i / 2, log_n) / 2 < h);
        if i % 2 == 0 {
            assert((i % 2) * h == 0);
        } else {
            assert(i % 2 == 1);
            assert((i % 2) * h == h);
        }
    }
}

/// A power of two that fits in a machine integer has its double at most
/// one past the largest machine integer.
pub proof fn lemma_pow2_fits(k: nat)
    requires
        pow2(k) <= usize::MAX,
    ensures
        pow2(k + 1) <= usize::MAX + 1,
{
    lemma2_to64();
    lemma_pow2_unfold(k + 1);
    if usize::MAX == 0xffff_ffff {
        if k >= 32 {
            if k > 32 {
                lemma_pow2_strictly_increases(32, k);
            }
        } else if k + 1 < 32 {
            lemma_pow2_strictly_increases(k + 1, 32);
        }
    } else {
        assert(usize::MAX == 0xffff_ffff_ffff_ffff);
        if k >= 64 {
            if k > 64 {
                lemma_pow2_strictly_increases(64, k);
            }
        } else if k + 1 < 64 {
            lemma_pow2_strictly_increases(k + 1, 64);
        }
    }
}

impl CustomParaFFT {
    /// The tables for size `g_size` and generator `g_gen`: the powers of the
    /// generator and of its inverse, the bit-reversal table and its swaps,
    /// and `1 / 2^log_n`.
    pub fn new(g_size: usize, g_gen: Scalar) -> (r: Self)
        requires
            g_size >= 2,
            g_gen@ != 0,
        ensures
            para_fft_of(r, g_size as nat, g_gen@),
            r.n == g_size,
            is_log2_ceil(r.log_n as nat, g_size as nat),
            r.omegas@.len() == g_size,
            r.omega_invs@.len() == g_size,
            forall|i: int| 0 <= i < g_size ==> (#[trigger] r.omegas@[i])@ == fpow(g_gen@, i as nat),
            forall|i: int| 0 <= i < g_size ==> (#[trigger] r.omega_invs@[i])@ == fpow(finv(g_gen@), i as nat),
            r.bit_rev_table@.len() == g_size,
            forall|i: int| 0 <= i < g_size ==> (#[trigger] r.bit_rev_table@[i]) == bit_rev_spec(i as nat, r.log_n as nat),
            r.bit_rev_task@ == bit_rev_tasks(r.bit_rev_table@, g_size as nat),
            r.inv_n@ == fpow(finv(2), r.log_n as nat),
            r.len_thread == g_size / N_THREADS,
            g_size as nat == pow2(r.log_n as nat) ==> tasks_ok(r.bit_rev_task@, g_size as nat),
    {
        let n = g_size;
        let omega = g_gen;
        let omega_inv = match fr_inverse(&omega) {
            Some(x) => x,
            None => {
                proof {
                    assert(false);
                }
                Scalar::zero()
            },
        };
        let log_n = log2(n) as usize;
        let f_one = Scalar::one();
        let f_two = fr_add(&f_one, &f_one);
        let mut omegas: Vec<Scalar> = Vec::with_capacity(n);
        let mut omega_invs: Vec<Scalar> = Vec::with_capacity(n);
        omegas.push(f_one);
        omega_invs.push(f_one);
        let mut i: usize = 1;
        while i < n
            invariant
                1 <= i <= n,
                omegas@.len() == i,
                omega_invs@.len() == i,
                omega_inv@ == finv(g_gen@),
                omega == g_gen,
                forall|j: int| 0 <= j < i ==> (#[trigger] omegas@[j])@ == fpow(g_gen@, j as nat),
                forall|j: int| 0 <= j < i ==> (#[trigger] omega_invs@[j])@ == fpow(finv(g_gen@), j as nat),
            decreases n - i,
        {
            let a = fr_mul(&omegas[i - 1], &omega);
            let b = fr_mul(&omega_invs[i - 1], &omega_inv);
            omegas.push(a);
            omega_invs.push(b);
            i = i + 1;
        }
        proof {
            lemma_pow2_pos(0);
            assert(log_n >= 1) by {
                if log_n == 0 {
                    lemma2_to64();
                }
            }
            if log_n > 1 {
                lemma_pow2_strictly_increases((log_n - 1) as nat, log_n as nat);
            }
            lemma_pow2_unfold(log_n as nat);
            if log_n > 1 {
                assert(pow2((log_n - 1) as nat) < n);
            }
            lemma_pow2_fits((log_n - 1) as nat);
        }
        let half = pow2_usize(log_n - 1);
        let mut bit_rev_table: Vec<usize> = Vec::with_capacity(n);
        let mut bit_rev_task: Vec<usize> = Vec::new();
        let mut i: usize = 0;
        while i < n
            invariant
                i <= n,
                log_n >= 1,
                half == pow2((log_n - 1) as nat),
                pow2(log_n as nat) == 2 * half,
                2 * half <= usize::MAX + 1,
                bit_rev_table@.len() == i,
                forall|j: int| 0 <= j < i ==> (#[trigger] bit_rev_table@[j]) == bit_rev_spec(j as nat, log_n as nat),
                bit_rev_task@ == bit_rev_tasks(bit_rev_table@, i as nat),
            decreases n - i,
        {
            let t: usize = if i == 0 {
                0
            } else {
                proof {
                    lemma_bit_rev_bound((i / 2) as nat, log_n as nat);
                    assert(bit_rev_table@[(i / 2) as int] / 2 < half);
                    if i % 2 == 0 {
                        assert((i % 2) * half == 0);
                    } else {
                        assert(i % 2 == 1);
                        assert((i % 2) * half == half);
                    }
                }
                bit_rev_table[i / 2] / 2 + (i % 2) * half
            };
            let ghost prev = bit_rev_table@;
            bit_rev_table.push(t);
            proof {
                lemma_tasks_prefix(bit_rev_table@, prev, i as nat);
                assert(bit_rev_table@[i as int] == t);
            }
            if i < t {
                bit_rev_task.push(i);
                bit_rev_task.push(t);
            }
            proof {
                assert(bit_rev_task@ == bit_rev_tasks(bit_rev_table@, (i + 1) as nat));
            }
            i = i + 1;
        }
        let mut inv_n = f_one;
        let two_inv = match fr_inverse(&f_two) {
            Some(x) => x,
            None => {
                proof {
                    assert(false);
                }
                Scalar::zero()
            },
        };
        let mut k: usize = 0;
        while k < log_n
            invariant
                k <= log_n,
                two_inv@ == finv(2),
                inv_n@ == fpow(finv(2), k as nat),
            decreases log_n - k,
        {
            inv_n = fr_mul(&inv_n, &two_inv);
            k = k + 1;
        }
        let len_thread = n / N_THREADS;
        proof {
            if n as nat == pow2(log_n as nat) {
                assert forall|j: int| 0 <= j < n implies (#[trigger] bit_rev_table@[j]) < n by {
                    lemma_bit_rev_bound(j as nat, log_n as nat);
                }
                lemma_tasks_ok(bit_rev_table@, n as nat, n as nat);
            }
        }
        CustomParaFFT { log_n, n, omegas, omega_invs, bit_rev_table, bit_rev_task, inv_n, len_thread }
    }
}

/// The swaps are pairs `a < b < n`.
pub open spec fn tasks_ok(t: Seq<usize>, n: nat) -> bool {
    &&& t.len() % 2 == 0
    &&& forall|j: int| 0 <= j < t.len() && j % 2 == 0 ==> #[trigger] t[j] < t[j + 1] && t[j + 1] < n
}

/// The swaps built from a table of entries below `n` are pairs below `n`.
#[verifier::spinoff_prover]
proof fn lemma_tasks_ok(tab: Seq<usize>, k: nat, n: nat)
    requires
        k <= tab.len(),
        forall|j: int| 0 <= j < k ==> (#[trigger] tab[j]) < n,
    ensures
        tasks_ok(bit_rev_tasks(tab, k), n),
    decreases k,
{
    if k > 0 {
        lemma_tasks_ok(tab, (k - 1) as nat, n);
        let p = bit_rev_tasks(tab, (k - 1) as nat);
        let q = bit_rev_tasks(tab, k);
        if ((k - 1) as int) < tab[k - 1] {
            assert(q == p.push((k - 1) as usize).push(tab[k - 1]));
            assert(q.len() == p.len() + 2);
            assert forall|j: int| 0 <= j < q.len() && j % 2 == 0 implies #[trigger] q[j] < q[j + 1] && q[j + 1] < n by {
                if j < p.len() {
                    assert(j + 1 < p.len());
                    assert(q[j] == p[j] && q[j + 1] == p[j + 1]);
                } else {
                    assert(j == p.len());
                    assert(q[j] == (k - 1) as usize);
                    assert(q[j + 1] == tab[k - 1]);
                }
            }
        } else {
            assert(q == p);
        }
    }
}

/// The tasks up to `k` read only the first `k` entries of the table.
proof fn lemma_tasks_prefix(t1: Seq<usize>, t2: Seq<usize>, k: nat)
    requires
        k <= t1.len(),
        k <= t2.len(),
        forall|j: int| 0 <= j < k ==> t1[j] == t2[j],
    ensures
        bit_rev_tasks(t1, k) == bit_rev_tasks(t2, k),
    decreases k,
{
    if k > 0 {
        lemma_tasks_prefix(t1, t2, (k - 1) as nat);
    }
}

/// The twiddle factor of the butterfly at position `i` of level `lev`.
pub open spec fn butterfly_twiddle(info: CustomParaFFT, i: nat, lev: nat, rev: bool) -> nat {
    let idx = i * ((info.n >> lev) >> 1usize);
    if rev {
        info.omega_invs@[idx as int]@
    } else {
        info.omegas@[idx as int]@
    }
}

pub open spec fn butterfly_in_range(info: CustomParaFFT, i: nat, lev: nat) -> bool {
    &&& lev < usize::BITS
    &&& i * ((info.n >> lev) >> 1usize) < info.omegas@.len()
    &&& i * ((info.n >> lev) >> 1usize) < info.omega_invs@.len()
}

/// With the tables of the generator `g`, the butterflies of the forward
/// transform use the powers of `g` and those of the inverse transform the
/// same powers of `1/g`: at each position and level the two twiddles are
/// inverse to each other.
pub proof fn lemma_butterfly_twiddles_inverse(info: CustomParaFFT, g: nat, i: nat, lev: nat)
    requires
        para_fft_of(info, info.n as nat, g),
        butterfly_in_range(info, i, lev),
    ensures
        butterfly_twiddle(info, i, lev, false) == fpow(g, (i * ((info.n >> lev) >> 1usize)) as nat),
        butterfly_twiddle(info, i, lev, true) == fpow(finv(g), (i * ((info.n >> lev) >> 1usize)) as nat),
        fmul(butterfly_twiddle(info, i, lev, false), butterfly_twiddle(info, i, lev, true)) == 1,
{
    let k = (i * ((info.n >> lev) >> 1usize)) as nat;
    assert(info.omegas@[k as int]@ == fpow(g, k));
    assert(info.omega_invs@[k as int]@ == fpow(finv(g), k));
    lemma_fpow_inverse(g, finv(g), k);
}

impl CustomParaFFT {
    /// The butterfly `(a, b) <- (a + w*b, a - w*b)` with the twiddle of
    /// position `i` at level `lev`, over any element type.
    fn butterfly<T: GroupElem>(&self, a: &mut T, b: &mut T, i: usize, lev: usize, rev: bool)
        requires
            butterfly_in_range(*self, i as nat, lev as nat),
        ensures
            final(a).model() == T::m_add(
                old(a).model(),
                T::m_scale(old(b).model(), butterfly_twiddle(*self, i as nat, lev as nat, rev)),
            ),
            final(b).model() == T::m_sub(
                old(a).model(),
                T::m_scale(old(b).model(), butterfly_twiddle(*self, i as nat, lev as nat, rev)),
            ),
    {
        let table_len = self.omegas.len();
        let idx = i * ((self.n >> lev) >> 1);
        let omega_pw = if !rev {
            self.omegas[idx]
        } else {
            self.omega_invs[idx]
        };
        let t = b.elem_scale(&omega_pw);
        *b = a.elem_sub(&t);
        *a = a.elem_add(&t);
    }

    ///  FFT on Field
    pub fn f_butterfly(&self, a: &mut Scalar, b: &mut Scalar, i: usize, lev: usize, rev: bool)
        requires
            butterfly_in_range(*self, i as nat, lev as nat),
        ensures
            final(a)@ == fadd(old(a)@, fmul(old(b)@, butterfly_twiddle(*self, i as nat, lev as nat, rev))),
            final(b)@ == crate::field::fsub(
                old(a)@,
                fmul(old(b)@, butterfly_twiddle(*self, i as nat, lev as nat, rev)),
            ),
    {
        self.butterfly(a, b, i, lev, rev)
    }

    ///  FFT on Group 1
    pub fn g1_butterfly(&self, a: &mut G1Point, b: &mut G1Point, i: usize, lev: usize, rev: bool)
        requires
            butterfly_in_range(*self, i as nat, lev as nat),
        ensures
            *final(a) == crate::group::g1_add_of(
                *old(a),
                crate::group::g1_mul_of(*old(b), butterfly_twiddle(*self, i as nat, lev as nat, rev)),
            ),
            *final(b) == crate::group::g1_sub_of(
                *old(a),
                crate::group::g1_mul_of(*old(b), butterfly_twiddle(*self, i as nat, lev as nat, rev)),
            ),
    {
        self.butterfly(a, b, i, lev, rev)
    }

    ///  FFT on Group 2
    pub fn g2_butterfly(&self, a: &mut G2Point, b: &mut G2Point, i: usize, lev: usize, rev: bool)
        requires
            butterfly_in_range(*self, i as nat, lev as nat),
        ensures
            *final(a) == crate::group::g2_add_of(
                *old(a),
                crate::group::g2_mul_of(*old(b), butterfly_twiddle(*self, i as nat, lev as nat, rev)),
            ),
            *final(b) == crate::group::g2_sub_of(
                *old(a),
                crate::group::g2_mul_of(*old(b), butterfly_twiddle(*self, i as nat, lev as nat, rev)),
            ),
    {
        self.butterfly(a, b, i, lev, rev)
    }
}

/// Reading `x` as `b`-wide rows, the `a * b` entries of the transpose:
/// `y[i] = x[(i % a) * b + i / a]`.
pub open spec fn transposed<M>(x: Seq<M>, a: nat, b: nat) -> Seq<M> {
    Seq::new(a * b, |i: int| x[(i % (a as int)) * b + i / (a as int)])
}

/// The transpose with twiddles: `y[i] = tw[(i / a) * (i % a)] * x[(i % a) * b + i / a]`.
pub open spec fn twiddled<T: GroupElem>(x: Seq<T::Model>, a: nat, b: nat, tw: Seq<nat>) -> Seq<T::Model> {
    Seq::new(
        a * b,
        |i: int| T::m_scale(x[(i % (a as int)) * b + i / (a as int)], tw[(i / (a as int)) * (i % (a as int))]),
    )
}

/// Each `w`-wide row of `x` replaced by its FFT over the subgroup of order
/// `w`.
pub open spec fn rows_transform<T: GroupElem>(x: Seq<T::Model>, w: nat, inverse: bool) -> Seq<T::Model> {
    Seq::new(
        x.len(),
        |i: int| T::m_transform(x.subrange((i / (w as int)) * w, (i / (w as int)) * w + w), inverse)[i % (w as int)],
    )
}

/// The four-step FFT of `x` of length `R * C` with `R = 2^rl`, `C = 2^cl`:
/// transpose, FFT of the rows of length `R`, transpose with the twiddles
/// `tw`, FFT of the rows of length `C`, transpose.
pub open spec fn sqrt_fft_spec<T: GroupElem>(x: Seq<T::Model>, rl: nat, cl: nat, tw: Seq<nat>, inverse: bool) -> Seq<T::Model> {
    let r = pow2(rl);
    let c = pow2(cl);
    let s1 = transposed(x, r, c);
    let s2 = rows_transform::<T>(s1, r, inverse);
    let s3 = twiddled::<T>(s2, c, r, tw);
    let s4 = rows_transform::<T>(s3, c, inverse);
    transposed(s4, r, c)
}

/// The table of twiddles for the direction.
pub open spec fn twiddles(info: CustomParaFFT, rev: bool) -> Seq<nat> {
    if rev {
        models(info.omega_invs@)
    } else {
        models(info.omegas@)
    }
}

proof fn lemma_transpose_index(i: int, a: int, b: int)
    requires
        0 <= i < a * b,
        a > 0,
        b > 0,
    ensures
        0 <= i % a < a,
        0 <= i / a < b,
        0 <= (i % a) * b + i / a < a * b,
        0 <= (i / a) * (i % a) < a * b,
{
    assert(0 <= i % a < a && i / a >= 0) by {
        vstd::arithmetic::div_mod::lemma_mod_pos_bound(i, a);
        vstd::arithmetic::div_mod::lemma_div_pos_is_pos(i, a);
    }
    vstd::arithmetic::div_mod::lemma_fundamental_div_mod(i, a);
    let q0 = i / a;
    let r0 = i % a;
    assert(q0 < b) by (nonlinear_arith)
        requires
            i == a * q0 + r0,
            0 <= r0,
            i < a * b,
            a > 0,
    ;
    let q = i / a;
    let r = i % a;
    assert(r * b + q < a * b) by (nonlinear_arith)
        requires
            0 <= r < a,
            0 <= q < b,
    ;
    assert(0 <= q * r < a * b) by (nonlinear_arith)
        requires
            0 <= r < a,
            0 <= q < b,
    ;
    assert(0 <= r * b + q) by (nonlinear_arith)
        requires
            0 <= r < a,
            0 <= q < b,
    ;
}

proof fn lemma_row_index(k: int, w: int, j: int)
    requires
        w > 0,
        0 <= j < w,
        k >= 0,
    ensures
        (k * w + j) / w == k,
        (k * w + j) % w == j,
{
    vstd::arithmetic::div_mod::lemma_fundamental_div_mod_converse(k * w + j, w, k, j);
}

/// The transpose of `x` read as `b`-wide rows.
fn transpose_core<T: GroupElem>(x: &mut Vec<T>, a: usize, b: usize)
    requires
        old(x)@.len() == a * b,
        a > 0,
        b > 0,
    ensures
        models(final(x)@) == transposed(models(old(x)@), a as nat, b as nat),
{
    let n = x.len();
    let mut y: Vec<T> = Vec::with_capacity(n);
    let mut i: usize = 0;
    while i < n
        invariant
            i <= n,
            n == a * b,
            x@.len() == n,
            a > 0,
            b > 0,
            y@.len() == i,
            forall|j: int| 0 <= j < i ==> (#[trigger] y@[j]).model() == transposed(models(x@), a as nat, b as nat)[j],
        decreases n - i,
    {
        proof {
            lemma_transpose_index(i as int, a as int, b as int);
        }
        let idx = (i % a) * b + i / a;
        y.push(x[idx]);
        i = i + 1;
    }
    proof {
        assert(models(y@) =~= transposed(models(x@), a as nat, b as nat));
    }
    *x = y;
}

/// The transpose of `x` read as `b`-wide rows, with the twiddles `tw`.
fn twiddle_core<T: GroupElem>(x: &mut Vec<T>, a: usize, b: usize, tw: &Vec<Scalar>)
    requires
        old(x)@.len() == a * b,
        a > 0,
        b > 0,
        tw@.len() >= a * b,
    ensures
        models(final(x)@) == twiddled::<T>(models(old(x)@), a as nat, b as nat, models(tw@)),
{
    let n = x.len();
    let mut y: Vec<T> = Vec::with_capacity(n);
    let mut i: usize = 0;
    while i < n
        invariant
            i <= n,
            n == a * b,
            x@.len() == n,
            tw@.len() >= n,
            a > 0,
            b > 0,
            y@.len() == i,
            forall|j: int|
                0 <= j < i ==> (#[trigger] y@[j]).model() == twiddled::<T>(models(x@), a as nat, b as nat, models(tw@))[j],
        decreases n - i,
    {
        proof {
            lemma_transpose_index(i as int, a as int, b as int);
        }
        let idx = (i % a) * b + i / a;
        let t = (i / a) * (i % a);
        y.push(x[idx].elem_scale(&tw[t]));
        i = i + 1;
    }
    proof {
        assert(models(y@) =~= twiddled::<T>(models(x@), a as nat, b as nat, models(tw@)));
    }
    *x = y;
}

/// Each `w`-wide row replaced by its FFT over the subgroup of order `w`.
fn rows_fft_core<T: GroupElem>(x: &mut Vec<T>, w: usize, inverse: bool)
    requires
        w > 0,
        is_fft_size(w as nat),
        old(x)@.len() % (w as nat) == 0,
    ensures
        models(final(x)@) == rows_transform::<T>(models(old(x)@), w as nat, inverse),
{
    let ghost x0 = models(x@);
    let len = x.len();
    let rows = len / w;
    proof {
        vstd::arithmetic::div_mod::lemma_fundamental_div_mod(len as int, w as int);
        assert((len as int) % (w as int) == 0);
        vstd::arithmetic::mul::lemma_mul_is_commutative(w as int, rows as int);
    }
    let mut k: usize = 0;
    while k < rows
        invariant
            k <= rows,
            rows * w == len,
            x@.len() == len,
            x0.len() == len,
            w > 0,
            is_fft_size(w as nat),
            forall|i: int| 0 <= i < k * w ==> (#[trigger] x@[i]).model() == rows_transform::<T>(x0, w as nat, inverse)[i],
            forall|i: int| k * w <= i < len ==> (#[trigger] x@[i]).model() == x0[i],
        decreases rows - k,
    {
        proof {
            assert((k + 1) * w <= rows * w) by (nonlinear_arith)
                requires
                    k + 1 <= rows,
                    w > 0,
            ;
            assert((k + 1) * w == k * w + w) by (nonlinear_arith);
        }
        let base = k * w;
        let mut row: Vec<T> = Vec::with_capacity(w);
        let mut j: usize = 0;
        while j < w
            invariant
                j <= w,
                base + w <= len,
                x0.len() == len,
                x@.len() == len,
                row@.len() == j,
                forall|i: int| base <= i < len ==> (#[trigger] x@[i]).model() == x0[i],
                forall|q: int| 0 <= q < j ==> (#[trigger] row@[q]).model() == x0[base + q],
            decreases w - j,
        {
            row.push(x[base + j]);
            j = j + 1;
        }
        proof {
            assert(models(row@) =~= x0.subrange(base as int, base + w));
        }
        T::domain_fft(&mut row, inverse);
        let ghost xr = models(row@);
        let mut j: usize = 0;
        while j < w
            invariant
                j <= w,
                base == k * w,
                base + w <= len,
                x0.len() == len,
                x@.len() == len,
                row@.len() == w,
                models(row@) == xr,
                xr == T::m_transform(x0.subrange(base as int, base + w), inverse),
                forall|i: int| 0 <= i < base ==> (#[trigger] x@[i]).model() == rows_transform::<T>(x0, w as nat, inverse)[i],
                forall|i: int| base + j <= i < len ==> (#[trigger] x@[i]).model() == x0[i],
                forall|q: int| 0 <= q < j ==> (#[trigger] x@[base + q]).model() == xr[q],
            decreases w - j,
        {
            x.set(base + j, row[j]);
            j = j + 1;
        }
        proof {
            assert forall|i: int| 0 <= i < (k + 1) * w implies (#[trigger] x@[i]).model() == rows_transform::<T>(
                x0,
                w as nat,
                inverse,
            )[i] by {
                if i >= base {
                    let q = i - base;
                    lemma_row_index(k as int, w as int, q);
                    assert(x@[base + q].model() == xr[q]);
                }
            }
        }
        k = k + 1;
    }
    proof {
        assert(models(x@) =~= rows_transform::<T>(x0, w as nat, inverse));
    }
}

/// The four-step FFT over any element type.
fn sqrt_fft_core<T: GroupElem>(fft_info: &CustomParaFFT, x: &mut Vec<T>, is_rev: bool)
    requires
        fft_info.n == pow2(fft_info.log_n as nat),
        old(x)@.len() == fft_info.n,
        fft_info.omegas@.len() >= fft_info.n,
        fft_info.omega_invs@.len() >= fft_info.n,
    ensures
        final(x)@.len() == old(x)@.len(),
        models(final(x)@) == sqrt_fft_spec::<T>(
            models(old(x)@),
            (fft_info.log_n / 2) as nat,
            (fft_info.log_n - fft_info.log_n / 2) as nat,
            twiddles(*fft_info, is_rev),
            is_rev,
        ),
{
    let rows_log = fft_info.log_n / 2;
    let cols_log = fft_info.log_n - rows_log;
    proof {
        lemma_pow2_adds(rows_log as nat, cols_log as nat);
        lemma_pow2_pos(rows_log as nat);
        lemma_pow2_pos(cols_log as nat);
        assert(pow2(rows_log as nat) <= usize::MAX && pow2(cols_log as nat) <= usize::MAX) by (nonlinear_arith)
            requires
                pow2(rows_log as nat) * pow2(cols_log as nat) == fft_info.n,
                pow2(rows_log as nat) > 0,
                pow2(cols_log as nat) > 0,
                fft_info.n <= usize::MAX,
        ;
        lemma_fft_size_of_half(fft_info.log_n as nat);
    }
    let rows_cnt = pow2_usize(rows_log);
    let cols_cnt = pow2_usize(cols_log);
    let ghost x0 = models(x@);
    let tw = if is_rev {
        &fft_info.omega_invs
    } else {
        &fft_info.omegas
    };
    let n = fft_info.n;
    proof {
        vstd::arithmetic::div_mod::lemma_mod_multiples_basic(cols_cnt as int, rows_cnt as int);
        vstd::arithmetic::div_mod::lemma_mod_multiples_basic(rows_cnt as int, cols_cnt as int);
        vstd::arithmetic::mul::lemma_mul_is_commutative(cols_cnt as int, rows_cnt as int);
        assert(n == rows_cnt * cols_cnt);
        assert((n as nat) % (rows_cnt as nat) == 0);
        assert((n as nat) % (cols_cnt as nat) == 0);
    }
    // First Transpose
    transpose_core(x, rows_cnt, cols_cnt);
    assert(x@.len() == n) by {
        assert(models(x@).len() == x@.len());
    }
    // Column FFT
    rows_fft_core(x, rows_cnt, is_rev);
    assert(x@.len() == n) by {
        assert(models(x@).len() == x@.len());
    }
    // Transpose with Variable Twiddle Factors
    twiddle_core(x, cols_cnt, rows_cnt, tw);
    assert(x@.len() == n) by {
        assert(models(x@).len() == x@.len());
    }
    // Row FFT
    rows_fft_core(x, cols_cnt, is_rev);
    assert(x@.len() == n) by {
        assert(models(x@).len() == x@.len());
    }
    // Final Transpose
    transpose_core(x, rows_cnt, cols_cnt);
    assert(x@.len() == n) by {
        assert(models(x@).len() == x@.len());
    }
}

/// Both halves of a logarithm at most 64 are FFT sizes.
proof fn lemma_fft_size_of_half(log_n: nat)
    requires
        pow2(log_n) <= usize::MAX,
    ensures
        is_fft_size(pow2(log_n / 2)),
        is_fft_size(pow2((log_n - log_n / 2) as nat)),
{
    lemma2_to64();
    if log_n >= 64 {
        if log_n > 64 {
            lemma_pow2_strictly_increases(64, log_n);
        }
        assert(false);
    }
    assert((log_n - log_n / 2) <= 32);
    assert(log_n / 2 <= 32);
}

/// Different types of Element doing fft
#[derive(Clone, Debug)]
pub enum FFTVectorTypes {
    /// Scalars
    XF(Vec<Scalar>),
    /// Elements of G1
    XG1(Vec<G1Point>),
    /// Elements of G2
    XG2(Vec<G2Point>),
}

/// The length of the vector, whatever its kind.
pub open spec fn fvt_len(x: FFTVectorTypes) -> nat {
    match x {
        FFTVectorTypes::XF(v) => v@.len(),
        FFTVectorTypes::XG1(v) => v@.len(),
        FFTVectorTypes::XG2(v) => v@.len(),
    }
}

/// The four-step FFT of the vector, of the same kind.
pub open spec fn fvt_sqrt_fft(x: FFTVectorTypes, y: FFTVectorTypes, info: CustomParaFFT, rev: bool) -> bool {
    let rl = (info.log_n / 2) as nat;
    let cl = (info.log_n - info.log_n / 2) as nat;
    let tw = twiddles(info, rev);
    match (x, y) {
        (FFTVectorTypes::XF(a), FFTVectorTypes::XF(b)) => models(b@) == sqrt_fft_spec::<Scalar>(models(a@), rl, cl, tw, rev),
        (FFTVectorTypes::XG1(a), FFTVectorTypes::XG1(b)) => models(b@) == sqrt_fft_spec::<G1Point>(models(a@), rl, cl, tw, rev),
        (FFTVectorTypes::XG2(a), FFTVectorTypes::XG2(b)) => models(b@) == sqrt_fft_spec::<G2Point>(models(a@), rl, cl, tw, rev),
        _ => false,
    }
}

/// sqrt FFT: the four-step FFT of the vector, whatever its kind.
pub fn sqrt_fft(fft_info: &CustomParaFFT, x: &mut FFTVectorTypes, is_rev: bool)
    requires
        fft_info.n == pow2(fft_info.log_n as nat),
        fvt_len(*old(x)) == fft_info.n,
        fft_info.omegas@.len() >= fft_info.n,
        fft_info.omega_invs@.len() >= fft_info.n,
    ensures
        fvt_sqrt_fft(*old(x), *final(x), *fft_info, is_rev),
{
    match x {
        FFTVectorTypes::XF(xf) => sqrt_fft_core(fft_info, xf, is_rev),
        FFTVectorTypes::XG1(xg1) => sqrt_fft_core(fft_info, xg1, is_rev),
        FFTVectorTypes::XG2(xg2) => sqrt_fft_core(fft_info, xg2, is_rev),
    }
}

/// The square transpose of the vector, whatever its kind.
pub open spec fn fvt_map2(x: FFTVectorTypes, y: FFTVectorTypes, m: nat, tw: Option<Seq<nat>>) -> bool {
    match (x, y) {
        (FFTVectorTypes::XF(a), FFTVectorTypes::XF(b)) => models(b@) == match tw {
            Some(t) => twiddled::<Scalar>(models(a@), m, m, t),
            None => transposed(models(a@), m, m),
        },
        (FFTVectorTypes::XG1(a), FFTVectorTypes::XG1(b)) => models(b@) == match tw {
            Some(t) => twiddled::<G1Point>(models(a@), m, m, t),
            None => transposed(models(a@), m, m),
        },
        (FFTVectorTypes::XG2(a), FFTVectorTypes::XG2(b)) => models(b@) == match tw {
            Some(t) => twiddled::<G2Point>(models(a@), m, m, t),
            None => transposed(models(a@), m, m),
        },
        _ => false,
    }
}

proof fn lemma_square(log_n: nat)
    requires
        log_n % 2 == 0,
    ensures
        pow2(log_n / 2) * pow2(log_n / 2) == pow2(log_n),
        pow2(log_n / 2) > 0,
{
    lemma_pow2_adds(log_n / 2, log_n / 2);
    lemma_pow2_pos(log_n / 2);
}

/// Transpose a square matrix stored in a vector.
pub fn transpose(fft_info: &CustomParaFFT, x: &mut FFTVectorTypes)
    requires
        fft_info.log_n % 2 == 0,
        fft_info.n == pow2(fft_info.log_n as nat),
        fvt_len(*old(x)) == fft_info.n,
    ensures
        fvt_map2(*old(x), *final(x), pow2((fft_info.log_n / 2) as nat), None),
{
    let haf_log = fft_info.log_n / 2;
    proof {
        lemma_square(fft_info.log_n as nat);
        assert(pow2(haf_log as nat) <= usize::MAX) by (nonlinear_arith)
            requires
                pow2(haf_log as nat) * pow2(haf_log as nat) <= usize::MAX,
                pow2(haf_log as nat) > 0,
        ;
    }
    let m = pow2_usize(haf_log);
    match x {
        FFTVectorTypes::XF(xf) => transpose_core(xf, m, m),
        FFTVectorTypes::XG1(xg1) => transpose_core(xg1, m, m),
        FFTVectorTypes::XG2(xg2) => transpose_core(xg2, m, m),
    }
}

/// Transpose a square matrix stored in a vector, with the twiddles.
pub fn transpose_mult(fft_info: &CustomParaFFT, x: &mut FFTVectorTypes, is_rev: bool)
    requires
        fft_info.log_n % 2 == 0,
        fft_info.n == pow2(fft_info.log_n as nat),
        fvt_len(*old(x)) == fft_info.n,
        fft_info.omegas@.len() >= fft_info.n,
        fft_info.omega_invs@.len() >= fft_info.n,
    ensures
        fvt_map2(*old(x), *final(x), pow2((fft_info.log_n / 2) as nat), Some(twiddles(*fft_info, is_rev))),
{
    let haf_log = fft_info.log_n / 2;
    proof {
        lemma_square(fft_info.log_n as nat);
        assert(pow2(haf_log as nat) <= usize::MAX) by (nonlinear_arith)
            requires
                pow2(haf_log as nat) * pow2(haf_log as nat) <= usize::MAX,
                pow2(haf_log as nat) > 0,
        ;
    }
    let m = pow2_usize(haf_log);
    let tw = if is_rev {
        &fft_info.omega_invs
    } else {
        &fft_info.omegas
    };
    match x {
        FFTVectorTypes::XF(xf) => twiddle_core(xf, m, m, tw),
        FFTVectorTypes::XG1(xg1) => twiddle_core(xg1, m, m, tw),
        FFTVectorTypes::XG2(xg2) => twiddle_core(xg2, m, m, tw),
    }
}

/// Describe the phase of sqrt FFT process
#[derive(Clone, Copy, Debug, PartialEq, Eq)]
pub enum FftPhase {
    /// first transpose
    PreTranspose,
    /// phase1
    ColFFT,
    /// phase2
    TRANSPOSE,
    /// phase3
    RowFFT,
    /// final transpose
    SufTranspose,
}

/// Describe the status of sqrt FFT process
#[derive(Clone, Copy, Debug, PartialEq, Eq)]
pub struct SqrtFftStatus {
    /// Whether is reverse of fft
    is_rev: bool,
    /// Current Phase
    phase: FftPhase,
    /// Current Level of phase
    lev: usize,
}

impl SqrtFftStatus {
    /// The status at the start of a transform.
    pub fn new(is_rev: bool) -> (r: Self)
        ensures
            r.spec_is_rev() == is_rev,
            r.spec_phase() == FftPhase::PreTranspose,
            r.spec_lev() == 0,
    {
        Self { is_rev, phase: FftPhase::PreTranspose, lev: 0 }
    }

    pub closed spec fn spec_is_rev(self) -> bool {
        self.is_rev
    }

    pub closed spec fn spec_phase(self) -> FftPhase {
        self.phase
    }

    pub closed spec fn spec_lev(self) -> nat {
        self.lev as nat
    }
}

/// Positions `[lo, hi)` of `a` and `b` agree.
pub open spec fn agrees<M>(a: Seq<M>, b: Seq<M>, lo: int, hi: int) -> bool {
    forall|j: int| lo <= j < hi ==> a[j] == b[j]
}

/// Each `w`-wide row of `x` replaced by its four-step FFT.
pub open spec fn rows_sqrt<T: GroupElem>(x: Seq<T::Model>, w: nat, rl: nat, cl: nat, rtw: Seq<nat>, inverse: bool) -> Seq<T::Model> {
    Seq::new(
        x.len(),
        |i: int| sqrt_fft_spec::<T>(x.subrange((i / (w as int)) * w, (i / (w as int)) * w + w), rl, cl, rtw, inverse)[i
            % (w as int)],
    )
}

/// The plan of a stepped transform of an `m * m` square: rows of length
/// `m` transformed by the four-step FFT with `rl`, `cl`, `rtw`, and the
/// twiddles `tw` between the two passes.
pub struct SqrtPlan {
    pub m: nat,
    pub rl: nat,
    pub cl: nat,
    pub rtw: Seq<nat>,
    pub tw: Seq<nat>,
    pub inverse: bool,
}

/// The value of the square after `k` of its five stages: transpose, row
/// transforms, transpose with twiddles, row transforms, transpose.
pub open spec fn sqrt_stage<T: GroupElem>(x0: Seq<T::Model>, p: SqrtPlan, k: nat) -> Seq<T::Model>
    decreases k,
{
    if k == 0 {
        x0.take((p.m * p.m) as int)
    } else {
        let prev = sqrt_stage::<T>(x0, p, (k - 1) as nat);
        if k == 1 || k == 5 {
            transposed(prev, p.m, p.m)
        } else if k == 3 {
            twiddled::<T>(prev, p.m, p.m, p.tw)
        } else {
            rows_sqrt::<T>(prev, p.m, p.rl, p.cl, p.rtw, p.inverse)
        }
    }
}

pub open spec fn phase_index(ph: FftPhase) -> nat {
    match ph {
        FftPhase::PreTranspose => 0,
        FftPhase::ColFFT => 1,
        FftPhase::TRANSPOSE => 2,
        FftPhase::RowFFT => 3,
        FftPhase::SufTranspose => 4,
    }
}

pub open spec fn is_copy_phase(ph: FftPhase) -> bool {
    ph == FftPhase::PreTranspose || ph == FftPhase::TRANSPOSE || ph == FftPhase::SufTranspose
}

/// The vector and the scratch memory are where a stepped transform of `x0`
/// stands at phase `ph`, level `lev`: the copy phases fill the scratch with
/// the next stage row by row, then copy it back; the row phases transform
/// the rows in place.
pub open spec fn sqrt_consistent<T: GroupElem>(
    x0: Seq<T::Model>,
    xf: Seq<T::Model>,
    mem: Seq<T::Model>,
    ph: FftPhase,
    lev: nat,
    p: SqrtPlan,
) -> bool {
    let n = p.m * p.m;
    let k = phase_index(ph);
    let sa = sqrt_stage::<T>(x0, p, k);
    let sb = sqrt_stage::<T>(x0, p, k + 1);
    &&& xf.len() == x0.len()
    &&& x0.len() >= n
    &&& agrees(xf, x0, n as int, xf.len() as int)
    &&& if is_copy_phase(ph) {
        if lev <= p.m {
            agrees(xf, sa, 0, n as int) && agrees(mem, sb, 0, (lev * p.m) as int)
        } else {
            &&& agrees(mem, sb, 0, n as int)
            &&& agrees(xf, sb, 0, ((lev - p.m) * p.m) as int)
            &&& agrees(xf, sa, ((lev - p.m) * p.m) as int, n as int)
        }
    } else {
        agrees(xf, sb, 0, (lev * p.m) as int) && agrees(xf, sa, (lev * p.m) as int, n as int)
    }
}

/// The result of a completed stepped transform of `x0`.
pub open spec fn sqrt_done<T: GroupElem>(x0: Seq<T::Model>, xf: Seq<T::Model>, p: SqrtPlan) -> bool {
    let n = p.m * p.m;
    &&& xf.len() == x0.len()
    &&& agrees(xf, x0, n as int, xf.len() as int)
    &&& agrees(xf, sqrt_stage::<T>(x0, p, 5), 0, n as int)
}

pub open spec fn copy_unit(m: nat) -> nat {
    if m < 32 {
        m
    } else {
        32
    }
}

pub open spec fn transpose_unit(m: nat) -> nat {
    if m < 2 {
        m
    } else {
        2
    }
}

/// The number of steps of a stepped transform of an `m * m` square done at
/// phase `ph`, level `lev`, where `ut2` rows are copied back per step after
/// the transpose with twiddles.
pub open spec fn sqrt_progress(ph: FftPhase, lev: nat, m: nat, ut2: nat) -> nat {
    let uc = copy_unit(m);
    let ut1 = transpose_unit(m);
    match ph {
        FftPhase::PreTranspose => lev / uc,
        FftPhase::ColFFT => 2 * (m / uc) + lev,
        FftPhase::TRANSPOSE => 2 * (m / uc) + m + if lev <= m {
            lev / ut1
        } else {
            m / ut1 + (lev - m) as nat / ut2
        },
        FftPhase::RowFFT => 2 * (m / uc) + m + m / ut1 + m / ut2 + lev,
        FftPhase::SufTranspose => 2 * (m / uc) + 2 * m + m / ut1 + m / ut2 + lev / uc,
    }
}

/// The number of steps of a whole stepped transform.
pub open spec fn sqrt_total(m: nat, ut2: nat) -> nat {
    4 * (m / copy_unit(m)) + 2 * m + m / transpose_unit(m) + m / ut2
}

/// A whole stepped transform of an `m * m` square, one unit per call of
/// `sqrt_fft_fw`, takes `5 * m / min(m, 32) + m / min(m, 2) + 2 * m` calls
/// from its start: every call before the last leaves it unfinished and
/// advances it by one, and the last one finishes it (see the contract of
/// `sqrt_fft_fw`).
pub proof fn lemma_cycle_length(m: nat)
    requires
        m >= 2,
    ensures
        sqrt_progress(FftPhase::PreTranspose, 0, m, copy_unit(m)) == 0,
        sqrt_total(m, copy_unit(m)) == 5 * (m / (if m < 32 { m } else { 32 })) + m / (if m < 2 { m } else { 2 }) + 2 * m,
{
}

/// What one call of `sqrt_fft_fw` does to where a stepped transform of an
/// `m * m` square stands, as its contract states it: an unfinished call
/// advances the progress by one, a finishing call is the last unit and
/// returns to the start.
pub open spec fn call_advances(ph: FftPhase, lv: nat, ph2: FftPhase, lv2: nat, fin: bool, m: nat) -> bool {
    let u2 = copy_unit(m);
    &&& !fin ==> sqrt_progress(ph2, lv2, m, u2) == sqrt_progress(ph, lv, m, u2) + 1
    &&& fin ==> ph2 == FftPhase::PreTranspose && lv2 == 0 && 1 == sqrt_total(m, u2) - sqrt_progress(ph, lv, m, u2)
    &&& sqrt_status_ok(ph2, lv2, m, u2)
}

/// Successive calls of `sqrt_fft_fw` from the start of a transform of an
/// `m * m` square, `m = 2^h`, standing at `phs[t], lvs[t]` before call `t`
/// and returning `fins[t]`: calls `0 .. K - 2` return `false` and call
/// `K - 1` returns `true`, with `K = sqrt_total(m, copy_unit(m))`, which is
/// `5 * m / min(m, 32) + m / min(m, 2) + 2 * m`.
pub proof fn lemma_cycle_calls(h: nat, phs: Seq<FftPhase>, lvs: Seq<nat>, fins: Seq<bool>)
    requires
        h >= 1,
        phs.len() == fins.len() + 1,
        lvs.len() == fins.len() + 1,
        phs[0] == FftPhase::PreTranspose,
        lvs[0] == 0,
        forall|t: int|
            0 <= t < fins.len() ==> #[trigger] call_advances(phs[t], lvs[t], phs[t + 1], lvs[t + 1], fins[t], pow2(h)),
    ensures
        forall|t: int| 0 <= t < fins.len() && t + 1 < sqrt_total(pow2(h), copy_unit(pow2(h))) ==> !#[trigger] fins[t],
        forall|t: int| 0 <= t < fins.len() && t + 1 == sqrt_total(pow2(h), copy_unit(pow2(h))) ==> #[trigger] fins[t],
        fins.len() <= sqrt_total(pow2(h), copy_unit(pow2(h))) || fins[sqrt_total(pow2(h), copy_unit(pow2(h))) - 1],
    decreases fins.len(),
{
    let m = pow2(h);
    let u2 = copy_unit(m);
    let k = sqrt_total(m, u2);
    lemma_units(h);
    lemma_double_div(m, u2);
    if fins.len() > 0 {
        let n1 = (fins.len() - 1) as int;
        lemma_cycle_calls(h, phs.take(n1 + 1), lvs.take(n1 + 1), fins.take(n1));
        assert forall|t: int| 0 <= t < n1 implies #[trigger] fins[t] == fins.take(n1)[t] by {}
        // before the last call, all earlier calls were unfinished, so the
        // progress equals the number of calls so far
        assert forall|t: int| 0 <= t <= n1 && t < k implies sqrt_progress(#[trigger] phs[t], lvs[t], m, u2) == t by {
            lemma_progress_count(h, phs, lvs, fins, t);
        }
        if n1 < k {
            let t = n1;
            assert(sqrt_progress(phs[t], lvs[t], m, u2) == t);
            assert(call_advances(phs[t], lvs[t], phs[t + 1], lvs[t + 1], fins[t], m));
            if t + 1 == k {
                if !fins[t] {
                    lemma_progress_bound(phs[t + 1], lvs[t + 1], m, u2, transpose_unit(m), u2);
                }
            } else {
                if fins[t] {
                    assert(1 == k - t);
                }
            }
        } else {
            assert(fins.take(n1)[k - 1]);
        }
    }
}

/// The progress after `t` unfinished calls from the start is `t`.
proof fn lemma_progress_count(h: nat, phs: Seq<FftPhase>, lvs: Seq<nat>, fins: Seq<bool>, t: int)
    requires
        h >= 1,
        phs.len() == fins.len() + 1,
        lvs.len() == fins.len() + 1,
        phs[0] == FftPhase::PreTranspose,
        lvs[0] == 0,
        forall|s: int|
            0 <= s < fins.len() ==> #[trigger] call_advances(phs[s], lvs[s], phs[s + 1], lvs[s + 1], fins[s], pow2(h)),
        0 <= t <= fins.len(),
        t < sqrt_total(pow2(h), copy_unit(pow2(h))),
    ensures
        sqrt_progress(phs[t], lvs[t], pow2(h), copy_unit(pow2(h))) == t,
    decreases t,
{
    let m = pow2(h);
    let u2 = copy_unit(m);
    lemma_units(h);
    if t == 0 {
        vstd::arithmetic::div_mod::lemma_small_mod(0, u2);
        assert(0nat / u2 == 0);
    }
    if t > 0 {
        lemma_progress_count(h, phs, lvs, fins, t - 1);
        assert(call_advances(phs[t - 1], lvs[t - 1], phs[t], lvs[t], fins[t - 1], m));
        if fins[t - 1] {
            assert(1 == sqrt_total(m, u2) - (t - 1));
            assert(false);
        }
    }
}

/// A level that the stepped transform can stand at in the phase.
pub open spec fn sqrt_status_ok(ph: FftPhase, lev: nat, m: nat, ut2: nat) -> bool {
    match ph {
        FftPhase::PreTranspose | FftPhase::SufTranspose => lev < 2 * m && lev % copy_unit(m) == 0,
        FftPhase::ColFFT | FftPhase::RowFFT => lev < m,
        FftPhase::TRANSPOSE => lev < 2 * m && (lev <= m ==> lev % transpose_unit(m) == 0) && (lev > m ==> (
        lev - m) as nat % ut2 == 0),
    }
}

/// Fills positions `[lo * m, hi * m)` of the scratch with the transpose
/// (or, given twiddles, the transpose with twiddles) of the square of `xf`.
fn copy_transposed_range<T: GroupElem>(
    xf: &Vec<T>,
    mem: &mut Vec<T>,
    m: usize,
    lo: usize,
    hi: usize,
    tw: Option<&Vec<Scalar>>,
)
    requires
        m > 0,
        lo <= hi <= m,
        m * m <= xf@.len(),
        m * m <= old(mem)@.len(),
        tw matches Some(t) ==> t@.len() >= m * m,
    ensures
        final(mem)@.len() == old(mem)@.len(),
        agrees(models(final(mem)@), models(old(mem)@), 0, (lo * m) as int),
        agrees(models(final(mem)@), models(old(mem)@), (hi * m) as int, final(mem)@.len() as int),
        agrees(
            models(final(mem)@),
            match tw {
                Some(t) => twiddled::<T>(models(xf@).take((m * m) as int), m as nat, m as nat, models(t@)),
                None => transposed(models(xf@).take((m * m) as int), m as nat, m as nat),
            },
            (lo * m) as int,
            (hi * m) as int,
        ),
{
    let ghost target = match tw {
        Some(t) => twiddled::<T>(models(xf@).take((m * m) as int), m as nat, m as nat, models(t@)),
        None => transposed(models(xf@).take((m * m) as int), m as nat, m as nat),
    };
    let xl = xf.len();
    let ml = mem.len();
    proof {
        assert(lo * m <= hi * m <= m * m) by (nonlinear_arith)
            requires
                lo <= hi <= m,
        ;
    }
    let l = lo * m;
    let r = hi * m;
    let mut j = l;
    while j < r
        invariant
            l <= j <= r,
            l == lo * m,
            r == hi * m,
            r <= m * m,
            m > 0,
            m * m <= xf@.len(),
            xl == xf@.len(),
            mem@.len() == old(mem)@.len(),
            m * m <= mem@.len(),
            tw matches Some(t) ==> t@.len() >= m * m,
            target == match tw {
                Some(t) => twiddled::<T>(models(xf@).take((m * m) as int), m as nat, m as nat, models(t@)),
                None => transposed(models(xf@).take((m * m) as int), m as nat, m as nat),
            },
            agrees(models(mem@), models(old(mem)@), 0, l as int),
            agrees(models(mem@), models(old(mem)@), j as int, mem@.len() as int),
            agrees(models(mem@), target, l as int, j as int),
        decreases r - j,
    {
        proof {
            lemma_transpose_index(j as int, m as int, m as int);
        }
        let idx = (j % m) * m + j / m;
        let v = match tw {
            Some(t) => xf[idx].elem_scale(&t[(j / m) * (j % m)]),
            None => xf[idx],
        };
        mem.set(j, v);
        j = j + 1;
    }
}

/// Copies positions `[lo * m, hi * m)` of the scratch back.
fn copy_back_range<T: GroupElem>(xf: &mut Vec<T>, mem: &Vec<T>, m: usize, lo: usize, hi: usize)
    requires
        lo <= hi <= m,
        m * m <= old(xf)@.len(),
        m * m <= mem@.len(),
    ensures
        final(xf)@.len() == old(xf)@.len(),
        agrees(models(final(xf)@), models(old(xf)@), 0, (lo * m) as int),
        agrees(models(final(xf)@), models(old(xf)@), (hi * m) as int, final(xf)@.len() as int),
        agrees(models(final(xf)@), models(mem@), (lo * m) as int, (hi * m) as int),
{
    let xl = xf.len();
    let ml = mem.len();
    proof {
        assert(lo * m <= hi * m <= m * m) by (nonlinear_arith)
            requires
                lo <= hi <= m,
        ;
    }
    let l = lo * m;
    let r = hi * m;
    let mut j = l;
    while j < r
        invariant
            l <= j <= r,
            l == lo * m,
            r == hi * m,
            r <= m * m,
            m * m <= mem@.len(),
            xf@.len() == old(xf)@.len(),
            m * m <= xf@.len(),
            agrees(models(xf@), models(old(xf)@), 0, l as int),
            agrees(models(xf@), models(old(xf)@), j as int, xf@.len() as int),
            agrees(models(xf@), models(mem@), l as int, j as int),
        decreases r - j,
    {
        xf.set(j, mem[j]);
        j = j + 1;
    }
}

/// Replaces rows `[lo, hi)` of width `m` by their four-step FFTs.
fn rows_sqrt_range<T: GroupElem>(xf: &mut Vec<T>, m: usize, lo: usize, hi: usize, haf: &CustomParaFFT, is_rev: bool)
    requires
        lo <= hi <= m,
        m * m <= old(xf)@.len(),
        haf.n == m,
        haf.n == pow2(haf.log_n as nat),
        haf.omegas@.len() >= haf.n,
        haf.omega_invs@.len() >= haf.n,
    ensures
        final(xf)@.len() == old(xf)@.len(),
        agrees(models(final(xf)@), models(old(xf)@), 0, (lo * m) as int),
        agrees(models(final(xf)@), models(old(xf)@), (hi * m) as int, final(xf)@.len() as int),
        agrees(
            models(final(xf)@),
            rows_sqrt::<T>(
                models(old(xf)@),
                m as nat,
                (haf.log_n / 2) as nat,
                (haf.log_n - haf.log_n / 2) as nat,
                twiddles(*haf, is_rev),
                is_rev,
            ),
            (lo * m) as int,
            (hi * m) as int,
        ),
{
    let ghost x0 = models(xf@);
    let ghost target = rows_sqrt::<T>(
        x0,
        m as nat,
        (haf.log_n / 2) as nat,
        (haf.log_n - haf.log_n / 2) as nat,
        twiddles(*haf, is_rev),
        is_rev,
    );
    let len = xf.len();
    let mut rr = lo;
    while rr < hi
        invariant
            lo <= rr <= hi,
            hi <= m,
            m * m <= len,
            xf@.len() == len,
            x0.len() == len,
            haf.n == m,
            haf.n == pow2(haf.log_n as nat),
            haf.omegas@.len() >= haf.n,
            haf.omega_invs@.len() >= haf.n,
            target == rows_sqrt::<T>(
                x0,
                m as nat,
                (haf.log_n / 2) as nat,
                (haf.log_n - haf.log_n / 2) as nat,
                twiddles(*haf, is_rev),
                is_rev,
            ),
            agrees(models(xf@), x0, 0, (lo * m) as int),
            agrees(models(xf@), x0, (rr * m) as int, len as int),
            agrees(models(xf@), target, (lo * m) as int, (rr * m) as int),
        decreases hi - rr,
    {
        proof {
            assert((rr + 1) * m <= m * m) by (nonlinear_arith)
                requires
                    rr + 1 <= m,
            ;
            assert((rr + 1) * m == rr * m + m) by (nonlinear_arith);
            assert(lo * m <= rr * m) by (nonlinear_arith)
                requires
                    lo <= rr,
            ;
        }
        let base = rr * m;
        let mut row: Vec<T> = Vec::with_capacity(m);
        let mut q: usize = 0;
        while q < m
            invariant
                q <= m,
                base + m <= len,
                xf@.len() == len,
                x0.len() == len,
                row@.len() == q,
                agrees(models(xf@), x0, base as int, len as int),
                forall|t: int| 0 <= t < q ==> (#[trigger] row@[t]).model() == x0[base + t],
            decreases m - q,
        {
            row.push(xf[base + q]);
            q = q + 1;
        }
        proof {
            assert(models(row@) =~= x0.subrange(base as int, base + m));
        }
        sqrt_fft_core(haf, &mut row, is_rev);
        let ghost xr = models(row@);
        let mut q: usize = 0;
        while q < m
            invariant
                q <= m,
                base == rr * m,
                base + m <= len,
                xf@.len() == len,
                x0.len() == len,
                row@.len() == m,
                models(row@) == xr,
                lo * m <= base,
                agrees(models(xf@), x0, 0, (lo * m) as int),
                agrees(models(xf@), target, (lo * m) as int, base as int),
                agrees(models(xf@), x0, (base + q) as int, len as int),
                forall|t: int| 0 <= t < q ==> (#[trigger] xf@[base + t]).model() == xr[t],
            decreases m - q,
        {
            xf.set(base + q, row[q]);
            q = q + 1;
        }
        proof {
            assert forall|j: int| (lo * m) as int <= j < ((rr + 1) * m) as int implies models(xf@)[j] == target[j] by {
                if j >= base {
                    let t = j - base;
                    lemma_row_index(rr as int, m as int, t);
                    assert(xf@[base + t].model() == xr[t]);
                }
            }
        }
        rr = rr + 1;
    }
}

/// The square has as many values in each stage.
pub(crate) proof fn lemma_stage_len<T: GroupElem>(x0: Seq<T::Model>, p: SqrtPlan, k: nat)
    requires
        x0.len() >= p.m * p.m,
    ensures
        sqrt_stage::<T>(x0, p, k).len() == p.m * p.m,
    decreases k,
{
    if k > 0 {
        lemma_stage_len::<T>(x0, p, (k - 1) as nat);
    }
}

/// One more batch of rows of the next stage in the scratch.
proof fn lemma_copy_first<T: GroupElem>(
    x0: Seq<T::Model>,
    xf: Seq<T::Model>,
    mem: Seq<T::Model>,
    mem2: Seq<T::Model>,
    ph: FftPhase,
    lev: nat,
    stp: nat,
    p: SqrtPlan,
)
    requires
        sqrt_consistent::<T>(x0, xf, mem, ph, lev, p),
        is_copy_phase(ph),
        lev + stp <= p.m,
        agrees(mem2, mem, 0, (lev * p.m) as int),
        agrees(
            mem2,
            if ph == FftPhase::TRANSPOSE {
                twiddled::<T>(xf.take((p.m * p.m) as int), p.m, p.m, p.tw)
            } else {
                transposed(xf.take((p.m * p.m) as int), p.m, p.m)
            },
            (lev * p.m) as int,
            ((lev + stp) * p.m) as int,
        ),
    ensures
        sqrt_consistent::<T>(x0, xf, mem2, ph, lev + stp, p),
{
    let n = p.m * p.m;
    let k = phase_index(ph);
    let sa = sqrt_stage::<T>(x0, p, k);
    let sb = sqrt_stage::<T>(x0, p, k + 1);
    lemma_stage_len::<T>(x0, p, k);
    assert(xf.take(n as int) =~= sa);
    if ph == FftPhase::TRANSPOSE {
        assert(sb == twiddled::<T>(sa, p.m, p.m, p.tw));
    } else {
        assert(sb == transposed(sa, p.m, p.m));
    }
    assert(lev * p.m <= (lev + stp) * p.m) by (nonlinear_arith);
}

/// One more batch of rows of the next stage copied back.
proof fn lemma_copy_second<T: GroupElem>(
    x0: Seq<T::Model>,
    xf: Seq<T::Model>,
    xf2: Seq<T::Model>,
    mem: Seq<T::Model>,
    ph: FftPhase,
    lev: nat,
    stp: nat,
    p: SqrtPlan,
)
    requires
        sqrt_consistent::<T>(x0, xf, mem, ph, lev, p),
        is_copy_phase(ph),
        p.m <= lev,
        stp >= 1,
        lev + stp <= 2 * p.m,
        xf2.len() == xf.len(),
        agrees(xf2, xf, 0, ((lev - p.m) * p.m) as int),
        agrees(xf2, xf, ((lev + stp - p.m) * p.m) as int, xf.len() as int),
        agrees(xf2, mem, ((lev - p.m) * p.m) as int, ((lev + stp - p.m) * p.m) as int),
    ensures
        sqrt_consistent::<T>(x0, xf2, mem, ph, lev + stp, p),
{
    let m = p.m;
    let n = m * m;
    let k = phase_index(ph);
    let sa = sqrt_stage::<T>(x0, p, k);
    let sb = sqrt_stage::<T>(x0, p, k + 1);
    let a = (lev - m) * m;
    let b = (lev + stp - m) * m;
    assert(0 <= a <= b <= n) by (nonlinear_arith)
        requires
            m <= lev,
            lev + stp <= 2 * m,
            a == (lev - m) * m,
            b == (lev + stp - m) * m,
            n == m * m,
    ;
    assert(((lev + stp - m) as nat) * m == b);
    if lev == m {
        assert(a == 0) by (nonlinear_arith)
            requires
                lev == m,
                a == (lev - m) * m,
        ;
        assert(lev * m == n);
    }
    assert(agrees(mem, sb, 0, n as int));
    assert(agrees(xf, sb, 0, a));
    assert(agrees(xf, sa, a, n as int));
    assert(agrees(xf2, sb, 0, b)) by {
        assert forall|j: int| 0 <= j < b implies xf2[j] == sb[j] by {
            if j < a {
                assert(xf2[j] == xf[j]);
            } else {
                assert(xf2[j] == mem[j]);
            }
        }
    }
    assert(agrees(xf2, sa, b, n as int));
    assert(agrees(xf2, x0, n as int, xf2.len() as int));
}

/// One more batch of rows transformed.
proof fn lemma_rows<T: GroupElem>(
    x0: Seq<T::Model>,
    xf: Seq<T::Model>,
    xf2: Seq<T::Model>,
    mem: Seq<T::Model>,
    ph: FftPhase,
    lev: nat,
    stp: nat,
    p: SqrtPlan,
)
    requires
        sqrt_consistent::<T>(x0, xf, mem, ph, lev, p),
        ph == FftPhase::ColFFT || ph == FftPhase::RowFFT,
        lev + stp <= p.m,
        xf2.len() == xf.len(),
        agrees(xf2, xf, 0, (lev * p.m) as int),
        agrees(xf2, xf, ((lev + stp) * p.m) as int, xf.len() as int),
        agrees(
            xf2,
            rows_sqrt::<T>(xf, p.m, p.rl, p.cl, p.rtw, p.inverse),
            (lev * p.m) as int,
            ((lev + stp) * p.m) as int,
        ),
    ensures
        sqrt_consistent::<T>(x0, xf2, mem, ph, lev + stp, p),
{
    let m = p.m;
    let n = m * m;
    let k = phase_index(ph);
    let sa = sqrt_stage::<T>(x0, p, k);
    let sb = sqrt_stage::<T>(x0, p, k + 1);
    lemma_stage_len::<T>(x0, p, k);
    assert(sb == rows_sqrt::<T>(sa, p.m, p.rl, p.cl, p.rtw, p.inverse));
    assert(lev * m <= (lev + stp) * m <= n) by (nonlinear_arith)
        requires
            lev + stp <= m,
            n == m * m,
    ;
    assert forall|j: int| (lev * m) as int <= j < ((lev + stp) * m) as int implies xf2[j] == sb[j] by {
        let r = j / (m as int);
        let q = j % (m as int);
        assert(m > 0) by (nonlinear_arith)
            requires
                lev * m <= j < (lev + stp) * m,
        ;
        vstd::arithmetic::div_mod::lemma_fundamental_div_mod(j, m as int);
        assert(lev <= r < lev + stp && 0 <= q < m) by (nonlinear_arith)
            requires
                j == m * r + q,
                0 <= q < m,
                lev * m <= j < (lev + stp) * m,
        ;
        assert(lev * m <= r * m && r * m + m <= (lev + stp) * m) by (nonlinear_arith)
            requires
                lev <= r < lev + stp,
        ;
        assert(xf.subrange(r * m, r * m + m) =~= sa.subrange(r * m, r * m + m));
    }
}

/// The units of the stepped transform divide the side.
pub(crate) proof fn lemma_units(h: nat)
    requires
        h >= 1,
    ensures
        pow2(h) % copy_unit(pow2(h)) == 0,
        pow2(h) % transpose_unit(pow2(h)) == 0,
        copy_unit(pow2(h)) >= 1,
        transpose_unit(pow2(h)) == 2,
        pow2(h) >= 2,
{
    lemma2_to64();
    lemma_pow2_unfold(h);
    lemma_pow2_pos((h - 1) as nat);
    if h >= 5 {
        lemma_pow2_adds(5, (h - 5) as nat);
        vstd::arithmetic::div_mod::lemma_mod_multiples_basic(pow2((h - 5) as nat) as int, 32);
        assert(pow2(h) == pow2(5 + (h - 5) as nat));
    } else {
        vstd::arithmetic::div_mod::lemma_mod_self_0(pow2(h) as int);
    }
    vstd::arithmetic::div_mod::lemma_mod_multiples_basic(pow2((h - 1) as nat) as int, 2);
}

/// Advancing by `cnt` units of `u` from a multiple `lev` of `u`, without
/// passing the multiple `end`.
pub(crate) proof fn lemma_chunk(lev: nat, end: nat, u: nat, cnt: nat)
    requires
        u > 0,
        lev % u == 0,
        end % u == 0,
        lev < end,
        cnt <= (end - lev) as nat / u,
    ensures
        (end - lev) as nat / u >= 1,
        lev + cnt * u <= end,
        (lev + cnt * u) % u == 0,
        (lev + cnt * u) / u == lev / u + cnt,
{
    let a = lev / u;
    let b = end / u;
    vstd::arithmetic::div_mod::lemma_fundamental_div_mod(lev as int, u as int);
    vstd::arithmetic::div_mod::lemma_fundamental_div_mod(end as int, u as int);
    assert(a < b) by (nonlinear_arith)
        requires
            lev == u * a,
            end == u * b,
            lev < end,
            u > 0,
    ;
    assert(end - lev == (b - a) * u) by (nonlinear_arith)
        requires
            lev == u * a,
            end == u * b,
    ;
    vstd::arithmetic::div_mod::lemma_fundamental_div_mod_converse((end - lev) as int, u as int, (b - a) as int, 0);
    assert(lev + cnt * u <= end) by (nonlinear_arith)
        requires
            cnt <= b - a,
            lev == u * a,
            end == u * b,
            u > 0,
    ;
    assert(lev + cnt * u == (a + cnt) * u + 0) by (nonlinear_arith)
        requires
            lev == u * a,
    ;
    vstd::arithmetic::div_mod::lemma_fundamental_div_mod_converse((lev + cnt * u) as int, u as int, (a + cnt) as int, 0);
}

/// A multiple `m` of `u`: twice it, over `u`, is twice `m / u`.
pub(crate) proof fn lemma_double_div(m: nat, u: nat)
    requires
        u > 0,
        m % u == 0,
    ensures
        (2 * m) / u == 2 * (m / u),
        (2 * m) % u == 0,
{
    vstd::arithmetic::div_mod::lemma_fundamental_div_mod(m as int, u as int);
    let q = m / u;
    assert(2 * m == (2 * q) * u + 0) by (nonlinear_arith)
        requires
            m == u * q,
    ;
    vstd::arithmetic::div_mod::lemma_fundamental_div_mod_converse((2 * m) as int, u as int, (2 * q) as int, 0);
}

/// The unit of the copy back after the transpose with twiddles.
pub open spec fn copy_back_unit(m: nat, wide: bool) -> nat {
    if wide {
        copy_unit(m)
    } else {
        transpose_unit(m)
    }
}

/// The units of the stepped transform of a side `pow2(h)` divide it.
pub(crate) proof fn lemma_units_all(h: nat, wide: bool)
    ensures
        pow2(h) % copy_unit(pow2(h)) == 0,
        pow2(h) % transpose_unit(pow2(h)) == 0,
        pow2(h) % copy_back_unit(pow2(h), wide) == 0,
        copy_unit(pow2(h)) >= 1,
        transpose_unit(pow2(h)) >= 1,
        copy_back_unit(pow2(h), wide) >= 1,
        pow2(h) >= 1,
{
    if h >= 1 {
        lemma_units(h);
    } else {
        lemma2_to64();
        vstd::arithmetic::div_mod::lemma_mod_self_0(1);
    }
}

/// The plan of the stepped transform run with the row tables `haf`, the
/// full tables `info` and the direction `rev`.
pub open spec fn plan_of(haf: CustomParaFFT, info: CustomParaFFT, rev: bool) -> SqrtPlan {
    SqrtPlan {
        m: pow2((info.log_n / 2) as nat),
        rl: (haf.log_n / 2) as nat,
        cl: (haf.log_n - haf.log_n / 2) as nat,
        rtw: twiddles(haf, rev),
        tw: twiddles(info, rev),
        inverse: rev,
    }
}

/// The tables fit a stepped transform of a vector of length `xlen` with a
/// scratch of length `mlen`.
pub open spec fn steps_ready(haf: CustomParaFFT, info: CustomParaFFT, xlen: nat, mlen: nat) -> bool {
    let m = pow2((info.log_n / 2) as nat);
    &&& haf.n == m
    &&& haf.n == pow2(haf.log_n as nat)
    &&& haf.omegas@.len() >= haf.n
    &&& haf.omega_invs@.len() >= haf.n
    &&& m * m <= xlen
    &&& m * m <= mlen
    &&& info.omegas@.len() >= m * m
    &&& info.omega_invs@.len() >= m * m
}

/// The level at which a phase ends.
pub open spec fn phase_end(ph: FftPhase, m: nat) -> nat {
    if is_copy_phase(ph) {
        2 * m
    } else {
        m
    }
}

/// The end of a phase moves the transform to the start of the next phase,
/// or completes it.
proof fn lemma_phase_end<T: GroupElem>(x0: Seq<T::Model>, xf: Seq<T::Model>, mem: Seq<T::Model>, ph: FftPhase, p: SqrtPlan)
    requires
        sqrt_consistent::<T>(x0, xf, mem, ph, phase_end(ph, p.m), p),
    ensures
        ph == FftPhase::SufTranspose ==> sqrt_done::<T>(x0, xf, p),
        ph == FftPhase::PreTranspose ==> sqrt_consistent::<T>(x0, xf, mem, FftPhase::ColFFT, 0, p),
        ph == FftPhase::ColFFT ==> sqrt_consistent::<T>(x0, xf, mem, FftPhase::TRANSPOSE, 0, p),
        ph == FftPhase::TRANSPOSE ==> sqrt_consistent::<T>(x0, xf, mem, FftPhase::RowFFT, 0, p),
        ph == FftPhase::RowFFT ==> sqrt_consistent::<T>(x0, xf, mem, FftPhase::SufTranspose, 0, p),
{
    let m = p.m;
    let n = m * m;
    assert(((2 * m - m) as nat) * m == n);
    assert((2 * m - m) * m == n);
    assert(0 * m == 0);
}

/// One more batch of rows of the next stage in the scratch, for every
/// starting vector.
proof fn lemma_copy_first_all<T: GroupElem>(
    xf: Seq<T::Model>,
    mem: Seq<T::Model>,
    mem2: Seq<T::Model>,
    ph: FftPhase,
    lev: nat,
    stp: nat,
    p: SqrtPlan,
)
    requires
        is_copy_phase(ph),
        lev + stp <= p.m,
        agrees(mem2, mem, 0, (lev * p.m) as int),
        agrees(
            mem2,
            if ph == FftPhase::TRANSPOSE {
                twiddled::<T>(xf.take((p.m * p.m) as int), p.m, p.m, p.tw)
            } else {
                transposed(xf.take((p.m * p.m) as int), p.m, p.m)
            },
            (lev * p.m) as int,
            ((lev + stp) * p.m) as int,
        ),
    ensures
        forall|x0: Seq<T::Model>| #[trigger]
            sqrt_consistent::<T>(x0, xf, mem, ph, lev, p) ==> sqrt_consistent::<T>(x0, xf, mem2, ph, lev + stp, p),
{
    assert forall|x0: Seq<T::Model>| #[trigger]
        sqrt_consistent::<T>(x0, xf, mem, ph, lev, p) implies sqrt_consistent::<T>(x0, xf, mem2, ph, lev + stp, p) by {
        lemma_copy_first::<T>(x0, xf, mem, mem2, ph, lev, stp, p);
    }
}

/// One more batch of rows copied back, for every starting vector.
proof fn lemma_copy_second_all<T: GroupElem>(
    xf: Seq<T::Model>,
    xf2: Seq<T::Model>,
    mem: Seq<T::Model>,
    ph: FftPhase,
    lev: nat,
    stp: nat,
    p: SqrtPlan,
)
    requires
        is_copy_phase(ph),
        p.m <= lev,
        stp >= 1,
        lev + stp <= 2 * p.m,
        xf2.len() == xf.len(),
        agrees(xf2, xf, 0, ((lev - p.m) * p.m) as int),
        agrees(xf2, xf, ((lev + stp - p.m) * p.m) as int, xf.len() as int),
        agrees(xf2, mem, ((lev - p.m) * p.m) as int, ((lev + stp - p.m) * p.m) as int),
    ensures
        forall|x0: Seq<T::Model>| #[trigger]
            sqrt_consistent::<T>(x0, xf, mem, ph, lev, p) ==> sqrt_consistent::<T>(x0, xf2, mem, ph, lev + stp, p),
{
    assert forall|x0: Seq<T::Model>| #[trigger]
        sqrt_consistent::<T>(x0, xf, mem, ph, lev, p) implies sqrt_consistent::<T>(x0, xf2, mem, ph, lev + stp, p) by {
        lemma_copy_second::<T>(x0, xf, xf2, mem, ph, lev, stp, p);
    }
}

/// One more batch of rows transformed, for every starting vector.
proof fn lemma_rows_all<T: GroupElem>(
    xf: Seq<T::Model>,
    xf2: Seq<T::Model>,
    mem: Seq<T::Model>,
    ph: FftPhase,
    lev: nat,
    stp: nat,
    p: SqrtPlan,
)
    requires
        ph == FftPhase::ColFFT || ph == FftPhase::RowFFT,
        lev + stp <= p.m,
        xf2.len() == xf.len(),
        agrees(xf2, xf, 0, (lev * p.m) as int),
        agrees(xf2, xf, ((lev + stp) * p.m) as int, xf.len() as int),
        agrees(
            xf2,
            rows_sqrt::<T>(xf, p.m, p.rl, p.cl, p.rtw, p.inverse),
            (lev * p.m) as int,
            ((lev + stp) * p.m) as int,
        ),
    ensures
        forall|x0: Seq<T::Model>| #[trigger]
            sqrt_consistent::<T>(x0, xf, mem, ph, lev, p) ==> sqrt_consistent::<T>(x0, xf2, mem, ph, lev + stp, p),
{
    assert forall|x0: Seq<T::Model>| #[trigger]
        sqrt_consistent::<T>(x0, xf, mem, ph, lev, p) implies sqrt_consistent::<T>(x0, xf2, mem, ph, lev + stp, p) by {
        lemma_rows::<T>(x0, xf, xf2, mem, ph, lev, stp, p);
    }
}

/// The end of a phase, for every starting vector.
proof fn lemma_phase_end_all<T: GroupElem>(xf: Seq<T::Model>, mem: Seq<T::Model>, ph: FftPhase, p: SqrtPlan)
    ensures
        forall|x0: Seq<T::Model>| #[trigger]
            sqrt_consistent::<T>(x0, xf, mem, ph, phase_end(ph, p.m), p) ==> {
                &&& ph == FftPhase::SufTranspose ==> sqrt_done::<T>(x0, xf, p)
                &&& ph == FftPhase::PreTranspose ==> sqrt_consistent::<T>(x0, xf, mem, FftPhase::ColFFT, 0, p)
                &&& ph == FftPhase::ColFFT ==> sqrt_consistent::<T>(x0, xf, mem, FftPhase::TRANSPOSE, 0, p)
                &&& ph == FftPhase::TRANSPOSE ==> sqrt_consistent::<T>(x0, xf, mem, FftPhase::RowFFT, 0, p)
                &&& ph == FftPhase::RowFFT ==> sqrt_consistent::<T>(x0, xf, mem, FftPhase::SufTranspose, 0, p)
            },
{
    assert forall|x0: Seq<T::Model>| #[trigger]
        sqrt_consistent::<T>(x0, xf, mem, ph, phase_end(ph, p.m), p) implies {
            &&& ph == FftPhase::SufTranspose ==> sqrt_done::<T>(x0, xf, p)
            &&& ph == FftPhase::PreTranspose ==> sqrt_consistent::<T>(x0, xf, mem, FftPhase::ColFFT, 0, p)
            &&& ph == FftPhase::ColFFT ==> sqrt_consistent::<T>(x0, xf, mem, FftPhase::TRANSPOSE, 0, p)
            &&& ph == FftPhase::TRANSPOSE ==> sqrt_consistent::<T>(x0, xf, mem, FftPhase::RowFFT, 0, p)
            &&& ph == FftPhase::RowFFT ==> sqrt_consistent::<T>(x0, xf, mem, FftPhase::SufTranspose, 0, p)
        } by {
        lemma_phase_end::<T>(x0, xf, mem, ph, p);
    }
}

/// One round of a stepped transform moves `(xs, ms)` at phase `ph`, level
/// `lv` to `(xs2, ms2)` at `ph2`, `lv2`, or to the end, spending `used`
/// units of work.
pub open spec fn sqrt_round<T: GroupElem>(
    xs: Seq<T::Model>,
    ms: Seq<T::Model>,
    ph: FftPhase,
    lv: nat,
    xs2: Seq<T::Model>,
    ms2: Seq<T::Model>,
    ph2: FftPhase,
    lv2: nat,
    fin: bool,
    used: nat,
    p: SqrtPlan,
    u2: nat,
) -> bool {
    &&& forall|x0: Seq<T::Model>| #[trigger]
        sqrt_consistent::<T>(x0, xs, ms, ph, lv, p) ==> if fin {
            sqrt_done::<T>(x0, xs2, p)
        } else {
            sqrt_consistent::<T>(x0, xs2, ms2, ph2, lv2, p)
        }
    &&& !fin ==> sqrt_progress(ph2, lv2, p.m, u2) == sqrt_progress(ph, lv, p.m, u2) + used
    &&& fin ==> ph2 == FftPhase::PreTranspose && lv2 == 0 && used == sqrt_total(p.m, u2) - sqrt_progress(ph, lv, p.m, u2)
    &&& sqrt_status_ok(ph2, lv2, p.m, u2)
}

/// The side and the units of a stepped transform with the full tables
/// `info`.
pub open spec fn units_ok(info: CustomParaFFT, m: usize, uc: usize, ut1: usize, ut2: usize, wide: bool) -> bool {
    &&& m == pow2((info.log_n / 2) as nat)
    &&& m >= 1
    &&& 2 * m <= usize::MAX
    &&& uc == copy_unit(m as nat)
    &&& ut1 == transpose_unit(m as nat)
    &&& ut2 == copy_back_unit(m as nat, wide)
    &&& uc >= 1
    &&& ut1 >= 1
    &&& ut2 >= 1
    &&& (m as nat) % (uc as nat) == 0
    &&& (m as nat) % (ut1 as nat) == 0
    &&& (m as nat) % (ut2 as nat) == 0
    &&& (2 * m as nat) / (uc as nat) == 2 * (m as nat / uc as nat)
    &&& (2 * m as nat) % (uc as nat) == 0
    &&& (2 * m as nat) % (ut2 as nat) == 0
}

/// A round of a transpose phase without twiddles.
#[verifier::spinoff_prover]
#[verifier::rlimit(50)]
fn round_copy<T: GroupElem>(
    haf: &CustomParaFFT,
    info: &CustomParaFFT,
    xf: &mut Vec<T>,
    status: &mut SqrtFftStatus,
    mem: &mut Vec<T>,
    steps_rem: usize,
    wide: bool,
    m: usize,
    uc: usize,
    ut1: usize,
    ut2: usize,
) -> (r: (bool, usize))
    requires
        steps_rem > 0,
        old(status).phase == FftPhase::PreTranspose || old(status).phase == FftPhase::SufTranspose,
        units_ok(*info, m, uc, ut1, ut2, wide),
        steps_ready(*haf, *info, old(xf)@.len(), old(mem)@.len()),
        sqrt_status_ok(old(status).phase, old(status).lev as nat, m as nat, ut2 as nat),
    ensures
        final(xf)@.len() == old(xf)@.len(),
        final(mem)@.len() == old(mem)@.len(),
        final(status).is_rev == old(status).is_rev,
        r.1 < steps_rem,
        sqrt_round::<T>(
            models(old(xf)@),
            models(old(mem)@),
            old(status).phase,
            old(status).lev as nat,
            models(final(xf)@),
            models(final(mem)@),
            final(status).phase,
            final(status).lev as nat,
            r.0,
            (steps_rem - r.1) as nat,
            plan_of(*haf, *info, old(status).is_rev),
            ut2 as nat,
        ),
{
    let ghost p = plan_of(*haf, *info, status.is_rev);
    let ghost xs = models(xf@);
    let ghost ms = models(mem@);
    let ghost ph = status.phase;
    let ghost lv = status.lev as nat;
    let ghost mm = m as nat;
    let mut rem = steps_rem;
    if status.lev < m {
        let room = (m - status.lev) / uc;
        let cnt = if rem < room {
            rem
        } else {
            room
        };
        proof {
            lemma_chunk(lv, mm, uc as nat, cnt as nat);
        }
        let stp = cnt * uc;
        rem = rem - cnt;
        copy_transposed_range(xf, mem, m, status.lev, status.lev + stp, None);
        proof {
            lemma_copy_first_all::<T>(xs, ms, models(mem@), ph, lv, stp as nat, p);
        }
        status.lev = status.lev + stp;
    } else {
        let room = (2 * m - status.lev) / uc;
        let cnt = if rem < room {
            rem
        } else {
            room
        };
        proof {
            lemma_chunk(lv, 2 * mm, uc as nat, cnt as nat);
            assert(cnt * uc >= 1) by (nonlinear_arith)
                requires
                    cnt >= 1,
                    uc >= 1,
            ;
        }
        let stp = cnt * uc;
        rem = rem - cnt;
        copy_back_range(xf, mem, m, status.lev - m, status.lev + stp - m);
        proof {
            lemma_copy_second_all::<T>(xs, models(xf@), ms, ph, lv, stp as nat, p);
        }
        status.lev = status.lev + stp;
    }
    if status.lev >= 2 * m {
        proof {
            lemma_phase_end_all::<T>(models(xf@), models(mem@), status.phase, p);
        }
        if matches!(status.phase, FftPhase::PreTranspose) {
            status.lev = 0;
            status.phase = FftPhase::ColFFT;
        } else {
            status.lev = 0;
            status.phase = FftPhase::PreTranspose;
            return (true, rem);
        }
    }
    (false, rem)
}

/// A round of a row phase.
#[verifier::spinoff_prover]
#[verifier::rlimit(50)]
fn round_rows<T: GroupElem>(
    haf: &CustomParaFFT,
    info: &CustomParaFFT,
    xf: &mut Vec<T>,
    status: &mut SqrtFftStatus,
    mem: &mut Vec<T>,
    steps_rem: usize,
    wide: bool,
    m: usize,
    uc: usize,
    ut1: usize,
    ut2: usize,
) -> (r: (bool, usize))
    requires
        steps_rem > 0,
        old(status).phase == FftPhase::ColFFT || old(status).phase == FftPhase::RowFFT,
        units_ok(*info, m, uc, ut1, ut2, wide),
        steps_ready(*haf, *info, old(xf)@.len(), old(mem)@.len()),
        sqrt_status_ok(old(status).phase, old(status).lev as nat, m as nat, ut2 as nat),
    ensures
        final(xf)@.len() == old(xf)@.len(),
        final(mem)@.len() == old(mem)@.len(),
        final(status).is_rev == old(status).is_rev,
        r.1 < steps_rem,
        sqrt_round::<T>(
            models(old(xf)@),
            models(old(mem)@),
            old(status).phase,
            old(status).lev as nat,
            models(final(xf)@),
            models(final(mem)@),
            final(status).phase,
            final(status).lev as nat,
            r.0,
            (steps_rem - r.1) as nat,
            plan_of(*haf, *info, old(status).is_rev),
            ut2 as nat,
        ),
{
    let ghost p = plan_of(*haf, *info, status.is_rev);
    let ghost xs = models(xf@);
    let ghost ms = models(mem@);
    let ghost ph = status.phase;
    let ghost lv = status.lev as nat;
    let ghost mm = m as nat;
    let is_rev = status.is_rev;
    let uf = if m < STEP_SQRT_FFT {
        m
    } else {
        STEP_SQRT_FFT
    };
    let mut rem = steps_rem;
    let room = (m - status.lev) / uf;
    let cnt = if rem < room {
        rem
    } else {
        room
    };
    proof {
        vstd::arithmetic::div_mod::lemma_mod_self_0(1);
        assert(lv % 1 == 0);
        assert(mm % 1 == 0);
        lemma_chunk(lv, mm, 1, cnt as nat);
    }
    let stp = cnt * uf;
    rem = rem - cnt;
    rows_sqrt_range(xf, m, status.lev, status.lev + stp, haf, is_rev);
    proof {
        lemma_rows_all::<T>(xs, models(xf@), ms, ph, lv, stp as nat, p);
    }
    status.lev = status.lev + stp;
    if status.lev >= m {
        proof {
            lemma_phase_end_all::<T>(models(xf@), models(mem@), status.phase, p);
        }
        if matches!(status.phase, FftPhase::ColFFT) {
            status.phase = FftPhase::TRANSPOSE;
        } else {
            status.phase = FftPhase::SufTranspose;
        }
        status.lev = 0;
    }
    (false, rem)
}

/// A round of the transpose with twiddles.
#[verifier::spinoff_prover]
#[verifier::rlimit(50)]
fn round_twiddle<T: GroupElem>(
    haf: &CustomParaFFT,
    info: &CustomParaFFT,
    xf: &mut Vec<T>,
    status: &mut SqrtFftStatus,
    mem: &mut Vec<T>,
    steps_rem: usize,
    wide: bool,
    m: usize,
    uc: usize,
    ut1: usize,
    ut2: usize,
) -> (r: (bool, usize))
    requires
        steps_rem > 0,
        old(status).phase == FftPhase::TRANSPOSE,
        units_ok(*info, m, uc, ut1, ut2, wide),
        steps_ready(*haf, *info, old(xf)@.len(), old(mem)@.len()),
        sqrt_status_ok(old(status).phase, old(status).lev as nat, m as nat, ut2 as nat),
    ensures
        final(xf)@.len() == old(xf)@.len(),
        final(mem)@.len() == old(mem)@.len(),
        final(status).is_rev == old(status).is_rev,
        r.1 < steps_rem,
        sqrt_round::<T>(
            models(old(xf)@),
            models(old(mem)@),
            old(status).phase,
            old(status).lev as nat,
            models(final(xf)@),
            models(final(mem)@),
            final(status).phase,
            final(status).lev as nat,
            r.0,
            (steps_rem - r.1) as nat,
            plan_of(*haf, *info, old(status).is_rev),
            ut2 as nat,
        ),
{
    let ghost p = plan_of(*haf, *info, status.is_rev);
    let ghost xs = models(xf@);
    let ghost ms = models(mem@);
    let ghost ph = status.phase;
    let ghost lv = status.lev as nat;
    let ghost mm = m as nat;
    let tw = if status.is_rev {
        &info.omega_invs
    } else {
        &info.omegas
    };
    let mut rem = steps_rem;
    if status.lev < m {
        let room = (m - status.lev) / ut1;
        let cnt = if rem < room {
            rem
        } else {
            room
        };
        proof {
            lemma_chunk(lv, mm, ut1 as nat, cnt as nat);
        }
        let stp = cnt * ut1;
        rem = rem - cnt;
        copy_transposed_range(xf, mem, m, status.lev, status.lev + stp, Some(tw));
        proof {
            assert(models(tw@) == p.tw);
            lemma_copy_first_all::<T>(xs, ms, models(mem@), ph, lv, stp as nat, p);
        }
        status.lev = status.lev + stp;
    } else {
        let room = (2 * m - status.lev) / ut2;
        let cnt = if rem < room {
            rem
        } else {
            room
        };
        proof {
            lemma_chunk((lv - mm) as nat, mm, ut2 as nat, cnt as nat);
            assert(cnt * ut2 >= 1) by (nonlinear_arith)
                requires
                    cnt >= 1,
                    ut2 >= 1,
            ;
        }
        let stp = cnt * ut2;
        rem = rem - cnt;
        copy_back_range(xf, mem, m, status.lev - m, status.lev + stp - m);
        proof {
            lemma_copy_second_all::<T>(xs, models(xf@), ms, ph, lv, stp as nat, p);
        }
        status.lev = status.lev + stp;
        if status.lev >= 2 * m {
            proof {
                lemma_phase_end_all::<T>(models(xf@), models(mem@), status.phase, p);
            }
            status.phase = FftPhase::RowFFT;
            status.lev = 0;
        }
    }
    (false, rem)
}

/// Advances a stepped transform of the `m * m` square at the head of `xf`
/// by `steps` units of work, or to its end: the transposes go `min(m, 32)`
/// rows per unit (`min(m, 2)` when they apply twiddles, and, if `wide`, the
/// copy back after it `min(m, 32)`), the row transforms one row per unit.
/// Returns whether the transform ended, and the units left.
fn sqrt_steps_core<T: GroupElem>(
    haf: &CustomParaFFT,
    info: &CustomParaFFT,
    xf: &mut Vec<T>,
    status: &mut SqrtFftStatus,
    mem: &mut Vec<T>,
    steps: usize,
    wide: bool,
) -> (r: (bool, usize))
    requires
        steps_ready(*haf, *info, old(xf)@.len(), old(mem)@.len()),
        sqrt_status_ok(
            old(status).phase,
            old(status).lev as nat,
            pow2((info.log_n / 2) as nat),
            copy_back_unit(pow2((info.log_n / 2) as nat), wide),
        ),
    ensures
        final(xf)@.len() == old(xf)@.len(),
        final(mem)@.len() == old(mem)@.len(),
        final(status).is_rev == old(status).is_rev,
        r.1 <= steps,
        sqrt_round::<T>(
            models(old(xf)@),
            models(old(mem)@),
            old(status).phase,
            old(status).lev as nat,
            models(final(xf)@),
            models(final(mem)@),
            final(status).phase,
            final(status).lev as nat,
            r.0,
            (steps - r.1) as nat,
            plan_of(*haf, *info, old(status).is_rev),
            copy_back_unit(pow2((info.log_n / 2) as nat), wide),
        ),
        !r.0 ==> r.1 == 0,
        r.0 ==> r.1 < steps,
{
    let ghost st0 = *status;
    let ghost xs0 = models(xf@);
    let ghost ms0 = models(mem@);
    let ghost p = plan_of(*haf, *info, status.is_rev);
    let haf_log = info.log_n / 2;
    let xl = xf.len();
    proof {
        lemma_pow2_pos(haf_log as nat);
        assert(pow2(haf_log as nat) <= usize::MAX) by (nonlinear_arith)
            requires
                pow2(haf_log as nat) * pow2(haf_log as nat) <= xf@.len(),
                xf@.len() <= usize::MAX,
                pow2(haf_log as nat) >= 1,
        ;
        assert(2 * pow2(haf_log as nat) <= usize::MAX) by (nonlinear_arith)
            requires
                pow2(haf_log as nat) * pow2(haf_log as nat) <= usize::MAX,
                pow2(haf_log as nat) >= 1,
                usize::MAX >= 0xffff_ffff,
        ;
        lemma_units_all(haf_log as nat, wide);
    }
    let m = pow2_usize(haf_log);
    let ghost mm = m as nat;
    let ghost u2 = copy_back_unit(mm, wide);
    let uc = if m < STEP_SQRT_COPY {
        m
    } else {
        STEP_SQRT_COPY
    };
    let ut1 = if m < STEP_SQRT_TRANSPOSE {
        m
    } else {
        STEP_SQRT_TRANSPOSE
    };
    let ut2 = if wide {
        uc
    } else {
        ut1
    };
    proof {
        lemma_double_div(mm, uc as nat);
        lemma_double_div(mm, ut2 as nat);
    }
    let mut steps_rem = steps;
    while steps_rem > 0
        invariant
            steps_rem <= steps,
            units_ok(*info, m, uc, ut1, ut2, wide),
            m == mm,
            ut2 == u2,
            p.m == mm,
            p == plan_of(*haf, *info, st0.is_rev),
            steps_ready(*haf, *info, xf@.len(), mem@.len()),
            xf@.len() == old(xf)@.len(),
            mem@.len() == old(mem)@.len(),
            st0 == *old(status),
            xs0 == models(old(xf)@),
            ms0 == models(old(mem)@),
            status.is_rev == st0.is_rev,
            sqrt_status_ok(status.phase, status.lev as nat, mm, u2),
            sqrt_progress(status.phase, status.lev as nat, mm, u2) == sqrt_progress(st0.phase, st0.lev as nat, mm, u2)
                + (steps - steps_rem),
            forall|x0: Seq<T::Model>| #[trigger]
                sqrt_consistent::<T>(x0, xs0, ms0, st0.phase, st0.lev as nat, p) ==> sqrt_consistent::<T>(
                    x0,
                    models(xf@),
                    models(mem@),
                    status.phase,
                    status.lev as nat,
                    p,
                ),
        decreases steps_rem,
    {
        let ghost xs = models(xf@);
        let ghost ms = models(mem@);
        let ghost ph = status.phase;
        let ghost lv = status.lev as nat;
        let r = match status.phase {
            FftPhase::PreTranspose | FftPhase::SufTranspose => round_copy(
                haf,
                info,
                xf,
                status,
                mem,
                steps_rem,
                wide,
                m,
                uc,
                ut1,
                ut2,
            ),
            FftPhase::ColFFT | FftPhase::RowFFT => round_rows(haf, info, xf, status, mem, steps_rem, wide, m, uc, ut1, ut2),
            FftPhase::TRANSPOSE => round_twiddle(haf, info, xf, status, mem, steps_rem, wide, m, uc, ut1, ut2),
        };
        proof {
            assert forall|x0: Seq<T::Model>| #[trigger]
                sqrt_consistent::<T>(x0, xs0, ms0, st0.phase, st0.lev as nat, p) implies if r.0 {
                sqrt_done::<T>(x0, models(xf@), p)
            } else {
                sqrt_consistent::<T>(x0, models(xf@), models(mem@), status.phase, status.lev as nat, p)
            } by {
                assert(sqrt_consistent::<T>(x0, xs, ms, ph, lv, p));
            }
        }
        steps_rem = r.1;
        if r.0 {
            return (true, steps_rem);
        }
    }
    (false, 0)
}

/// The two vectors are of the same kind.
pub open spec fn fvt_same_kind(a: FFTVectorTypes, b: FFTVectorTypes) -> bool {
    match (a, b) {
        (FFTVectorTypes::XF(_), FFTVectorTypes::XF(_)) => true,
        (FFTVectorTypes::XG1(_), FFTVectorTypes::XG1(_)) => true,
        (FFTVectorTypes::XG2(_), FFTVectorTypes::XG2(_)) => true,
        _ => false,
    }
}

/// A round of a stepped transform, on vectors of one kind.
pub open spec fn fvt_round(
    x: FFTVectorTypes,
    mem: FFTVectorTypes,
    ph: FftPhase,
    lv: nat,
    x2: FFTVectorTypes,
    mem2: FFTVectorTypes,
    ph2: FftPhase,
    lv2: nat,
    fin: bool,
    used: nat,
    p: SqrtPlan,
    u2: nat,
) -> bool {
    match (x, mem, x2, mem2) {
        (FFTVectorTypes::XF(a), FFTVectorTypes::XF(b), FFTVectorTypes::XF(a2), FFTVectorTypes::XF(b2)) =>
            sqrt_round::<Scalar>(models(a@), models(b@), ph, lv, models(a2@), models(b2@), ph2, lv2, fin, used, p, u2),
        (FFTVectorTypes::XG1(a), FFTVectorTypes::XG1(b), FFTVectorTypes::XG1(a2), FFTVectorTypes::XG1(b2)) =>
            sqrt_round::<G1Point>(models(a@), models(b@), ph, lv, models(a2@), models(b2@), ph2, lv2, fin, used, p, u2),
        (FFTVectorTypes::XG2(a), FFTVectorTypes::XG2(b), FFTVectorTypes::XG2(a2), FFTVectorTypes::XG2(b2)) =>
            sqrt_round::<G2Point>(models(a@), models(b@), ph, lv, models(a2@), models(b2@), ph2, lv2, fin, used, p, u2),
        _ => false,
    }
}

/// The vector and the scratch are where a stepped transform of `x0` stands.
pub open spec fn fvt_consistent(
    x0: FFTVectorTypes,
    x: FFTVectorTypes,
    mem: FFTVectorTypes,
    ph: FftPhase,
    lv: nat,
    p: SqrtPlan,
) -> bool {
    match (x0, x, mem) {
        (FFTVectorTypes::XF(a0), FFTVectorTypes::XF(a), FFTVectorTypes::XF(b)) =>
            sqrt_consistent::<Scalar>(models(a0@), models(a@), models(b@), ph, lv, p),
        (FFTVectorTypes::XG1(a0), FFTVectorTypes::XG1(a), FFTVectorTypes::XG1(b)) =>
            sqrt_consistent::<G1Point>(models(a0@), models(a@), models(b@), ph, lv, p),
        (FFTVectorTypes::XG2(a0), FFTVectorTypes::XG2(a), FFTVectorTypes::XG2(b)) =>
            sqrt_consistent::<G2Point>(models(a0@), models(a@), models(b@), ph, lv, p),
        _ => false,
    }
}

/// `x` is the completed stepped transform of `x0`.
pub open spec fn fvt_done(x0: FFTVectorTypes, x: FFTVectorTypes, p: SqrtPlan) -> bool {
    match (x0, x) {
        (FFTVectorTypes::XF(a0), FFTVectorTypes::XF(a)) => sqrt_done::<Scalar>(models(a0@), models(a@), p),
        (FFTVectorTypes::XG1(a0), FFTVectorTypes::XG1(a)) => sqrt_done::<G1Point>(models(a0@), models(a@), p),
        (FFTVectorTypes::XG2(a0), FFTVectorTypes::XG2(a)) => sqrt_done::<G2Point>(models(a0@), models(a@), p),
        _ => false,
    }
}

/// step forward sqrt FFT: one unit of work of the stepped transform of the
/// square at the head of `x`, with the rows transformed by the four-step FFT
/// of `haf_info`. Returns whether the transform ended.
pub fn sqrt_fft_fw(
    haf_info: &CustomParaFFT,
    sqrt_fft_info: &CustomParaFFT,
    x: &mut FFTVectorTypes,
    status: &mut SqrtFftStatus,
    mem_for_transpose: &mut FFTVectorTypes,
) -> (finished: bool)
    requires
        fvt_same_kind(*old(x), *old(mem_for_transpose)),
        steps_ready(*haf_info, *sqrt_fft_info, fvt_len(*old(x)), fvt_len(*old(mem_for_transpose))),
        sqrt_status_ok(
            old(status).spec_phase(),
            old(status).spec_lev(),
            pow2((sqrt_fft_info.log_n / 2) as nat),
            copy_unit(pow2((sqrt_fft_info.log_n / 2) as nat)),
        ),
    ensures
        fvt_len(*final(x)) == fvt_len(*old(x)),
        fvt_len(*final(mem_for_transpose)) == fvt_len(*old(mem_for_transpose)),
        final(status).spec_is_rev() == old(status).spec_is_rev(),
        fvt_round(
            *old(x),
            *old(mem_for_transpose),
            old(status).spec_phase(),
            old(status).spec_lev(),
            *final(x),
            *final(mem_for_transpose),
            final(status).spec_phase(),
            final(status).spec_lev(),
            finished,
            1,
            plan_of(*haf_info, *sqrt_fft_info, old(status).spec_is_rev()),
            copy_unit(pow2((sqrt_fft_info.log_n / 2) as nat)),
        ),
{
    match x {
        FFTVectorTypes::XF(xf) => match mem_for_transpose {
            FFTVectorTypes::XF(copy) => sqrt_steps_core(haf_info, sqrt_fft_info, xf, status, copy, 1, true).0,
            _ => {
                proof {
                    assert(false);
                }
                false
            },
        },
        FFTVectorTypes::XG1(xg1) => match mem_for_transpose {
            FFTVectorTypes::XG1(copy) => sqrt_steps_core(haf_info, sqrt_fft_info, xg1, status, copy, 1, true).0,
            _ => {
                proof {
                    assert(false);
                }
                false
            },
        },
        FFTVectorTypes::XG2(xg2) => match mem_for_transpose {
            FFTVectorTypes::XG2(copy) => sqrt_steps_core(haf_info, sqrt_fft_info, xg2, status, copy, 1, true).0,
            _ => {
                proof {
                    assert(false);
                }
                false
            },
        },
    }
}

/// The plan of a stepped transform with the full tables `info`, whose rows
/// are transformed with the powers of `g`.
pub open spec fn sub_plan(g: nat, info: CustomParaFFT, rev: bool) -> SqrtPlan {
    let h = (info.log_n / 2) as nat;
    let m = pow2(h);
    SqrtPlan {
        m,
        rl: h / 2,
        cl: (h - h / 2) as nat,
        rtw: if rev {
            powers(finv(g), m)
        } else {
            powers(g, m)
        },
        tw: twiddles(info, rev),
        inverse: rev,
    }
}

/// The full tables fit a stepped transform, with rows of at least two
/// entries, of a vector of length `xlen` with a scratch of length `mlen`.
pub open spec fn sub_ready(info: CustomParaFFT, xlen: nat, mlen: nat) -> bool {
    let m = pow2((info.log_n / 2) as nat);
    &&& m >= 2
    &&& m * m <= xlen
    &&& m * m <= mlen
    &&& info.omegas@.len() >= m * m
    &&& info.omega_invs@.len() >= m * m
}

/// The ceiling of the logarithm of a power of two is its exponent.
pub(crate) proof fn lemma_log2_of_pow2(l: nat, h: nat)
    requires
        is_log2_ceil(l, pow2(h)),
    ensures
        l == h,
{
    if l < h {
        lemma_pow2_strictly_increases(l, h);
    }
    if l > h {
        if (l - 1) as nat > h {
            lemma_pow2_strictly_increases(h, (l - 1) as nat);
        }
    }
}

/// The tables of the row transforms over the subgroup of `sub_domain`, for
/// the side of the square of `info`.
fn sub_tables(
    sub_domain: &GeneralEvaluationDomain,
    info: &CustomParaFFT,
    Ghost(xlen): Ghost<nat>,
    Ghost(mlen): Ghost<nat>,
    Ghost(rev): Ghost<bool>,
) -> (haf: CustomParaFFT)
    requires
        sub_ready(*info, xlen, mlen),
        xlen <= usize::MAX,
    ensures
        steps_ready(haf, *info, xlen, mlen),
        plan_of(haf, *info, rev) == sub_plan(root_of_unity_of(sub_domain.spec_size()), *info, rev),
{
    let haf_log = info.log_n / 2;
    proof {
        lemma_pow2_pos(haf_log as nat);
        assert(pow2(haf_log as nat) <= usize::MAX) by (nonlinear_arith)
            requires
                pow2(haf_log as nat) * pow2(haf_log as nat) <= xlen,
                xlen <= usize::MAX,
                pow2(haf_log as nat) >= 1,
        ;
    }
    let m = pow2_usize(haf_log);
    let g = sub_domain.group_gen();
    let haf = CustomParaFFT::new(m, g);
    proof {
        lemma_log2_of_pow2(haf.log_n as nat, haf_log as nat);
        let p1 = plan_of(haf, *info, rev);
        let p2 = sub_plan(g@, *info, rev);
        assert(models(haf.omegas@) =~= powers(g@, m as nat));
        assert(models(haf.omega_invs@) =~= powers(finv(g@), m as nat));
        assert(p1.rtw == p2.rtw);
    }
    haf
}

/// a step of sbs FFT for field: at most `steps` units of work of the stepped
/// transform of the square at the head of `xf`, with the rows transformed
/// by the four-step FFT over the subgroup generated by the generator of
/// `sub_domain`. Returns whether the transform ended, and the units left.
pub fn sqrt_fft_fw_field(
    sub_domain: &GeneralEvaluationDomain,
    sqrt_fft_info: &CustomParaFFT,
    xf: &mut Vec<Scalar>,
    status: &mut SqrtFftStatus,
    mem_for_transpose: &mut Vec<Scalar>,
    steps: usize,
) -> (r: (bool, usize))
    requires
        sub_ready(*sqrt_fft_info, old(xf)@.len(), old(mem_for_transpose)@.len()),
        sqrt_status_ok(
            old(status).spec_phase(),
            old(status).spec_lev(),
            pow2((sqrt_fft_info.log_n / 2) as nat),
            transpose_unit(pow2((sqrt_fft_info.log_n / 2) as nat)),
        ),
    ensures
        final(xf)@.len() == old(xf)@.len(),
        final(mem_for_transpose)@.len() == old(mem_for_transpose)@.len(),
        final(status).spec_is_rev() == old(status).spec_is_rev(),
        r.1 <= steps,
        !r.0 ==> r.1 == 0,
        r.0 ==> r.1 < steps,
        sqrt_round::<Scalar>(
            models(old(xf)@),
            models(old(mem_for_transpose)@),
            old(status).spec_phase(),
            old(status).spec_lev(),
            models(final(xf)@),
            models(final(mem_for_transpose)@),
            final(status).spec_phase(),
            final(status).spec_lev(),
            r.0,
            (steps - r.1) as nat,
            sub_plan(root_of_unity_of(sub_domain.spec_size()), *sqrt_fft_info, old(status).spec_is_rev()),
            transpose_unit(pow2((sqrt_fft_info.log_n / 2) as nat)),
        ),
{
    let xl = xf.len();
    let haf = sub_tables(
        sub_domain,
        sqrt_fft_info,
        Ghost(xf@.len()),
        Ghost(mem_for_transpose@.len()),
        Ghost(status.is_rev),
    );
    sqrt_steps_core(&haf, sqrt_fft_info, xf, status, mem_for_transpose, steps, false)
}

/// a step of sbs FFT for g1: at most `steps` units of work of the stepped
/// transform of the square at the head of `xf`, with the rows transformed
/// by the four-step FFT over the subgroup generated by the generator of
/// `sub_domain`. Returns whether the transform ended, and the units left.
pub fn sqrt_fft_fw_g1(
    sub_domain: &GeneralEvaluationDomain,
    sqrt_fft_info: &CustomParaFFT,
    xg1: &mut Vec<G1Point>,
    status: &mut SqrtFftStatus,
    mem_for_transpose: &mut Vec<G1Point>,
    steps: usize,
) -> (r: (bool, usize))
    requires
        sub_ready(*sqrt_fft_info, old(xg1)@.len(), old(mem_for_transpose)@.len()),
        sqrt_status_ok(
            old(status).spec_phase(),
            old(status).spec_lev(),
            pow2((sqrt_fft_info.log_n / 2) as nat),
            transpose_unit(pow2((sqrt_fft_info.log_n / 2) as nat)),
        ),
    ensures
        final(xg1)@.len() == old(xg1)@.len(),
        final(mem_for_transpose)@.len() == old(mem_for_transpose)@.len(),
        final(status).spec_is_rev() == old(status).spec_is_rev(),
        r.1 <= steps,
        !r.0 ==> r.1 == 0,
        r.0 ==> r.1 < steps,
        sqrt_round::<G1Point>(
            models(old(xg1)@),
            models(old(mem_for_transpose)@),
            old(status).spec_phase(),
            old(status).spec_lev(),
            models(final(xg1)@),
            models(final(mem_for_transpose)@),
            final(status).spec_phase(),
            final(status).spec_lev(),
            r.0,
            (steps - r.1) as nat,
            sub_plan(root_of_unity_of(sub_domain.spec_size()), *sqrt_fft_info, old(status).spec_is_rev()),
            transpose_unit(pow2((sqrt_fft_info.log_n / 2) as nat)),
        ),
{
    let xl = xg1.len();
    let haf = sub_tables(
        sub_domain,
        sqrt_fft_info,
        Ghost(xg1@.len()),
        Ghost(mem_for_transpose@.len()),
        Ghost(status.is_rev),
    );
    sqrt_steps_core(&haf, sqrt_fft_info, xg1, status, mem_for_transpose, steps, false)
}

/// A status the stepped transform can stand at has work left.
pub(crate) proof fn lemma_progress_bound(ph: FftPhase, lev: nat, m: nat, uc: nat, ut1: nat, ut2: nat)
    requires
        sqrt_status_ok(ph, lev, m, ut2),
        uc == copy_unit(m),
        ut1 == transpose_unit(m),
        uc >= 1,
        ut1 >= 1,
        ut2 >= 1,
        m % uc == 0,
        m % ut1 == 0,
        m % ut2 == 0,
        (2 * m) / uc == 2 * (m / uc),
        (2 * m) % uc == 0,
    ensures
        sqrt_progress(ph, lev, m, ut2) < sqrt_total(m, ut2),
{
    vstd::arithmetic::div_mod::lemma_fundamental_div_mod(m as int, ut2 as int);
    assert(m / ut2 >= 1) by (nonlinear_arith)
        requires
            m == ut2 * (m / ut2),
            m >= 1,
            ut2 >= 1,
            m % ut2 == 0,
    {
        if m / ut2 <= 0 {
            assert(ut2 * (m / ut2) <= 0);
        }
    }
    if ph == FftPhase::PreTranspose || ph == FftPhase::SufTranspose {
        lemma_chunk(lev, 2 * m, uc, 0);
        vstd::arithmetic::div_mod::lemma_fundamental_div_mod(lev as int, uc as int);
        vstd::arithmetic::div_mod::lemma_fundamental_div_mod((2 * m) as int, uc as int);
        assert(lev / uc < (2 * m) / uc) by (nonlinear_arith)
            requires
                lev == uc * (lev / uc),
                2 * m == uc * ((2 * m) / uc),
                lev < 2 * m,
                uc >= 1,
        ;
    } else if ph == FftPhase::TRANSPOSE {
        if lev <= m {
            vstd::arithmetic::div_mod::lemma_div_is_ordered(lev as int, m as int, ut1 as int);
        } else {
            let d = (lev - m) as nat;
            vstd::arithmetic::div_mod::lemma_fundamental_div_mod(d as int, ut2 as int);
            assert(d / ut2 < m / ut2) by (nonlinear_arith)
                requires
                    d == ut2 * (d / ut2),
                    m == ut2 * (m / ut2),
                    d < m,
                    ut2 >= 1,
            ;
        }
    }
}

/// A copy of the vector.
pub(crate) fn copy_vec<T: Copy>(v: &Vec<T>) -> (r: Vec<T>)
    ensures
        r@ == v@,
{
    let mut r: Vec<T> = Vec::with_capacity(v.len());
    let mut i: usize = 0;
    while i < v.len()
        invariant
            i <= v@.len(),
            r@ == v@.take(i as int),
        decreases v@.len() - i,
    {
        r.push(v[i]);
        i = i + 1;
        proof {
            assert(r@ =~= v@.take(i as int));
        }
    }
    proof {
        assert(v@.take(v@.len() as int) =~= v@);
    }
    r
}

/// A copy of the vector, of the same kind.
pub fn fvt_copy(x: &FFTVectorTypes) -> (r: FFTVectorTypes)
    ensures
        fvt_same_kind(r, *x),
        fvt_len(r) == fvt_len(*x),
        match (r, *x) {
            (FFTVectorTypes::XF(a), FFTVectorTypes::XF(b)) => a@ == b@,
            (FFTVectorTypes::XG1(a), FFTVectorTypes::XG1(b)) => a@ == b@,
            (FFTVectorTypes::XG2(a), FFTVectorTypes::XG2(b)) => a@ == b@,
            _ => false,
        },
{
    match x {
        FFTVectorTypes::XF(v) => FFTVectorTypes::XF(copy_vec(v)),
        FFTVectorTypes::XG1(v) => FFTVectorTypes::XG1(copy_vec(v)),
        FFTVectorTypes::XG2(v) => FFTVectorTypes::XG2(copy_vec(v)),
    }
}

/// A round of the stepped transform keeps it where it should stand.
proof fn lemma_fvt_round_step(
    x0: FFTVectorTypes,
    x: FFTVectorTypes,
    mem: FFTVectorTypes,
    ph: FftPhase,
    lv: nat,
    x2: FFTVectorTypes,
    mem2: FFTVectorTypes,
    ph2: FftPhase,
    lv2: nat,
    fin: bool,
    used: nat,
    p: SqrtPlan,
    u2: nat,
)
    requires
        fvt_consistent(x0, x, mem, ph, lv, p),
        fvt_round(x, mem, ph, lv, x2, mem2, ph2, lv2, fin, used, p, u2),
    ensures
        fin ==> fvt_done(x0, x2, p),
        !fin ==> fvt_consistent(x0, x2, mem2, ph2, lv2, p),
{
    match (x0, x, mem, x2, mem2) {
        (FFTVectorTypes::XF(a0), FFTVectorTypes::XF(a), FFTVectorTypes::XF(b), FFTVectorTypes::XF(a2), FFTVectorTypes::XF(b2)) => {
            assert(sqrt_consistent::<Scalar>(models(a0@), models(a@), models(b@), ph, lv, p));
        },
        (FFTVectorTypes::XG1(a0), FFTVectorTypes::XG1(a), FFTVectorTypes::XG1(b), FFTVectorTypes::XG1(a2), FFTVectorTypes::XG1(b2)) => {
            assert(sqrt_consistent::<G1Point>(models(a0@), models(a@), models(b@), ph, lv, p));
        },
        (FFTVectorTypes::XG2(a0), FFTVectorTypes::XG2(a), FFTVectorTypes::XG2(b), FFTVectorTypes::XG2(a2), FFTVectorTypes::XG2(b2)) => {
            assert(sqrt_consistent::<G2Point>(models(a0@), models(a@), models(b@), ph, lv, p));
        },
        _ => {},
    }
}

/// Step by Step Sqrt FFT: the stepped transform of the whole vector, one
/// unit of work at a time, with the rows transformed by the four-step FFT
/// over the subgroup of order `sqrt(n)`.
pub fn sbs_sqrt_fft(fft_info: &CustomParaFFT, x: &mut FFTVectorTypes, is_rev: bool)
    requires
        fft_info.log_n % 2 == 0,
        fft_info.log_n >= 2,
        fft_info.n == pow2(fft_info.log_n as nat),
        fvt_len(*old(x)) == fft_info.n,
        fft_info.omegas@.len() >= fft_info.n,
        fft_info.omega_invs@.len() >= fft_info.n,
    ensures
        fvt_done(
            *old(x),
            *final(x),
            sub_plan(root_of_unity_of(pow2((fft_info.log_n / 2) as nat)), *fft_info, is_rev),
        ),
{
    let haf_log = fft_info.log_n / 2;
    proof {
        lemma_square(fft_info.log_n as nat);
        assert(pow2(haf_log as nat) <= usize::MAX) by (nonlinear_arith)
            requires
                pow2(haf_log as nat) * pow2(haf_log as nat) <= usize::MAX,
                pow2(haf_log as nat) > 0,
        ;
        lemma2_to64();
        if haf_log > 32 {
            lemma_pow2_strictly_increases(32, haf_log as nat);
            assert(pow2(haf_log as nat) * pow2(haf_log as nat) > 0x1_0000_0000 * 0x1_0000_0000) by (nonlinear_arith)
                requires
                    pow2(haf_log as nat) > 0x1_0000_0000,
            ;
        }
        if haf_log < 32 {
            lemma_pow2_strictly_increases(haf_log as nat, 32);
        }
        lemma_pow2_unfold(haf_log as nat);
        lemma_pow2_pos((haf_log - 1) as nat);
        lemma_units_all(haf_log as nat, true);
    }
    let sub_domain_size = pow2_usize(haf_log);
    let sub_domain = match GeneralEvaluationDomain::new(sub_domain_size) {
        Some(d) => d,
        None => {
            proof {
                assert(false);
            }
            return ;
        },
    };
    proof {
        assert(sub_domain.spec_size() == sub_domain_size) by {
            let k = choose|k: nat| sub_domain.spec_size() == pow2(k);
            if sub_domain.spec_size() > sub_domain_size {
                if k > haf_log {
                    lemma_pow2_unfold(k);
                    if (k - 1) as nat > haf_log as nat {
                        lemma_pow2_strictly_increases(haf_log as nat, (k - 1) as nat);
                    }
                } else if k < haf_log {
                    lemma_pow2_strictly_increases(k, haf_log as nat);
                }
            }
        }
    }
    let g = sub_domain.group_gen();
    let sub_info = CustomParaFFT::new(sub_domain_size, g);
    let ghost m = sub_domain_size as nat;
    let ghost p = plan_of(sub_info, *fft_info, is_rev);
    let ghost uc = copy_unit(m);
    let ghost x0 = *x;
    proof {
        lemma_log2_of_pow2(sub_info.log_n as nat, haf_log as nat);
        assert(models(sub_info.omegas@) =~= powers(g@, m));
        assert(models(sub_info.omega_invs@) =~= powers(finv(g@), m));
        assert(p == sub_plan(root_of_unity_of(m), *fft_info, is_rev));
        lemma_double_div(m, uc);
        let n = fft_info.n as nat;
        assert(n == m * m);
        match x0 {
            FFTVectorTypes::XF(a) => {
                assert(models(a@).take((m * m) as int) =~= sqrt_stage::<Scalar>(models(a@), p, 0));
            },
            FFTVectorTypes::XG1(a) => {
                assert(models(a@).take((m * m) as int) =~= sqrt_stage::<G1Point>(models(a@), p, 0));
            },
            FFTVectorTypes::XG2(a) => {
                assert(models(a@).take((m * m) as int) =~= sqrt_stage::<G2Point>(models(a@), p, 0));
            },
        }
    }
    let mut status = SqrtFftStatus::new(is_rev);
    let mut mem_for_traspose = fvt_copy(x);
    proof {
        assert(fvt_consistent(x0, *x, mem_for_traspose, status.phase, status.lev as nat, p));
    }
    loop
        invariant_except_break
            fvt_consistent(x0, *x, mem_for_traspose, status.phase, status.lev as nat, p),
        invariant
            x0 == *old(x),
            p == plan_of(sub_info, *fft_info, is_rev),
            p.m == m,
            m == pow2((fft_info.log_n / 2) as nat),
            uc == copy_unit(m),
            m % uc == 0,
            m % transpose_unit(m) == 0,
            uc >= 1,
            transpose_unit(m) >= 1,
            (2 * m) / uc == 2 * (m / uc),
            (2 * m) % uc == 0,
            status.is_rev == is_rev,
            fvt_same_kind(*x, mem_for_traspose),
            fvt_len(*x) == fft_info.n,
            fvt_len(mem_for_traspose) == fft_info.n,
            fft_info.n == m * m,
            steps_ready(sub_info, *fft_info, fvt_len(*x), fvt_len(mem_for_traspose)),
            sqrt_status_ok(status.phase, status.lev as nat, m, uc),
        ensures
            fvt_done(x0, *x, p),
        decreases sqrt_total(m, uc) - sqrt_progress(status.phase, status.lev as nat, m, uc),
    {
        let ghost xb = *x;
        let ghost mb = mem_for_traspose;
        let ghost sb = status;
        proof {
            lemma_progress_bound(status.phase, status.lev as nat, m, uc, transpose_unit(m), uc);
        }
        let finish = sqrt_fft_fw(&sub_info, fft_info, x, &mut status, &mut mem_for_traspose);
        proof {
            lemma_fvt_round_step(
                x0,
                xb,
                mb,
                sb.phase,
                sb.lev as nat,
                *x,
                mem_for_traspose,
                status.phase,
                status.lev as nat,
                finish,
                1,
                p,
                uc,
            );
            assert(fvt_same_kind(*x, mem_for_traspose)) by {
                match (xb, mb, *x, mem_for_traspose) {
                    (FFTVectorTypes::XF(_), FFTVectorTypes::XF(_), FFTVectorTypes::XF(_), FFTVectorTypes::XF(_)) => {},
                    (FFTVectorTypes::XG1(_), FFTVectorTypes::XG1(_), FFTVectorTypes::XG1(_), FFTVectorTypes::XG1(_)) => {},
                    (FFTVectorTypes::XG2(_), FFTVectorTypes::XG2(_), FFTVectorTypes::XG2(_), FFTVectorTypes::XG2(_)) => {},
                    _ => {},
                }
            }
        }
        if finish {
            break ;
        }
    }
}

/// Record a status of a FFT thread
#[derive(Clone, Debug)]
pub struct FftStatu {
    /// Record whether is the reversion
    pub is_rev: bool,
    /// Record current level
    pub lev: i32,
    /// Record current position
    pub id: usize,
    /// Record id of all Threads
    pub ids: Vec<usize>,
}

impl FftStatu {
    /// Create a mew FFT Statu
    pub fn new(is_rev: bool) -> (r: Self)
        ensures
            r.is_rev == is_rev,
            r.lev == -1,
            r.id == 0,
            r.ids@ == seq![0usize],
    {
        let lev: i32 = -1;
        let id: usize = 0;
        let mut ids: Vec<usize> = Vec::new();
        ids.push(0);
        proof {
            assert(ids@ =~= seq![0usize]);
        }
        Self { is_rev, lev, id, ids }
    }
}

/// The tables of a radix-two FFT of size `n = 2^log_n`, with at least one
/// swap in the bit reversal.
pub open spec fn fft_info_ok(info: CustomParaFFT) -> bool {
    &&& 1 <= info.log_n < 64
    &&& info.n == pow2(info.log_n as nat)
    &&& info.omegas@.len() == info.n
    &&& info.omega_invs@.len() == info.n
    &&& tasks_ok(info.bit_rev_task@, info.n as nat)
    &&& info.bit_rev_task@.len() >= 2
    &&& info.len_thread == info.n
}

/// A status the stepwise radix-two FFT can stand at: the next swap pair,
/// the next butterfly (its lower position), or the next entry to scale.
pub open spec fn fft_stat_ok(info: CustomParaFFT, st: FftStatu) -> bool {
    &&& st.ids@.len() == N_THREADS
    &&& -1 <= st.lev <= info.log_n
    &&& st.lev == -1 ==> st.id % 2 == 0 && st.id + 2 <= info.bit_rev_task@.len()
    &&& 0 <= st.lev < info.log_n ==> st.ids@[0] < info.n && (st.ids@[0] as nat) % pow2((st.lev + 1) as nat) < pow2(st.lev as nat)
        && st.id <= st.ids@[0]
    &&& st.lev == info.log_n ==> st.is_rev && st.id < info.n
}

/// The next lower position of a butterfly of level `lev` after `i`.
pub open spec fn fft_next_id(i: nat, lev: nat) -> nat {
    if ((i + 1) / pow2(lev)) % 2 == 1 {
        i + 1 + pow2(lev)
    } else {
        i + 1
    }
}

/// The status after a step from level `lev`, position `id`, butterfly
/// position `ids0`: the new level, position and butterfly position, and
/// whether the transform ended.
pub open spec fn fft_step_status(info: CustomParaFFT, lev: int, id: nat, ids0: nat, rev: bool) -> (int, nat, nat, bool) {
    let log_n = info.log_n as int;
    let n = info.n as nat;
    let go = if lev < 0 {
        id + 2 >= info.bit_rev_task@.len()
    } else if lev < log_n {
        fft_next_id(ids0, lev as nat) >= n
    } else {
        id + 1 >= n
    };
    let nid: nat = if lev < 0 {
        id + 2
    } else {
        id + 1
    };
    let nids0 = if 0 <= lev < log_n {
        fft_next_id(ids0, lev as nat)
    } else {
        ids0
    };
    if go {
        let nl = lev + 1;
        if nl > log_n || (nl >= log_n && !rev) {
            (-1, 0, nids0, true)
        } else if nl < log_n {
            (nl, 0, 0, false)
        } else {
            (nl, 0, nids0, false)
        }
    } else {
        (lev, nid, nids0, false)
    }
}

/// The vector after a step: the swap of a bit-reversal pair, a butterfly,
/// or the scaling of one entry by `1/n`.
pub open spec fn fft_step_vec<T: GroupElem>(
    x: Seq<T::Model>,
    info: CustomParaFFT,
    lev: int,
    id: nat,
    ids0: nat,
    rev: bool,
) -> Seq<T::Model> {
    if lev < 0 {
        let a = info.bit_rev_task@[id as int] as int;
        let b = info.bit_rev_task@[id as int + 1] as int;
        x.update(a, x[b]).update(b, x[a])
    } else if lev < info.log_n {
        let a = ids0 as int;
        let b = (ids0 + pow2(lev as nat)) as int;
        let w = butterfly_twiddle(info, ids0 % pow2(lev as nat), lev as nat, rev);
        x.update(a, T::m_add(x[a], T::m_scale(x[b], w))).update(b, T::m_sub(x[a], T::m_scale(x[b], w)))
    } else {
        x.update(id as int, T::m_scale(x[id as int], info.inv_n@))
    }
}

/// The logarithm of a size that fits in a machine integer is below its
/// width.
proof fn lemma_log_n_bits(info: CustomParaFFT)
    requires
        fft_info_ok(info),
    ensures
        info.log_n < usize::BITS,
{
    if usize::BITS == 32 {
        lemma2_to64();
        if info.log_n >= 32 {
            if info.log_n > 32 {
                lemma_pow2_strictly_increases(32, info.log_n as nat);
            }
            assert(false);
        }
    }
}

/// The lower position of a butterfly, its partner and its twiddle fit.
proof fn lemma_butterfly_pos(info: CustomParaFFT, i: nat, lev: nat)
    requires
        fft_info_ok(info),
        lev < info.log_n,
        i < info.n,
        i % pow2(lev + 1) < pow2(lev),
    ensures
        i + pow2(lev) < info.n,
        butterfly_in_range(info, i % pow2(lev), lev),
        fft_next_id(i, lev) <= info.n,
        fft_next_id(i, lev) < info.n ==> fft_next_id(i, lev) % pow2(lev + 1) < pow2(lev),
        pow2(lev) <= usize::MAX,
        pow2(lev) > 0,
{
    let p = pow2(lev);
    let n = info.n as nat;
    let l = info.log_n as nat;
    lemma_pow2_pos(lev);
    lemma_pow2_unfold(lev + 1);
    lemma_pow2_adds(lev + 1, (l - lev - 1) as nat);
    let q = pow2((l - lev - 1) as nat);
    assert(n == 2 * p * q);
    lemma_pow2_pos((l - lev - 1) as nat);
    lemma_pow2_strictly_increases(lev, l);
    // i = 2p * a + r with r < p
    let a = i / (2 * p);
    let r = i % (2 * p);
    vstd::arithmetic::div_mod::lemma_fundamental_div_mod(i as int, (2 * p) as int);
    assert(a < q) by (nonlinear_arith)
        requires
            i == 2 * p * a + r,
            0 <= r,
            i < 2 * p * q,
            p > 0,
    ;
    assert(i + p < n) by (nonlinear_arith)
        requires
            i == 2 * p * a + r,
            r < p,
            a < q,
            n == 2 * p * q,
            a >= 0,
    ;
    // the twiddle index
    assert(i % p == r) by {
        assert(i == (2 * a) * p + r) by (nonlinear_arith)
            requires
                i == 2 * p * a + r,
        ;
        vstd::arithmetic::div_mod::lemma_fundamental_div_mod_converse(i as int, p as int, (2 * a) as int, r as int);
    }
    assert(lev < usize::BITS) by {
        assert(l < 64);
        if usize::BITS == 32 {
            lemma2_to64();
            if l >= 32 {
                if l > 32 {
                    lemma_pow2_strictly_increases(32, l);
                }
                assert(false);
            }
        }
    }
    vstd::bits::lemma_usize_shr_is_div(info.n, lev as usize);
    let s1 = info.n >> (lev as usize);
    assert(s1 == n / p);
    vstd::arithmetic::div_mod::lemma_div_multiples_vanish((2 * q) as int, p as int);
    assert(n / p == 2 * q) by {
        assert(n == p * (2 * q)) by (nonlinear_arith)
            requires
                n == 2 * p * q,
        ;
    }
    vstd::bits::lemma_usize_shr_is_div(s1, 1);
    lemma2_to64();
    assert((s1 >> 1usize) == q);
    assert(r * q < n) by (nonlinear_arith)
        requires
            r < p,
            n == 2 * p * q,
            q > 0,
    ;
    assert(info.n >> lev == s1);
    // the next position
    let j = i + 1;
    vstd::arithmetic::div_mod::lemma_fundamental_div_mod(j as int, p as int);
    if r + 1 < p {
        assert(j == 2 * p * a + (r + 1));
        assert(j == (2 * a) * p + (r + 1)) by (nonlinear_arith)
            requires
                j == 2 * p * a + (r + 1),
        ;
        vstd::arithmetic::div_mod::lemma_fundamental_div_mod_converse(j as int, p as int, (2 * a) as int, (r + 1) as int);
        vstd::arithmetic::div_mod::lemma_mod_multiples_vanish(a as int, 0, 2);
        assert((2 * a) % 2 == 0) by (nonlinear_arith);
        assert(fft_next_id(i, lev) == j);
        assert(j == a * (2 * p) + (r + 1)) by (nonlinear_arith)
            requires
                j == 2 * p * a + (r + 1),
        ;
        vstd::arithmetic::div_mod::lemma_fundamental_div_mod_converse(
            j as int,
            (2 * p) as int,
            a as int,
            (r + 1) as int,
        );
    } else {
        assert(r + 1 == p);
        assert(j == (2 * a + 1) * p) by (nonlinear_arith)
            requires
                j == 2 * p * a + r + 1,
                r + 1 == p,
        ;
        vstd::arithmetic::div_mod::lemma_fundamental_div_mod_converse(j as int, p as int, (2 * a + 1) as int, 0);
        assert((2 * a + 1) % 2 == 1) by (nonlinear_arith);
        assert(fft_next_id(i, lev) == j + p);
        assert(j + p == 2 * p * (a + 1)) by (nonlinear_arith)
            requires
                j == (2 * a + 1) * p,
        ;
        assert(j + p <= n) by (nonlinear_arith)
            requires
                j + p == 2 * p * (a + 1),
                a < q,
                n == 2 * p * q,
                p > 0,
        ;
        assert(j + p == (a + 1) * (2 * p) + 0) by (nonlinear_arith)
            requires
                j + p == 2 * p * (a + 1),
        ;
        vstd::arithmetic::div_mod::lemma_fundamental_div_mod_converse(
            (j + p) as int,
            (2 * p) as int,
            (a + 1) as int,
            0,
        );
    }
}

/// A step of the radix-two FFT over any element type.
#[verifier::spinoff_prover]
#[verifier::rlimit(50)]
fn fft_forward_core<T: GroupElem>(fft_info: &CustomParaFFT, fft_stat: &mut FftStatu, x: &mut Vec<T>) -> (r: bool)
    requires
        fft_info_ok(*fft_info),
        fft_stat_ok(*fft_info, *old(fft_stat)),
        old(x)@.len() == fft_info.n,
    ensures
        ({
            let st = fft_step_status(
                *fft_info,
                old(fft_stat).lev as int,
                old(fft_stat).id as nat,
                old(fft_stat).ids@[0] as nat,
                old(fft_stat).is_rev,
            );
            &&& final(fft_stat).lev == st.0
            &&& final(fft_stat).id == st.1
            &&& final(fft_stat).ids@ == seq![st.2 as usize]
            &&& r == st.3
        }),
        final(fft_stat).is_rev == old(fft_stat).is_rev,
        fft_stat_ok(*fft_info, *final(fft_stat)),
        final(x)@.len() == old(x)@.len(),
        models(final(x)@) == fft_step_vec::<T>(
            models(old(x)@),
            *fft_info,
            old(fft_stat).lev as int,
            old(fft_stat).id as nat,
            old(fft_stat).ids@[0] as nat,
            old(fft_stat).is_rev,
        ),
{
    let ghost x0 = models(x@);
    let ghost st0 = *fft_stat;
    let ghost stn = fft_step_status(*fft_info, st0.lev as int, st0.id as nat, st0.ids@[0] as nat, st0.is_rev);
    let id = fft_stat.id;
    let cur_lev = fft_stat.lev;
    let mut go_nxt_lev = false;
    let mut nxt_lev = fft_stat.lev;
    let tlen = fft_info.bit_rev_task.len();
    proof {
        lemma_pow2_strictly_increases(0, fft_info.log_n as nat);
        lemma2_to64();
        lemma_log_n_bits(*fft_info);
        if cur_lev >= 0 && cur_lev < fft_info.log_n {
            lemma_butterfly_pos(*fft_info, st0.ids@[0] as nat, cur_lev as nat);
        }
    }
    let mut nxt_id = fft_stat.id + N_THREADS;
    if cur_lev < 0 {
        let a = fft_info.bit_rev_task[id];
        let b = fft_info.bit_rev_task[id + 1];
        let xa = x[a];
        let xb = x[b];
        x.set(a, xb);
        x.set(b, xa);
        proof {
            assert(models(x@) =~= fft_step_vec::<T>(x0, *fft_info, st0.lev as int, st0.id as nat, st0.ids@[0] as nat, st0.is_rev));
        }
        nxt_id = fft_stat.id + N_THREADS * 2;
        go_nxt_lev = nxt_id >= tlen;
    } else if cur_lev < (fft_info.log_n as i32) {
        let lev = cur_lev as usize;
        let pw = pow2_usize(lev);
        let i0 = fft_stat.ids[0];
        let a = i0;
        let b = i0 + pw;
        let mut xa = x[a];
        let mut xb = x[b];
        fft_info.butterfly(&mut xa, &mut xb, i0 % pw, lev, fft_stat.is_rev);
        x.set(a, xa);
        x.set(b, xb);
        proof {
            assert(models(x@) =~= fft_step_vec::<T>(x0, *fft_info, st0.lev as int, st0.id as nat, st0.ids@[0] as nat, st0.is_rev));
        }
        let mut v = i0 + 1;
        if (v / pw) % 2 == 1 {
            v = v + pw;
        }
        let mut ids: Vec<usize> = Vec::new();
        ids.push(v);
        fft_stat.ids = ids;
        go_nxt_lev = v >= fft_info.n;
    } else {
        let xi = x[id].elem_scale(&fft_info.inv_n);
        x.set(id, xi);
        proof {
            assert(models(x@) =~= fft_step_vec::<T>(x0, *fft_info, st0.lev as int, st0.id as nat, st0.ids@[0] as nat, st0.is_rev));
        }
        go_nxt_lev = nxt_id >= fft_info.n;
    }
    if go_nxt_lev {
        nxt_id = 0;
        nxt_lev = nxt_lev + 1;
        let log_n = fft_info.log_n;
        if nxt_lev > (log_n as i32) {
            fft_stat.lev = -1;
            fft_stat.id = 0;
            return true;
        }
        if nxt_lev >= (log_n as i32) && !fft_stat.is_rev {
            fft_stat.lev = -1;
            fft_stat.id = 0;
            return true;
        }
        if 0 <= nxt_lev && nxt_lev < (log_n as i32) {
            let len_thread = fft_info.len_thread;
            let sh = (nxt_lev + 1) as usize;
            proof {
                vstd::bits::lemma_usize_shr_is_div(len_thread, sh);
                if (sh as nat) < log_n as nat {
                    lemma_pow2_strictly_increases(sh as nat, log_n as nat);
                }
                vstd::arithmetic::div_mod::lemma_div_by_self(len_thread as int);
                lemma_pow2_pos(sh as nat);
                vstd::arithmetic::div_mod::lemma_div_is_ordered(pow2(sh as nat) as int, len_thread as int, pow2(sh as nat) as int);
                vstd::arithmetic::div_mod::lemma_div_by_self(pow2(sh as nat) as int);
            }
            if (len_thread >> sh) > 0 {
                let mut ids: Vec<usize> = Vec::new();
                let mut j: usize = 0;
                while j < N_THREADS
                    invariant
                        j <= N_THREADS,
                        ids@.len() == j,
                        forall|q: int| 0 <= q < j ==> ids@[q] == 0,
                    decreases N_THREADS - j,
                {
                    assert(j == 0);
                    assert(j * len_thread == 0);
                    ids.push(j * len_thread);
                    j = j + 1;
                }
                proof {
                    assert(ids@ =~= seq![0usize]);
                }
                fft_stat.ids = ids;
            } else {
                proof {
                    assert(false);
                }
                let per_seg: usize = N_THREADS / pow2_usize(log_n - sh);
                let j: usize = 0;
                let mut ids: Vec<usize> = Vec::new();
                ids.push((j / per_seg) * pow2_usize(sh) + ((j % per_seg) * pow2_usize(sh - 1)) / per_seg);
                fft_stat.ids = ids;
            }
        }
        fft_stat.lev = nxt_lev;
    }
    fft_stat.id = nxt_id;
    proof {
        assert(fft_stat.ids@ =~= seq![stn.2 as usize]);
        assert(fft_stat.ids@.len() == N_THREADS);
        assert(-1 <= fft_stat.lev <= fft_info.log_n);
        if fft_stat.lev == -1 {
            assert(fft_stat.id % 2 == 0);
            assert(fft_stat.id + 2 <= tlen);
        }
        if 0 <= fft_stat.lev < fft_info.log_n {
            lemma_pow2_pos(fft_stat.lev as nat);
            lemma_pow2_pos((fft_stat.lev + 1) as nat);
            if go_nxt_lev {
                vstd::arithmetic::div_mod::lemma_small_mod(0, pow2((fft_stat.lev + 1) as nat));
            } else {
                assert(fft_stat.ids@[0] == fft_next_id(st0.ids@[0] as nat, st0.lev as nat));
            }
            assert(fft_stat.ids@[0] < fft_info.n);
            assert((fft_stat.ids@[0] as nat) % pow2((fft_stat.lev + 1) as nat) < pow2(fft_stat.lev as nat));
            assert(fft_stat.id <= fft_stat.ids@[0]);
        }
        if fft_stat.lev == fft_info.log_n {
            assert(fft_stat.is_rev);
            assert(fft_stat.id < fft_info.n);
        }
    }
    false
}

/// Do a step of fft: one swap of the bit reversal, one butterfly, or the
/// scaling of one entry, then the status of the next step. Returns whether
/// the transform ended.
fn fft_foward(fft_info: &CustomParaFFT, fft_stat: &mut FftStatu, x: &mut FFTVectorTypes) -> (r: bool)
    requires
        fft_info_ok(*fft_info),
        fft_stat_ok(*fft_info, *old(fft_stat)),
        fvt_len(*old(x)) == fft_info.n,
    ensures
        ({
            let st = fft_step_status(
                *fft_info,
                old(fft_stat).lev as int,
                old(fft_stat).id as nat,
                old(fft_stat).ids@[0] as nat,
                old(fft_stat).is_rev,
            );
            &&& final(fft_stat).lev == st.0
            &&& final(fft_stat).id == st.1
            &&& final(fft_stat).ids@ == seq![st.2 as usize]
            &&& r == st.3
        }),
        final(fft_stat).is_rev == old(fft_stat).is_rev,
        fft_stat_ok(*fft_info, *final(fft_stat)),
        fvt_len(*final(x)) == fvt_len(*old(x)),
        fvt_same_kind(*final(x), *old(x)),
        match (*old(x), *final(x)) {
            (FFTVectorTypes::XF(a), FFTVectorTypes::XF(b)) => models(b@) == fft_step_vec::<Scalar>(
                models(a@),
                *fft_info,
                old(fft_stat).lev as int,
                old(fft_stat).id as nat,
                old(fft_stat).ids@[0] as nat,
                old(fft_stat).is_rev,
            ),
            (FFTVectorTypes::XG1(a), FFTVectorTypes::XG1(b)) => models(b@) == fft_step_vec::<G1Point>(
                models(a@),
                *fft_info,
                old(fft_stat).lev as int,
                old(fft_stat).id as nat,
                old(fft_stat).ids@[0] as nat,
                old(fft_stat).is_rev,
            ),
            (FFTVectorTypes::XG2(a), FFTVectorTypes::XG2(b)) => models(b@) == fft_step_vec::<G2Point>(
                models(a@),
                *fft_info,
                old(fft_stat).lev as int,
                old(fft_stat).id as nat,
                old(fft_stat).ids@[0] as nat,
                old(fft_stat).is_rev,
            ),
            _ => false,
        },
{
    match x {
        FFTVectorTypes::XF(xf) => fft_forward_core(fft_info, fft_stat, xf),
        FFTVectorTypes::XG1(xg1) => fft_forward_core(fft_info, fft_stat, xg1),
        FFTVectorTypes::XG2(xg2) => fft_forward_core(fft_info, fft_stat, xg2),
    }
}

/// The work left to a stepwise radix-two FFT at a level, compared level
/// first, then by butterfly position, then by swap or scaling position.
pub open spec fn fft_work_left(info: CustomParaFFT, st: FftStatu) -> (int, int, int) {
    let lev = st.lev as int;
    let log_n = info.log_n as int;
    (
        log_n + 1 - lev,
        if 0 <= lev < log_n {
            info.n - st.ids@[0]
        } else {
            0
        },
        if lev < 0 {
            info.bit_rev_task@.len() - st.id
        } else if lev == log_n {
            info.n - st.id
        } else {
            0
        },
    )
}

/// A status of the stepwise radix-two FFT, by its parts.
pub open spec fn fft_parts_ok(info: CustomParaFFT, lev: int, id: nat, ids0: nat, rev: bool) -> bool {
    &&& -1 <= lev <= info.log_n
    &&& lev == -1 ==> id % 2 == 0 && id + 2 <= info.bit_rev_task@.len()
    &&& 0 <= lev < info.log_n ==> ids0 < info.n && ids0 % pow2((lev + 1) as nat) < pow2(lev as nat) && id <= ids0
    &&& lev == info.log_n ==> rev && id < info.n
}

/// The vector at the end of the stepwise radix-two FFT of `x` run from the
/// status `lev`, `id`, `ids0`: each step applied in turn until one ends
/// the transform (`x` itself from a status the transform cannot stand at).
pub open spec fn fft_run<T: GroupElem>(
    x: Seq<T::Model>,
    info: CustomParaFFT,
    lev: int,
    id: nat,
    ids0: nat,
    rev: bool,
) -> Seq<T::Model>
    decreases
        info.log_n + 1 - lev,
        if 0 <= lev < info.log_n {
            info.n - ids0
        } else {
            0
        },
        if lev < 0 {
            info.bit_rev_task@.len() - id
        } else if lev == info.log_n {
            info.n - id
        } else {
            0
        },
{
    if fft_info_ok(info) && fft_parts_ok(info, lev, id, ids0, rev) {
        let y = fft_step_vec::<T>(x, info, lev, id, ids0, rev);
        let st = fft_step_status(info, lev, id, ids0, rev);
        if st.3 {
            y
        } else {
            fft_run::<T>(y, info, st.0, st.1, st.2, rev)
        }
    } else {
        x
    }
}

/// `y` is the vector of the same kind at the end of the stepwise FFT of `x`
/// run from the status `lev`, `id`, `ids0`.
pub open spec fn fvt_run(
    x: FFTVectorTypes,
    y: FFTVectorTypes,
    info: CustomParaFFT,
    lev: int,
    id: nat,
    ids0: nat,
    rev: bool,
) -> bool {
    match (x, y) {
        (FFTVectorTypes::XF(a), FFTVectorTypes::XF(b)) => models(b@) == fft_run::<Scalar>(
            models(a@),
            info,
            lev,
            id,
            ids0,
            rev,
        ),
        (FFTVectorTypes::XG1(a), FFTVectorTypes::XG1(b)) => models(b@) == fft_run::<G1Point>(
            models(a@),
            info,
            lev,
            id,
            ids0,
            rev,
        ),
        (FFTVectorTypes::XG2(a), FFTVectorTypes::XG2(b)) => models(b@) == fft_run::<G2Point>(
            models(a@),
            info,
            lev,
            id,
            ids0,
            rev,
        ),
        _ => false,
    }
}

/// The run from a status before a step that does not end the transform is
/// the run from the status after it.
proof fn lemma_run_step<T: GroupElem>(x: Seq<T::Model>, info: CustomParaFFT, lev: int, id: nat, ids0: nat, rev: bool)
    requires
        fft_info_ok(info),
        fft_parts_ok(info, lev, id, ids0, rev),
    ensures
        ({
            let y = fft_step_vec::<T>(x, info, lev, id, ids0, rev);
            let st = fft_step_status(info, lev, id, ids0, rev);
            fft_run::<T>(x, info, lev, id, ids0, rev) == if st.3 {
                y
            } else {
                fft_run::<T>(y, info, st.0, st.1, st.2, rev)
            }
        }),
{
}

/// The tables of the inverse direction taken as those of the forward one.
pub open spec fn inverse_tables(info: CustomParaFFT) -> CustomParaFFT {
    CustomParaFFT { omegas: info.omega_invs, omega_invs: info.omegas, ..info }
}

/// The entries from `id` on scaled by `c`.
pub open spec fn scaled_from<T: GroupElem>(x: Seq<T::Model>, id: nat, c: nat) -> Seq<T::Model> {
    Seq::new(x.len(), |k: int| if k < id { x[k] } else { T::m_scale(x[k], c) })
}

/// The status after a step that does not end the run is one the run can
/// stand at.
proof fn lemma_step_parts(info: CustomParaFFT, lev: int, id: nat, ids0: nat, rev: bool)
    requires
        fft_info_ok(info),
        fft_parts_ok(info, lev, id, ids0, rev),
    ensures
        ({
            let st = fft_step_status(info, lev, id, ids0, rev);
            !st.3 ==> fft_parts_ok(info, st.0, st.1, st.2, rev)
        }),
{
    if 0 <= lev < info.log_n {
        lemma_butterfly_pos(info, ids0, lev as nat);
        let nl = lev + 1;
        if nl < info.log_n {
            lemma_pow2_pos(nl as nat);
            assert(0nat % pow2((nl + 1) as nat) == 0) by {
                lemma_pow2_pos((nl + 1) as nat);
            }
        }
    } else if lev < 0 {
        lemma_pow2_pos(0);
        lemma_pow2_pos(1);
        assert(0nat % pow2(1) == 0);
        assert(info.n > 0) by {
            lemma_pow2_pos(info.log_n as nat);
        }
    }
}

/// The scaling steps from entry `id` scale the entries from `id` on by
/// `1/n`.
proof fn lemma_run_scaling<T: GroupElem>(y: Seq<T::Model>, info: CustomParaFFT, id: nat, ids0: nat)
    requires
        fft_info_ok(info),
        id < info.n,
        y.len() == info.n,
    ensures
        fft_run::<T>(y, info, info.log_n as int, id, ids0, true) == scaled_from::<T>(y, id, info.inv_n@),
    decreases info.n - id,
{
    let lev = info.log_n as int;
    lemma_run_step::<T>(y, info, lev, id, ids0, true);
    let y1 = fft_step_vec::<T>(y, info, lev, id, ids0, true);
    assert(y1 == y.update(id as int, T::m_scale(y[id as int], info.inv_n@)));
    if id + 1 >= info.n {
        assert(y1 =~= scaled_from::<T>(y, id, info.inv_n@));
    } else {
        lemma_run_scaling::<T>(y1, info, id + 1, ids0);
        assert(scaled_from::<T>(y1, id + 1, info.inv_n@) =~= scaled_from::<T>(y, id, info.inv_n@));
    }
}

/// From a status before the scaling, the run of the inverse direction is
/// the run of the forward direction over the inverse tables, then the
/// scaling of every entry by `1/n`.
#[verifier::rlimit(30)]
proof fn lemma_run_inverse<T: GroupElem>(x: Seq<T::Model>, info: CustomParaFFT, lev: int, id: nat, ids0: nat)
    requires
        fft_info_ok(info),
        lev < info.log_n,
        fft_parts_ok(info, lev, id, ids0, true),
        x.len() == info.n,
    ensures
        fft_run::<T>(x, info, lev, id, ids0, true) == scaled_from::<T>(
            fft_run::<T>(x, inverse_tables(info), lev, id, ids0, false),
            0,
            info.inv_n@,
        ),
    decreases
        info.log_n + 1 - lev,
        if 0 <= lev < info.log_n {
            info.n - ids0
        } else {
            0
        },
        if lev < 0 {
            info.bit_rev_task@.len() - id
        } else {
            0
        },
{
    let sw = inverse_tables(info);
    assert(fft_info_ok(sw));
    assert(fft_parts_ok(sw, lev, id, ids0, false));
    lemma_run_step::<T>(x, info, lev, id, ids0, true);
    lemma_run_step::<T>(x, sw, lev, id, ids0, false);
    if 0 <= lev {
        lemma_butterfly_pos(info, ids0, lev as nat);
    }
    let y = fft_step_vec::<T>(x, info, lev, id, ids0, true);
    assert(fft_step_vec::<T>(x, sw, lev, id, ids0, false) == y);
    let st = fft_step_status(info, lev, id, ids0, true);
    let st2 = fft_step_status(sw, lev, id, ids0, false);
    lemma_step_parts(info, lev, id, ids0, true);
    assert(y.len() == info.n);
    if st.0 == info.log_n as int {
        assert(st2.3);
        lemma_run_scaling::<T>(y, info, 0, st.2);
    } else {
        assert(st == st2);
        assert(!st.3);
        lemma_run_inverse::<T>(y, info, st.0, st.1, st.2);
    }
}

/// The stepwise radix-two FFT in the inverse direction is the forward one
/// run over the tables of the inverse direction, followed by the scaling of
/// every entry by `1/n`: the two directions differ in their twiddles and the
/// final scaling only.
pub proof fn lemma_par_fft_inverse<T: GroupElem>(x: Seq<T::Model>, info: CustomParaFFT)
    requires
        fft_info_ok(info),
        x.len() == info.n,
    ensures
        fft_run::<T>(x, info, -1, 0, 0, true) == scaled_from::<T>(
            fft_run::<T>(x, inverse_tables(info), -1, 0, 0, false),
            0,
            info.inv_n@,
        ),
{
    lemma_run_inverse::<T>(x, info, -1, 0, 0);
}

/// Once-All-Alone FFT: the stepwise radix-two FFT run step by step to its
/// end.
pub fn par_fft(fft_info: &CustomParaFFT, x: &mut FFTVectorTypes, is_rev: bool)
    requires
        fft_info_ok(*fft_info),
        fvt_len(*old(x)) == fft_info.n,
    ensures
        fvt_len(*final(x)) == fvt_len(*old(x)),
        fvt_run(*old(x), *final(x), *fft_info, -1, 0, 0, is_rev),
{
    let mut fft_stat: FftStatu = FftStatu::new(is_rev);
    let ghost x0 = *x;
    let mut done = false;
    while !done
        invariant
            fft_info_ok(*fft_info),
            fft_stat_ok(*fft_info, fft_stat),
            fft_stat.is_rev == is_rev,
            fvt_len(*x) == fft_info.n,
            fvt_same_kind(*x, x0),
            x0 == *old(x),
            !done ==> run_from(x0, *x, *fft_info, fft_stat),
            done ==> fvt_run(x0, *x, *fft_info, -1, 0, 0, is_rev),
        decreases (if done {
            0int
        } else {
            1int
        }), fft_work_left(*fft_info, fft_stat).0, fft_work_left(*fft_info, fft_stat).1, fft_work_left(
            *fft_info,
            fft_stat,
        ).2,
    {
        let ghost before = fft_stat;
        let ghost xb = *x;
        let finished = fft_foward(fft_info, &mut fft_stat, x);
        proof {
            assert(fvt_same_kind(*x, x0)) by {
                match (xb, *x, x0) {
                    (FFTVectorTypes::XF(_), FFTVectorTypes::XF(_), FFTVectorTypes::XF(_)) => {},
                    (FFTVectorTypes::XG1(_), FFTVectorTypes::XG1(_), FFTVectorTypes::XG1(_)) => {},
                    (FFTVectorTypes::XG2(_), FFTVectorTypes::XG2(_), FFTVectorTypes::XG2(_)) => {},
                    _ => {},
                }
            }
            lemma_run_from_step(x0, xb, *x, *fft_info, before, fft_stat, finished);
            if !finished && before.lev >= 0 && before.lev < fft_info.log_n && fft_stat.lev == before.lev {
                lemma_butterfly_pos(*fft_info, before.ids@[0] as nat, before.lev as nat);
                lemma_pow2_pos(before.lev as nat);
            }
        }
        done = finished;
    }
}

/// The run of the whole transform from `x0` is the run from where `x`
/// stands.
pub open spec fn run_from(x0: FFTVectorTypes, x: FFTVectorTypes, info: CustomParaFFT, st: FftStatu) -> bool {
    match (x0, x) {
        (FFTVectorTypes::XF(a), FFTVectorTypes::XF(b)) => fft_run::<Scalar>(models(a@), info, -1, 0, 0, st.is_rev)
            == fft_run::<Scalar>(models(b@), info, st.lev as int, st.id as nat, st.ids@[0] as nat, st.is_rev),
        (FFTVectorTypes::XG1(a), FFTVectorTypes::XG1(b)) => fft_run::<G1Point>(
            models(a@),
            info,
            -1,
            0,
            0,
            st.is_rev,
        ) == fft_run::<G1Point>(models(b@), info, st.lev as int, st.id as nat, st.ids@[0] as nat, st.is_rev),
        (FFTVectorTypes::XG2(a), FFTVectorTypes::XG2(b)) => fft_run::<G2Point>(
            models(a@),
            info,
            -1,
            0,
            0,
            st.is_rev,
        ) == fft_run::<G2Point>(models(b@), info, st.lev as int, st.id as nat, st.ids@[0] as nat, st.is_rev),
        _ => false,
    }
}

/// A step keeps the run of the whole transform, and the step that ends it
/// leaves its result.
proof fn lemma_run_from_step(
    x0: FFTVectorTypes,
    xb: FFTVectorTypes,
    xa: FFTVectorTypes,
    info: CustomParaFFT,
    before: FftStatu,
    after: FftStatu,
    finished: bool,
)
    requires
        fft_info_ok(info),
        fft_stat_ok(info, before),
        run_from(x0, xb, info, before),
        after.is_rev == before.is_rev,
        ({
            let st = fft_step_status(info, before.lev as int, before.id as nat, before.ids@[0] as nat, before.is_rev);
            &&& after.lev == st.0
            &&& after.id == st.1
            &&& after.ids@ == seq![st.2 as usize]
            &&& finished == st.3
        }),
        match (xb, xa) {
            (FFTVectorTypes::XF(a), FFTVectorTypes::XF(b)) => models(b@) == fft_step_vec::<Scalar>(
                models(a@),
                info,
                before.lev as int,
                before.id as nat,
                before.ids@[0] as nat,
                before.is_rev,
            ),
            (FFTVectorTypes::XG1(a), FFTVectorTypes::XG1(b)) => models(b@) == fft_step_vec::<G1Point>(
                models(a@),
                info,
                before.lev as int,
                before.id as nat,
                before.ids@[0] as nat,
                before.is_rev,
            ),
            (FFTVectorTypes::XG2(a), FFTVectorTypes::XG2(b)) => models(b@) == fft_step_vec::<G2Point>(
                models(a@),
                info,
                before.lev as int,
                before.id as nat,
                before.ids@[0] as nat,
                before.is_rev,
            ),
            _ => false,
        },
    ensures
        !finished ==> run_from(x0, xa, info, after),
        finished ==> fvt_run(x0, xa, info, -1, 0, 0, before.is_rev),
{
    let lev = before.lev as int;
    let id = before.id as nat;
    let ids0 = before.ids@[0] as nat;
    let rev = before.is_rev;
    assert(fft_parts_ok(info, lev, id, ids0, rev));
    if 0 <= lev < info.log_n {
        lemma_butterfly_pos(info, ids0, lev as nat);
    }
    let st = fft_step_status(info, lev, id, ids0, rev);
    assert(after.ids@[0] as nat == st.2);
    match (xb, xa) {
        (FFTVectorTypes::XF(a), FFTVectorTypes::XF(b)) => lemma_run_step::<Scalar>(models(a@), info, lev, id, ids0, rev),
        (FFTVectorTypes::XG1(a), FFTVectorTypes::XG1(b)) => lemma_run_step::<G1Point>(models(a@), info, lev, id, ids0, rev),
        (FFTVectorTypes::XG2(a), FFTVectorTypes::XG2(b)) => lemma_run_step::<G2Point>(models(a@), info, lev, id, ids0, rev),
        _ => {},
    }
}

/// parse vector into array
pub fn vec_to_arr(v: Vec<usize>) -> (r: [usize; 2])
    requires
        v@.len() == N_THREADS * 2,
    ensures
        r@ == v@,
{
    let r = [v[0], v[1]];
    proof {
        assert(r@ =~= v@);
    }
    r
}

/// The FFT of the points over the subgroup of `domain` (cut or padded with
/// the identity to its order).
pub fn fft_g(domain: &GeneralEvaluationDomain, x: &mut [G1Point]) -> (r: Vec<G1Point>)
    ensures
        r@ == G1Point::m_transform(resized(old(x)@, domain.spec_size(), g1_identity()), false),
        final(x)@ == old(x)@,
{
    let mut res_g1: Vec<G1Point> = Vec::with_capacity(x.len());
    let mut i: usize = 0;
    while i < x.len()
        invariant
            i <= x@.len(),
            res_g1@ == x@.take(i as int),
        decreases x@.len() - i,
    {
        res_g1.push(x[i]);
        i = i + 1;
        proof {
            assert(res_g1@ =~= x@.take(i as int));
        }
    }
    proof {
        assert(x@.take(x@.len() as int) =~= x@);
    }
    domain.fft_in_place(&mut res_g1);
    proof {
        assert(models(res_g1@) =~= res_g1@);
        assert(models(x@) =~= x@);
    }
    res_g1
}

/// `c[i] * v[i]` entry by entry, over the shorter of the two.
pub open spec fn pointwise_scale<T: GroupElem>(v: Seq<T::Model>, c: Seq<nat>) -> Seq<T::Model> {
    Seq::new(
        if v.len() < c.len() {
            v.len()
        } else {
            c.len()
        },
        |i: int| T::m_scale(v[i], c[i]),
    )
}

/// `v * w` entry by entry, through the transforms of the zero-padded `v`
/// and `w` over the subgroup of order `size`.
pub open spec fn convolution_spec<T: GroupElem>(c: Seq<nat>, v: Seq<T::Model>, size: nat) -> Seq<T::Model> {
    T::m_transform(
        pointwise_scale::<T>(
            T::m_transform(resized(v, size, T::m_zero()), false),
            Scalar::m_transform(resized(c, size, 0nat), false),
        ),
        true,
    )
}

/// The least subgroup order at least `n`.
pub open spec fn conv_size(n: nat) -> nat {
    choose|p: nat| is_next_pow2(p, n)
}

/// `v * w` entry by entry.
fn mul_entries<T: GroupElem>(v: &mut Vec<T>, c: &Vec<Scalar>)
    requires
        old(v)@.len() == c@.len(),
    ensures
        models(final(v)@) == pointwise_scale::<T>(models(old(v)@), models(c@)),
{
    let ghost v0 = models(v@);
    let mut i: usize = 0;
    while i < v.len()
        invariant
            i <= v@.len(),
            v@.len() == c@.len(),
            v0.len() == v@.len(),
            forall|j: int| 0 <= j < i ==> (#[trigger] v@[j]).model() == pointwise_scale::<T>(v0, models(c@))[j],
            forall|j: int| i <= j < v@.len() ==> (#[trigger] v@[j]).model() == v0[j],
        decreases v@.len() - i,
    {
        let t = v[i].elem_scale(&c[i]);
        v.set(i, t);
        i = i + 1;
    }
    proof {
        assert(models(v@) =~= pointwise_scale::<T>(v0, models(c@)));
    }
}

/// Two least powers of two at least `n` agree.
pub proof fn lemma_next_pow2_unique(p: nat, n: nat)
    requires
        is_next_pow2(p, n),
        exists|r: nat| is_next_pow2(r, n),
    ensures
        p == conv_size(n),
{
    let r = choose|r: nat| is_next_pow2(r, n);
    assert(is_next_pow2(conv_size(n), n));
    let q = conv_size(n);
    let a = choose|k: nat| p == pow2(k);
    let b = choose|k: nat| q == pow2(k);
    if a < b {
        lemma_pow2_unfold(b);
        if a < (b - 1) as nat {
            lemma_pow2_strictly_increases(a, (b - 1) as nat);
        }
        assert(false);
    } else if b < a {
        lemma_pow2_unfold(a);
        if b < (a - 1) as nat {
            lemma_pow2_strictly_increases(b, (a - 1) as nat);
        }
        assert(false);
    }
}

/// The subgroup for `n` coefficients, with its order the least power of two
/// at least `n`.
fn domain_of(n: usize) -> (d: Option<GeneralEvaluationDomain>)
    ensures
        d is Some <==> n <= 0x1_0000_0000 && n <= usize::MAX / 2 + 1,
        d matches Some(dd) ==> dd.spec_size() == conv_size(n as nat) && is_next_pow2(dd.spec_size(), n as nat),
{
    proof {
        lemma2_to64();
    }
    let d = GeneralEvaluationDomain::new(n);
    proof {
        if let Some(dd) = d {
            lemma_next_pow2_unique(dd.spec_size(), n as nat);
        }
    }
    d
}

/// The cyclic convolution of scalars `a` with points `b`.
pub fn convolution_f_g(a: &[Scalar], b: &[G1Point]) -> (r: Vec<G1Point>)
    requires
        a@.len() == b@.len(),
        a@.len() <= 0x1_0000_0000,
        a@.len() <= usize::MAX / 2 + 1,
    ensures
        models(r@) == convolution_spec::<G1Point>(models(a@), models(b@), conv_size(a@.len())),
        r@.len() == conv_size(a@.len()),
        conv_size(a@.len()) >= a@.len(),
{
    let domain = match domain_of(a.len()) {
        Some(d) => d,
        None => {
            proof {
                assert(false);
            }
            return Vec::new();
        },
    };
    let a_fft = domain.fft(a);
    let mut b_fft: Vec<G1Point> = domain.fft(b);
    proof {
        assert(models(b_fft@).len() == b_fft@.len());
        assert(models(a_fft@).len() == a_fft@.len());
        assert(resized(models(b@), domain.spec_size(), G1Point::m_zero()).len() == domain.spec_size());
        assert(resized(models(a@), domain.spec_size(), Scalar::m_zero()).len() == domain.spec_size());
    }
    mul_entries(&mut b_fft, &a_fft);
    let ghost ps = models(b_fft@);
    proof {
        assert(ps.len() == domain.spec_size());
        assert(resized(ps, domain.spec_size(), G1Point::m_zero()) =~= ps);
    }
    domain.ifft_in_place(&mut b_fft);
    proof {
        assert(models(b_fft@).len() == b_fft@.len());
    }
    b_fft
}

/// The cyclic convolution of scalars `a` with scalars `b`.
pub fn convolution_f_f(a: &[Scalar], b: &[Scalar]) -> (r: Vec<Scalar>)
    requires
        a@.len() == b@.len(),
        a@.len() <= 0x1_0000_0000,
        a@.len() <= usize::MAX / 2 + 1,
    ensures
        models(r@) == convolution_spec::<Scalar>(models(b@), models(a@), conv_size(a@.len())),
        r@.len() == conv_size(a@.len()),
        conv_size(a@.len()) >= a@.len(),
{
    let domain = match domain_of(a.len()) {
        Some(d) => d,
        None => {
            proof {
                assert(false);
            }
            return Vec::new();
        },
    };
    let mut a_fft = domain.fft(a);
    let b_fft = domain.fft(b);
    proof {
        assert(models(a_fft@).len() == a_fft@.len());
        assert(models(b_fft@).len() == b_fft@.len());
        assert(resized(models(b@), domain.spec_size(), Scalar::m_zero()).len() == domain.spec_size());
        assert(resized(models(a@), domain.spec_size(), Scalar::m_zero()).len() == domain.spec_size());
    }
    mul_entries(&mut a_fft, &b_fft);
    let ghost ps = models(a_fft@);
    proof {
        assert(ps.len() == domain.spec_size());
        assert(resized(ps, domain.spec_size(), Scalar::m_zero()) =~= ps);
    }
    domain.ifft_in_place(&mut a_fft);
    proof {
        assert(models(a_fft@).len() == a_fft@.len());
    }
    a_fft
}

/// The entrywise product of two scalar vectors.
pub fn elementwise_product_f_f(a: &[Scalar], b: &[Scalar]) -> (r: Vec<Scalar>)
    ensures
        r@.len() == if a@.len() < b@.len() { a@.len() } else { b@.len() },
        forall|i: int| 0 <= i < r@.len() ==> (#[trigger] r@[i])@ == fmul(b@[i]@, a@[i]@),
{
    let n = if a.len() < b.len() {
        a.len()
    } else {
        b.len()
    };
    let mut r: Vec<Scalar> = Vec::with_capacity(n);
    let mut i: usize = 0;
    while i < n
        invariant
            i <= n,
            n <= a@.len(),
            n <= b@.len(),
            r@.len() == i,
            forall|j: int| 0 <= j < i ==> (#[trigger] r@[j])@ == fmul(b@[j]@, a@[j]@),
        decreases n - i,
    {
        r.push(fr_mul(&b[i], &a[i]));
        i = i + 1;
    }
    r
}

/// `b_i * a_i` in G1, over the shorter of the two.
pub open spec fn scale_entries(a: Seq<nat>, b: Seq<G1Point>) -> Seq<G1Point> {
    Seq::new(
        if a.len() < b.len() {
            a.len()
        } else {
            b.len()
        },
        |i: int| crate::group::g1_mul_of(b[i], a[i]),
    )
}

/// `a_i + b_i` in G1, over the shorter of the two.
pub open spec fn add_entries(a: Seq<G1Point>, b: Seq<G1Point>) -> Seq<G1Point> {
    Seq::new(
        if a.len() < b.len() {
            a.len()
        } else {
            b.len()
        },
        |i: int| crate::group::g1_add_of(a[i], b[i]),
    )
}

/// Each point of `b` scaled by the scalar of `a` at its place.
pub fn elementwise_product_f_g(a: &[Scalar], b: &[G1Point]) -> (r: Vec<G1Point>)
    ensures
        r@ == scale_entries(models(a@), b@),
        r@.len() == if a@.len() < b@.len() { a@.len() } else { b@.len() },
        forall|i: int| 0 <= i < r@.len() ==> #[trigger] r@[i] == crate::group::g1_mul_of(b@[i], a@[i]@),
{
    let n = if a.len() < b.len() {
        a.len()
    } else {
        b.len()
    };
    let mut r: Vec<G1Point> = Vec::with_capacity(n);
    let mut i: usize = 0;
    while i < n
        invariant
            i <= n,
            n <= a@.len(),
            n <= b@.len(),
            r@.len() == i,
            forall|j: int| 0 <= j < i ==> #[trigger] r@[j] == crate::group::g1_mul_of(b@[j], a@[j]@),
        decreases n - i,
    {
        r.push(b[i].elem_scale(&a[i]));
        i = i + 1;
    }
    proof {
        assert(r@ =~= scale_entries(models(a@), b@));
    }
    r
}

/// The entrywise sum of two point vectors.
pub fn elementwise_add_g_g(a: &[G1Point], b: &[G1Point]) -> (r: Vec<G1Point>)
    ensures
        r@ == add_entries(a@, b@),
        r@.len() == if a@.len() < b@.len() { a@.len() } else { b@.len() },
        forall|i: int| 0 <= i < r@.len() ==> #[trigger] r@[i] == crate::group::g1_add_of(a@[i], b@[i]),
{
    let n = if a.len() < b.len() {
        a.len()
    } else {
        b.len()
    };
    let mut r: Vec<G1Point> = Vec::with_capacity(n);
    let mut i: usize = 0;
    while i < n
        invariant
            i <= n,
            n <= a@.len(),
            n <= b@.len(),
            r@.len() == i,
            forall|j: int| 0 <= j < i ==> #[trigger] r@[j] == crate::group::g1_add_of(a@[j], b@[j]),
        decreases n - i,
    {
        r.push(a[i].elem_add(&b[i]));
        i = i + 1;
    }
    proof {
        assert(r@ =~= add_entries(a@, b@));
    }
    r
}

/// Two multiples of `u` with the same quotient are equal.
proof fn lemma_same_multiple(a: nat, b: nat, u: nat)
    requires
        u > 0,
        a % u == 0,
        b % u == 0,
        a / u == b / u,
    ensures
        a == b,
{
    vstd::arithmetic::div_mod::lemma_fundamental_div_mod(a as int, u as int);
    vstd::arithmetic::div_mod::lemma_fundamental_div_mod(b as int, u as int);
}

/// A multiple of `u` below the multiple `e` has a quotient below `e / u`.
pub(crate) proof fn lemma_multiple_below(a: nat, e: nat, u: nat)
    requires
        u > 0,
        a % u == 0,
        e % u == 0,
        a < e,
    ensures
        a / u < e / u,
{
    lemma_chunk(a, e, u, 0);
    vstd::arithmetic::div_mod::lemma_fundamental_div_mod(a as int, u as int);
    vstd::arithmetic::div_mod::lemma_fundamental_div_mod(e as int, u as int);
    assert(a / u < e / u) by (nonlinear_arith)
        requires
            a == u * (a / u),
            e == u * (e / u),
            a < e,
            u > 0,
    ;
}

/// The units of a side `m = pow2(h)`.
pub open spec fn units_of_side(m: nat, u2: nat) -> bool {
    &&& copy_unit(m) >= 1
    &&& transpose_unit(m) >= 1
    &&& u2 >= 1
    &&& m % copy_unit(m) == 0
    &&& m % transpose_unit(m) == 0
    &&& m % u2 == 0
    &&& (2 * m) / copy_unit(m) == 2 * (m / copy_unit(m))
    &&& (2 * m) % copy_unit(m) == 0
}

/// Where a stepped transform stands is fixed by the work done so far.
pub proof fn lemma_progress_injective(ph1: FftPhase, lv1: nat, ph2: FftPhase, lv2: nat, m: nat, u2: nat)
    requires
        units_of_side(m, u2),
        sqrt_status_ok(ph1, lv1, m, u2),
        sqrt_status_ok(ph2, lv2, m, u2),
        sqrt_progress(ph1, lv1, m, u2) == sqrt_progress(ph2, lv2, m, u2),
    ensures
        ph1 == ph2,
        lv1 == lv2,
{
    let uc = copy_unit(m);
    let ut1 = transpose_unit(m);
    lemma_phase_range(ph1, lv1, m, u2);
    lemma_phase_range(ph2, lv2, m, u2);
    assert(ph1 == ph2);
    if ph1 == FftPhase::PreTranspose || ph1 == FftPhase::SufTranspose {
        lemma_same_multiple(lv1, lv2, uc);
    } else if ph1 == FftPhase::TRANSPOSE {
        if lv1 <= m && lv2 <= m {
            lemma_same_multiple(lv1, lv2, ut1);
        } else if lv1 > m && lv2 > m {
            lemma_same_multiple((lv1 - m) as nat, (lv2 - m) as nat, u2);
        } else {
            assert(false);
        }
    }
}

/// The work done at each phase lies in a range of its own.
#[verifier::spinoff_prover]
#[verifier::rlimit(50)]
proof fn lemma_phase_range(ph: FftPhase, lv: nat, m: nat, u2: nat)
    requires
        units_of_side(m, u2),
        sqrt_status_ok(ph, lv, m, u2),
    ensures
        ({
            let a = 2 * (m / copy_unit(m));
            let b = a + m;
            let c = b + m / transpose_unit(m) + m / u2;
            let d = c + m;
            let pr = sqrt_progress(ph, lv, m, u2);
            &&& ph == FftPhase::PreTranspose ==> pr < a
            &&& ph == FftPhase::ColFFT ==> a <= pr < b
            &&& ph == FftPhase::TRANSPOSE ==> b <= pr < c && (lv <= m ==> pr <= b + m / transpose_unit(m)) && (lv
                > m ==> pr > b + m / transpose_unit(m))
            &&& ph == FftPhase::RowFFT ==> c <= pr < d
            &&& ph == FftPhase::SufTranspose ==> d <= pr
        }),
{
    let uc = copy_unit(m);
    let ut1 = transpose_unit(m);
    let a = 2 * (m / uc);
    let b = a + m;
    let c = b + m / ut1 + m / u2;
    let pr = sqrt_progress(ph, lv, m, u2);
    if ph == FftPhase::PreTranspose || ph == FftPhase::SufTranspose {
        lemma_multiple_below(lv, 2 * m, uc);
        assert(lv / uc < a);
    } else if ph == FftPhase::TRANSPOSE {
        assert(m > 0);
        lemma_multiple_below(0, m, u2);
        vstd::arithmetic::div_mod::lemma_div_by_self(u2 as int);
        assert(0nat / u2 == 0) by {
            vstd::arithmetic::div_mod::lemma_div_basics(u2 as int);
        }
        assert(m / u2 >= 1);
        if lv <= m {
            vstd::arithmetic::div_mod::lemma_div_is_ordered(lv as int, m as int, ut1 as int);
            assert(pr == b + lv / ut1);
            assert(pr <= b + m / ut1);
            assert(pr < c);
        } else {
            let d = (lv - m) as nat;
            assert(lv < 2 * m && d % u2 == 0);
            lemma_multiple_below(d, m, u2);
            assert(d >= u2) by {
                vstd::arithmetic::div_mod::lemma_fundamental_div_mod(d as int, u2 as int);
                assert(d % u2 == 0);
                assert(d >= u2) by (nonlinear_arith)
                    requires
                        d == u2 * (d / u2) + d % u2,
                        d % u2 == 0,
                        d > 0,
                        u2 > 0,
                ;
            }
            vstd::arithmetic::div_mod::lemma_div_is_ordered(u2 as int, d as int, u2 as int);
            vstd::arithmetic::div_mod::lemma_div_by_self(u2 as int);
        }
    }
}

/// Two stepped transforms of the same side that stand at the same status
/// and are given the same work stay in lockstep: the one ends exactly when
/// the other does, with as much work left, and otherwise both stand at the
/// same status.
pub proof fn lemma_rounds_in_lockstep(
    ph: FftPhase,
    lv: nat,
    m: nat,
    u2: nat,
    steps: nat,
    fin1: bool,
    left1: nat,
    ph1: FftPhase,
    lv1: nat,
    fin2: bool,
    left2: nat,
    ph2: FftPhase,
    lv2: nat,
)
    requires
        units_of_side(m, u2),
        sqrt_status_ok(ph, lv, m, u2),
        sqrt_status_ok(ph1, lv1, m, u2),
        sqrt_status_ok(ph2, lv2, m, u2),
        left1 <= steps,
        left2 <= steps,
        !fin1 ==> left1 == 0 && sqrt_progress(ph1, lv1, m, u2) == sqrt_progress(ph, lv, m, u2) + steps,
        !fin2 ==> left2 == 0 && sqrt_progress(ph2, lv2, m, u2) == sqrt_progress(ph, lv, m, u2) + steps,
        fin1 ==> steps - left1 == sqrt_total(m, u2) - sqrt_progress(ph, lv, m, u2) && ph1 == FftPhase::PreTranspose
            && lv1 == 0,
        fin2 ==> steps - left2 == sqrt_total(m, u2) - sqrt_progress(ph, lv, m, u2) && ph2 == FftPhase::PreTranspose
            && lv2 == 0,
    ensures
        fin1 == fin2,
        left1 == left2,
        ph1 == ph2,
        lv1 == lv2,
{
    lemma_progress_bound(ph1, lv1, m, copy_unit(m), transpose_unit(m), u2);
    lemma_progress_bound(ph2, lv2, m, copy_unit(m), transpose_unit(m), u2);
    if !fin1 && !fin2 {
        lemma_progress_injective(ph1, lv1, ph2, lv2, m, u2);
    }
}

} // verus!
