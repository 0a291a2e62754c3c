//! Caches that let a proof follow updates of its witness: a sparse
//! accumulator of Lagrange-basis changes, and the checkpoint that rebuilds
//! its projection quotients step by step.
use vstd::prelude::*;
use vstd::arithmetic::power2::{pow2, lemma_pow2_adds, lemma_pow2_pos, lemma_pow2_strictly_increases, lemma_pow2_unfold, lemma2_to64};
use crate::data_structures::{Cache, Proof, UpdatingKey};
use crate::domain::{is_next_pow2, is_pow2};
use crate::groth16::{proof_a, proof_b_g1, proof_b_g2, proof_c, Groth16, a_exp, b2_exp};
use crate::r1cs_to_qap::{concat_assignment, coset_ok, matrices_in_range, quotient_spec, row_evals};
use crate::relations::ConstraintMatrices;
use crate::dynark_prover::{projection, uk_sized, apply_updates, lemma_dense_updates, updated_c_exp};
use crate::domain::GeneralEvaluationDomain;
use crate::fft_handler::{
    copy_unit, lemma_chunk, lemma_double_div, lemma_multiple_below, lemma_log2_of_pow2, lemma_progress_bound, lemma_rounds_in_lockstep,
    lemma_stage_len, lemma_units_all, pow2_usize, sqrt_consistent, sqrt_done, sqrt_progress, sqrt_round, sqrt_stage,
    sqrt_status_ok, sqrt_total, sqrt_fft_fw_field, sqrt_fft_fw_g1, sub_plan, sub_ready, transpose_unit,
    units_of_side, CustomParaFFT, FftPhase, SqrtFftStatus, SqrtPlan, conv_size, lemma_next_pow2_unique, para_fft_of,
};
use crate::field::{fadd, fmul, root_of_unity_of, Scalar, fr_add, fr_mul, fr_rand_test_rng, lemma_fadd_assoc3, lemma_fadd_swap, lemma_fadd_comm};
use crate::group::{
    G1Point, G2Point, GroupElem, g1_add_of, g1_mul_of, g1_sub_of, g2_add_of, g2_mul_of, models, g1_add, g1_mul, g1_sub,
    g1_zero, g2_add, g2_mul, g1_exp, g2_exp, g1_exps, g2_exps, exp_sparse, exp_dense,
};
use crate::sorting::{sort_by_index, sort_usizes, sorted_by_index, sorted_usizes, with_key};
use crate::dynark_prover::{
    cols_rows_in_range, concat_pairs, cross_side, cross_side_exec, join_spec, lemma_join_in_range,
    lemma_merged_in_range, merge_join, pairs_eval, pairs_eval_exec, shift_down, shifted, sparse_g2, sparse_g2_eval,
};
use crate::utils::{column_terms, improved_lagrange_sparse_get, inner_product_sparse_f_dense_g, lagrange_of_dense_vec, merged_by_index};
use crate::utils::{keys, pair_models, sparse_g1_eval, sparse_in_range, key_total};
use crate::updates::{row_eval_n, lemma_terms_row_change, lemma_record_added_total, lemma_merged_total};
use crate::dynark_generator::{col_entries, updating_key_of};
use crate::data_structures::ProvingKey;
use crate::r1cs_to_qap::matrix_in_range;
use crate::field::{fcong, lemma_icong_add, lemma_icong_trans, lemma_fcong_refl};

verus! {

/// A sparse vector over the field with O(1) reset: each slot carries the
/// epoch of its last write, and only slots of the current epoch count.
#[derive(Clone, Debug)]
pub struct SparseRecord {
    /// Current epoch
    cur_tim: usize,
    /// Epoch of the last write of each slot
    tims: Vec<usize>,
    /// Value of each slot
    vals: Vec<Scalar>,
    /// Slots written in the current epoch, in the order of their first write
    u_ids: Vec<usize>,
}

impl SparseRecord {
    /// Number of slots.
    pub closed spec fn len(&self) -> nat {
        self.tims@.len()
    }

    /// The value of each slot.
    pub closed spec fn values(&self) -> Seq<nat> {
        Seq::new(
            self.tims@.len(),
            |i: int| if self.tims[i] == self.cur_tim { self.vals[i]@ } else { 0 },
        )
    }

    /// The slots written since the last reset, in the order of first write.
    pub closed spec fn ids(&self) -> Seq<usize> {
        self.u_ids@
    }

    pub closed spec fn wf(&self) -> bool {
        &&& self.cur_tim >= 1
        &&& self.vals.len() == self.tims.len()
        &&& forall|i: int| 0 <= i < self.tims.len() ==> self.tims[i] <= self.cur_tim
        &&& forall|k: int| 0 <= k < self.u_ids.len() ==> {
            &&& #[trigger] self.u_ids[k] < self.tims.len()
            &&& self.tims[self.u_ids[k] as int] == self.cur_tim
        }
        &&& forall|k: int, l: int|
            0 <= k < l < self.u_ids.len() ==> self.u_ids[k] != self.u_ids[l]
        &&& forall|i: int|
            0 <= i < self.tims.len() && self.tims[i] == self.cur_tim ==> self.u_ids@.contains(
                i as usize,
            )
    }

    /// What holds of every well-formed record: the slots listed are distinct
    /// and in range, and every slot not listed is zero.
    pub proof fn lemma_sparse(&self)
        requires
            self.wf(),
        ensures
            forall|k: int| 0 <= k < self.ids().len() ==> #[trigger] self.ids()[k] < self.len(),
            forall|k: int, l: int|
                0 <= k < l < self.ids().len() ==> self.ids()[k] != self.ids()[l],
            forall|i: int|
                0 <= i < self.len() && !self.ids().contains(i as usize) ==> #[trigger] self.values()[i]
                    == 0,
    {
    }

    /// A record of `n` zero slots.
    pub fn new(n: usize) -> (r: Self)
        ensures
            r.wf(),
            r.len() == n,
            r.values() == Seq::new(n as nat, |i: int| 0nat),
            r.ids() == Seq::<usize>::empty(),
    {
        let cur_tim: usize = 1;
        let tims: Vec<usize> = vec![0; n];
        let mut vals: Vec<Scalar> = Vec::with_capacity(n);
        let mut i: usize = 0;
        while i < n
            invariant
                i <= n,
                vals.len() == i,
            decreases n - i,
        {
            vals.push(Scalar::zero());
            i = i + 1;
        }
        let u_ids: Vec<usize> = Vec::with_capacity(n);
        let r = Self { cur_tim, tims, vals, u_ids };
        assert(r.values() =~= Seq::new(n as nat, |i: int| 0nat));
        r
    }

    /// Start a new epoch: every slot reads zero again.
    pub fn clr(&mut self)
        requires
            old(self).wf(),
        ensures
            final(self).wf(),
            final(self).len() == old(self).len(),
            final(self).values() == Seq::new(old(self).len(), |i: int| 0nat),
            final(self).ids() == Seq::<usize>::empty(),
    {
        if self.cur_tim == usize::MAX {
            let n = self.tims.len();
            let mut i: usize = 0;
            while i < n
                invariant
                    i <= n,
                    self.tims.len() == n,
                    self.vals@ == old(self).vals@,
                    self.u_ids@ == old(self).u_ids@,
                    n == old(self).tims.len(),
                    old(self).wf(),
                    forall|j: int| 0 <= j < i ==> self.tims[j] == 0,
                decreases n - i,
            {
                self.tims.set(i, 0);
                i = i + 1;
            }
            self.cur_tim = 1;
        } else {
            self.cur_tim = self.cur_tim + 1;
        }
        self.u_ids.clear();
        assert(self.values() =~= Seq::new(old(self).len(), |i: int| 0nat));
    }

    /// Add `vl` to slot `id`.
    pub fn ins(&mut self, id: usize, vl: Scalar)
        requires
            old(self).wf(),
            id < old(self).len(),
        ensures
            final(self).wf(),
            final(self).len() == old(self).len(),
            final(self).values() == old(self).values().update(
                id as int,
                fadd(old(self).values()[id as int], vl@),
            ),
            final(self).ids() == if old(self).ids().contains(id) {
                old(self).ids()
            } else {
                old(self).ids().push(id)
            },
    {
        proof {
            use_type_invariant(&vl);
            Scalar::lemma_canonical(vl);
        }
        if self.tims[id] != self.cur_tim {
            assert(!old(self).ids().contains(id)) by {
                if old(self).ids().contains(id) {
                    let k = choose|k: int| 0 <= k < old(self).u_ids.len() && old(self).u_ids[k] == id;
                    assert(old(self).tims[old(self).u_ids[k] as int] == old(self).cur_tim);
                }
            }
            self.tims.set(id, self.cur_tim);
            self.vals.set(id, vl);
            self.u_ids.push(id);
            assert forall|i: int|
                0 <= i < self.tims.len() && self.tims[i] == self.cur_tim implies self.u_ids@.contains(
                i as usize,
            ) by {
                if i != id {
                    assert(old(self).u_ids@.contains(i as usize));
                    let k = choose|k: int| 0 <= k < old(self).u_ids.len() && old(self).u_ids[k] == i as usize;
                    assert(self.u_ids@[k] == i as usize);
                } else {
                    assert(self.u_ids@[self.u_ids.len() - 1] == id);
                }
            }
        } else {
            let s = fr_add(&self.vals[id], &vl);
            self.vals.set(id, s);
        }
        assert(self.values() =~= old(self).values().update(
            id as int,
            fadd(old(self).values()[id as int], vl@),
        ));
    }

    /// The value of slot `id`.
    pub fn get(&self, id: usize) -> (r: Scalar)
        requires
            self.wf(),
            id < self.len(),
        ensures
            r@ == self.values()[id as int],
    {
        if self.tims[id] == self.cur_tim {
            return self.vals[id];
        }
        Scalar::zero()
    }

    /// The written slots in ascending order, with their values.
    pub fn parse(&mut self) -> (r: Vec<(usize, Scalar)>)
        requires
            old(self).wf(),
        ensures
            final(self).wf(),
            final(self).len() == old(self).len(),
            final(self).values() == old(self).values(),
            final(self).ids().to_multiset() == old(self).ids().to_multiset(),
            sorted_usizes(final(self).ids()),
            r@.len() == final(self).ids().len(),
            forall|k: int|
                0 <= k < r@.len() ==> (#[trigger] r@[k]).0 == final(self).ids()[k] && r@[k].1@
                    == final(self).values()[r@[k].0 as int],
    {
        let ghost old_ids = self.u_ids@;
        sort_usizes(&mut self.u_ids);
        proof {
            broadcast use vstd::seq_lib::group_to_multiset_ensures;

            assert forall|k: int| 0 <= k < self.u_ids.len() implies {
                &&& #[trigger] self.u_ids[k] < self.tims.len()
                &&& self.tims[self.u_ids[k] as int] == self.cur_tim
            } by {
                assert(self.u_ids@.to_multiset().count(self.u_ids@[k]) > 0);
                assert(old_ids.to_multiset().count(self.u_ids@[k]) > 0);
            }
            assert forall|k: int, l: int| 0 <= k < l < self.u_ids.len() implies self.u_ids[k]
                != self.u_ids[l] by {
                if self.u_ids[k] == self.u_ids[l] {
                    lemma_distinct_count(old_ids, self.u_ids@[k]);
                    lemma_two_count(self.u_ids@, k, l);
                }
            }
            assert forall|i: int|
                0 <= i < self.tims.len() && self.tims[i] == self.cur_tim implies self.u_ids@.contains(
                i as usize,
            ) by {
                assert(old_ids.contains(i as usize));
                assert(old_ids.to_multiset().count(i as usize) > 0);
                assert(self.u_ids@.to_multiset().count(i as usize) > 0);
            }
        }
        self.parse_unordered()
    }

    /// The written slots in the order of first write, with their values.
    pub fn parse_unordered(&self) -> (r: Vec<(usize, Scalar)>)
        requires
            self.wf(),
        ensures
            r@.len() == self.ids().len(),
            forall|k: int|
                0 <= k < r@.len() ==> (#[trigger] r@[k]).0 == self.ids()[k] && r@[k].1@
                    == self.values()[r@[k].0 as int],
    {
        let mut r: Vec<(usize, Scalar)> = Vec::with_capacity(self.u_ids.len());
        let mut k: usize = 0;
        while k < self.u_ids.len()
            invariant
                self.wf(),
                k <= self.u_ids.len(),
                r@.len() == k,
                forall|j: int|
                    0 <= j < k ==> (#[trigger] r@[j]).0 == self.u_ids@[j] && r@[j].1@
                        == self.values()[r@[j].0 as int],
            decreases self.u_ids.len() - k,
        {
            let id = self.u_ids[k];
            r.push((id, self.vals[id]));
            k = k + 1;
        }
        r
    }
}

/// A sequence with distinct elements holds each of them once.
proof fn lemma_distinct_count(s: Seq<usize>, x: usize)
    requires
        forall|k: int, l: int| 0 <= k < l < s.len() ==> s[k] != s[l],
    ensures
        s.to_multiset().count(x) <= 1,
    decreases s.len(),
{
    broadcast use vstd::seq_lib::group_to_multiset_ensures;
    if s.len() > 0 {
        lemma_distinct_count(s.drop_last(), x);
        assert(s =~= s.drop_last().push(s.last()));
        if s.last() == x {
            assert(!s.drop_last().contains(x));
        }
    }
}

/// Two sequences with the same multiset hold the same members.
proof fn lemma_same_members(a: Seq<usize>, b: Seq<usize>)
    requires
        a.to_multiset() == b.to_multiset(),
    ensures
        forall|x: usize| #[trigger] a.contains(x) == b.contains(x),
{
    broadcast use vstd::seq_lib::group_to_multiset_ensures;
    assert forall|x: usize| #[trigger] a.contains(x) == b.contains(x) by {
        assert(a.contains(x) == (a.to_multiset().count(x) > 0));
        assert(b.contains(x) == (b.to_multiset().count(x) > 0));
    }
}

/// An element at two positions is counted at least twice.
proof fn lemma_two_count(s: Seq<usize>, k: int, l: int)
    requires
        0 <= k < l < s.len(),
        s[k] == s[l],
    ensures
        s.to_multiset().count(s[k]) >= 2,
    decreases s.len(),
{
    broadcast use vstd::seq_lib::group_to_multiset_ensures;
    assert(s =~= s.drop_last().push(s.last()));
    if l == s.len() - 1 {
        assert(s.drop_last().contains(s[k]));
    } else {
        lemma_two_count(s.drop_last(), k, l);
    }
}

///base batch size
pub const BASE_BATCH_SIZE: usize = 1024;

///Group operation batch size
pub const GROUP_OP_BATCH_SIZE: usize = 2 * BASE_BATCH_SIZE;

/// Phase of Reconstruction
#[derive(Clone, Copy, Debug)]
pub enum ReconstructPhase {
    /// Prepare Vector Space
    VecPrepare(usize),
    /// DFT for Convolution
    Dft(SqrtFftStatus),
    /// Pointwise Production
    PointwiseProduct(usize),
    /// iDFT for Convolution
    IDft(SqrtFftStatus),
    /// VectorIntegrate
    VecIntegrate(usize),
}

/// Cache for all the intermediate info
#[derive(Clone, Debug)]
pub struct FullCache {
    /// n, num of variable
    pub n: usize,
    /// domain
    pub haf_domain: GeneralEvaluationDomain,
    /// accumulate A
    pub acc_a: Vec<Scalar>,
    /// accumulate B
    pub acc_b: Vec<Scalar>,
    /// G1; projection quotients of a_lagrange
    pub q_a: Vec<G1Point>,
    /// G1; projection quotients of b_lagrange
    pub q_b: Vec<G1Point>,
    /// G1: stores fl_a
    pub fl_a: Vec<G1Point>,
    /// G1: stores fl_b
    pub fl_b: Vec<G1Point>,
    /// stores fw_a
    pub fw_a: Vec<Scalar>,
    /// stores fw_b
    pub fw_b: Vec<Scalar>,
    /// extra mem fl_a
    pub mem_fl_a: Vec<G1Point>,
    /// extra mem fl_b
    pub mem_fl_b: Vec<G1Point>,
    /// extra mem fw_a
    pub mem_fw_a: Vec<Scalar>,
    /// extra mem fw_b
    pub mem_fw_b: Vec<Scalar>,
    /// info for modification on A
    pub mod_a: SparseRecord,
    /// info for modification on B
    pub mod_b: SparseRecord,
    /// Current stage
    pub status: ReconstructPhase,
    /// FFT parameter
    pub fft_info: CustomParaFFT,
    /// half FFT parameter
    pub haf_fft_info: CustomParaFFT,
}

/// The side of the square of the stepped transforms of the cache.
pub open spec fn cache_side(c: FullCache) -> nat {
    pow2((c.fft_info.log_n / 2) as nat)
}

/// The number of entries handled per unit of work outside the transforms.
pub open spec fn batch_unit(n: nat) -> nat {
    if n < GROUP_OP_BATCH_SIZE {
        n
    } else {
        GROUP_OP_BATCH_SIZE as nat
    }
}

/// The plan of the forward (or, with `rev`, inverse) stepped transforms.
pub open spec fn recon_plan(c: FullCache, rev: bool) -> SqrtPlan {
    sub_plan(root_of_unity_of(c.haf_domain.spec_size()), c.fft_info, rev)
}

/// The full vector after a completed stepped transform of `x0`: the
/// transformed square, then the untouched tail.
pub open spec fn stepped_result<T: GroupElem>(x0: Seq<T::Model>, p: SqrtPlan) -> Seq<T::Model> {
    sqrt_stage::<T>(x0, p, 5) + x0.skip((p.m * p.m) as int)
}

/// `l_t * acc_t` in G1.
pub open spec fn recon_fl0(acc: Seq<Scalar>, uk: UpdatingKey) -> Seq<G1Point> {
    Seq::new(acc.len(), |t: int| g1_mul_of(uk.lagrange_truncated@[t], acc[t]@))
}

/// `p_t * acc_t` in G1.
pub open spec fn recon_q0(acc: Seq<Scalar>, uk: UpdatingKey) -> Seq<G1Point> {
    Seq::new(acc.len(), |t: int| g1_mul_of(uk.p@[t], acc[t]@))
}

/// The G1 vector after the forward transform.
pub open spec fn recon_fl1(c: FullCache, acc: Seq<Scalar>, uk: UpdatingKey) -> Seq<G1Point> {
    stepped_result::<G1Point>(recon_fl0(acc, uk), recon_plan(c, false))
}

/// The scalar vector after the forward transform.
pub open spec fn recon_fw1(c: FullCache, acc: Seq<Scalar>) -> Seq<nat> {
    stepped_result::<Scalar>(models(acc), recon_plan(c, false))
}

/// The G1 vector after the products with the transform of the weights.
pub open spec fn recon_fl2(c: FullCache, acc: Seq<Scalar>, uk: UpdatingKey) -> Seq<G1Point> {
    Seq::new(acc.len(), |t: int| g1_mul_of(recon_fl1(c, acc, uk)[t], uk.w_for_q@[t]@))
}

/// The scalar vector after the products with the transform of the reversed
/// weights.
pub open spec fn recon_fw2(c: FullCache, acc: Seq<Scalar>, uk: UpdatingKey) -> Seq<nat> {
    Seq::new(acc.len(), |t: int| fmul(recon_fw1(c, acc)[t], uk.w_reverse_for_q@[t]@))
}

/// The G1 vector after the inverse transform.
pub open spec fn recon_fl3(c: FullCache, acc: Seq<Scalar>, uk: UpdatingKey) -> Seq<G1Point> {
    stepped_result::<G1Point>(recon_fl2(c, acc, uk), recon_plan(c, true))
}

/// The scalar vector after the inverse transform.
pub open spec fn recon_fw3(c: FullCache, acc: Seq<Scalar>, uk: UpdatingKey) -> Seq<nat> {
    stepped_result::<Scalar>(recon_fw2(c, acc, uk), recon_plan(c, true))
}

/// The projection quotients a reconstruction ends with:
/// `p_t * acc_t + (fl3_t + l_t * fw3_t)`.
pub open spec fn recon_q(c: FullCache, acc: Seq<Scalar>, uk: UpdatingKey) -> Seq<G1Point> {
    Seq::new(
        acc.len(),
        |t: int|
            g1_add_of(
                recon_q0(acc, uk)[t],
                g1_add_of(recon_fl3(c, acc, uk)[t], g1_mul_of(uk.lagrange_truncated@[t], recon_fw3(c, acc, uk)[t])),
            ),
    )
}

/// The working vectors of one accumulator stand where the reconstruction
/// phase of the cache says.
pub open spec fn side_ok(
    c: FullCache,
    acc: Seq<Scalar>,
    fl: Seq<G1Point>,
    fw: Seq<Scalar>,
    mem_fl: Seq<G1Point>,
    mem_fw: Seq<Scalar>,
    q: Seq<G1Point>,
    uk: UpdatingKey,
) -> bool {
    let n = c.n as int;
    match c.status {
        ReconstructPhase::VecPrepare(id) => forall|t: int|
            0 <= t < id ==> fl[t] == #[trigger] recon_fl0(acc, uk)[t] && fw[t]@ == acc[t]@ && q[t] == recon_q0(
                acc,
                uk,
            )[t],
        ReconstructPhase::Dft(st) => {
            &&& sqrt_consistent::<G1Point>(
                recon_fl0(acc, uk),
                models(fl),
                models(mem_fl),
                st.spec_phase(),
                st.spec_lev(),
                recon_plan(c, false),
            )
            &&& sqrt_consistent::<Scalar>(
                models(acc),
                models(fw),
                models(mem_fw),
                st.spec_phase(),
                st.spec_lev(),
                recon_plan(c, false),
            )
            &&& q == recon_q0(acc, uk)
        },
        ReconstructPhase::PointwiseProduct(id) => {
            &&& forall|t: int|
                0 <= t < n ==> #[trigger] fl[t] == if t < id {
                    recon_fl2(c, acc, uk)[t]
                } else {
                    recon_fl1(c, acc, uk)[t]
                }
            &&& forall|t: int|
                0 <= t < n ==> (#[trigger] fw[t])@ == if t < id {
                    recon_fw2(c, acc, uk)[t]
                } else {
                    recon_fw1(c, acc)[t]
                }
            &&& q == recon_q0(acc, uk)
        },
        ReconstructPhase::IDft(st) => {
            &&& sqrt_consistent::<G1Point>(
                recon_fl2(c, acc, uk),
                models(fl),
                models(mem_fl),
                st.spec_phase(),
                st.spec_lev(),
                recon_plan(c, true),
            )
            &&& sqrt_consistent::<Scalar>(
                recon_fw2(c, acc, uk),
                models(fw),
                models(mem_fw),
                st.spec_phase(),
                st.spec_lev(),
                recon_plan(c, true),
            )
            &&& q == recon_q0(acc, uk)
        },
        ReconstructPhase::VecIntegrate(id) => {
            &&& models(fl) == recon_fl3(c, acc, uk)
            &&& models(fw) == recon_fw3(c, acc, uk)
            &&& forall|t: int|
                0 <= t < n ==> #[trigger] q[t] == if t < id {
                    recon_q(c, acc, uk)[t]
                } else {
                    recon_q0(acc, uk)[t]
                }
        },
    }
}

/// A status the reconstruction can stand at.
pub open spec fn phase_ok(ph: ReconstructPhase, n: nat, m: nat) -> bool {
    match ph {
        ReconstructPhase::VecPrepare(id) => id < n && (id as nat) % batch_unit(n) == 0,
        ReconstructPhase::PointwiseProduct(id) => id < n && (id as nat) % batch_unit(n) == 0,
        ReconstructPhase::VecIntegrate(id) => id < n && (id as nat) % batch_unit(n) == 0,
        ReconstructPhase::Dft(st) => !st.spec_is_rev() && sqrt_status_ok(
            st.spec_phase(),
            st.spec_lev(),
            m,
            transpose_unit(m),
        ),
        ReconstructPhase::IDft(st) => st.spec_is_rev() && sqrt_status_ok(
            st.spec_phase(),
            st.spec_lev(),
            m,
            transpose_unit(m),
        ),
    }
}

/// The sizes of the cache agree: `n = 2^log_n` with `log_n >= 2`, every
/// vector has `n` entries, and the status is one the reconstruction can
/// stand at.
pub open spec fn cache_wf(c: FullCache) -> bool {
    let n = c.n as nat;
    &&& n == c.fft_info.n
    &&& n == pow2(c.fft_info.log_n as nat)
    &&& c.fft_info.log_n >= 2
    &&& c.fft_info.omegas@.len() == n
    &&& c.fft_info.omega_invs@.len() == n
    &&& c.acc_a@.len() == n
    &&& c.acc_b@.len() == n
    &&& c.q_a@.len() == n
    &&& c.q_b@.len() == n
    &&& c.fl_a@.len() == n
    &&& c.fl_b@.len() == n
    &&& c.fw_a@.len() == n
    &&& c.fw_b@.len() == n
    &&& c.mem_fl_a@.len() == n
    &&& c.mem_fl_b@.len() == n
    &&& c.mem_fw_a@.len() == n
    &&& c.mem_fw_b@.len() == n
    &&& c.mod_a.wf()
    &&& c.mod_a.len() == n
    &&& c.mod_b.wf()
    &&& c.mod_b.len() == n
    &&& phase_ok(c.status, n, cache_side(c))
}

/// The tables of the updating key cover the `n` entries of the cache.
pub open spec fn uk_covers(uk: UpdatingKey, n: nat) -> bool {
    &&& uk.lagrange_truncated@.len() >= n
    &&& uk.p@.len() >= n
    &&& uk.w_for_q@.len() >= n
    &&& uk.w_reverse_for_q@.len() >= n
}

/// The cache is well formed and both accumulators stand where its phase
/// says.
pub open spec fn cache_ok(c: FullCache, uk: UpdatingKey) -> bool {
    &&& cache_wf(c)
    &&& uk_covers(uk, c.n as nat)
    &&& side_ok(c, c.acc_a@, c.fl_a@, c.fw_a@, c.mem_fl_a@, c.mem_fw_a@, c.q_a@, uk)
    &&& side_ok(c, c.acc_b@, c.fl_b@, c.fw_b@, c.mem_fl_b@, c.mem_fw_b@, c.q_b@, uk)
}

/// The units of work of a whole reconstruction done so far: a unit is a
/// batch of `batch_unit(n)` entries outside the transforms, and a step of
/// the stepped transforms inside them.
pub open spec fn recon_progress(c: FullCache) -> nat {
    let u = batch_unit(c.n as nat);
    let b = c.n as nat / u;
    let m = cache_side(c);
    let t = sqrt_total(m, transpose_unit(m));
    match c.status {
        ReconstructPhase::VecPrepare(id) => id as nat / u,
        ReconstructPhase::Dft(st) => b + sqrt_progress(st.spec_phase(), st.spec_lev(), m, transpose_unit(m)),
        ReconstructPhase::PointwiseProduct(id) => b + t + id as nat / u,
        ReconstructPhase::IDft(st) => 2 * b + t + sqrt_progress(st.spec_phase(), st.spec_lev(), m, transpose_unit(m)),
        ReconstructPhase::VecIntegrate(id) => 2 * b + 2 * t + id as nat / u,
    }
}

/// The units of work of a whole reconstruction.
pub open spec fn recon_total(c: FullCache) -> nat {
    let u = batch_unit(c.n as nat);
    let m = cache_side(c);
    3 * (c.n as nat / u) + 2 * sqrt_total(m, transpose_unit(m))
}

/// What a reconstruction leaves alone: the sizes, the tables, the
/// accumulators and the records of changes.
pub open spec fn fixed_parts(a: FullCache, b: FullCache) -> bool {
    &&& a.n == b.n
    &&& a.haf_domain == b.haf_domain
    &&& a.fft_info == b.fft_info
    &&& a.haf_fft_info == b.haf_fft_info
    &&& a.acc_a@ == b.acc_a@
    &&& a.acc_b@ == b.acc_b@
    &&& a.mod_a == b.mod_a
    &&& a.mod_b == b.mod_b
}

/// `steps` units of work moved the cache from `c0` to `c1` with `left`
/// units unspent: either the reconstruction goes on, `steps - left` units
/// further, or it ended, after the units it had left, with the projection
/// quotients of the accumulators.
pub open spec fn recon_moved(c0: FullCache, c1: FullCache, uk: UpdatingKey, steps: nat, fin: bool, left: nat) -> bool {
    &&& cache_ok(c1, uk)
    &&& fixed_parts(c1, c0)
    &&& left <= steps
    &&& !fin ==> recon_progress(c1) == recon_progress(c0) + (steps - left)
    &&& fin ==> {
        &&& steps - left == recon_total(c0) - recon_progress(c0)
        &&& c1.status == ReconstructPhase::VecPrepare(0)
        &&& c1.q_a@ == recon_q(c0, c0.acc_a@, uk)
        &&& c1.q_b@ == recon_q(c0, c0.acc_b@, uk)
    }
}

/// The batch unit of a power of two `n >= 4` divides it.
proof fn lemma_batch_unit(n: nat, k: nat)
    requires
        n == pow2(k),
        k >= 2,
    ensures
        batch_unit(n) >= 1,
        n % batch_unit(n) == 0,
        n / batch_unit(n) >= 1,
{
    lemma2_to64();
    lemma_pow2_pos(k);
    if n < 2048 {
        vstd::arithmetic::div_mod::lemma_mod_self_0(n as int);
        vstd::arithmetic::div_mod::lemma_div_by_self(n as int);
    } else {
        if k < 11 {
            lemma_pow2_strictly_increases(k, 11);
        }
        lemma_pow2_adds(11, (k - 11) as nat);
        lemma_pow2_pos((k - 11) as nat);
        vstd::arithmetic::div_mod::lemma_mod_multiples_basic(pow2((k - 11) as nat) as int, 2048);
        vstd::arithmetic::div_mod::lemma_div_multiples_vanish(pow2((k - 11) as nat) as int, 2048);
        assert(n == pow2((k - 11) as nat) * 2048) by (nonlinear_arith)
            requires
                n == pow2(11) * pow2((k - 11) as nat),
                pow2(11) == 2048,
        ;
    }
}

/// The side of the stepped transforms of a well formed cache: the units
/// divide it, the square fits the vectors, and the progress of a status the
/// transforms stand at is below the total.
proof fn lemma_side(c: FullCache)
    requires
        cache_wf(c),
    ensures
        units_of_side(cache_side(c), transpose_unit(cache_side(c))),
        sub_ready(c.fft_info, c.n as nat, c.n as nat),
        cache_side(c) * cache_side(c) <= c.n,
        cache_side(c) >= 2,
        batch_unit(c.n as nat) >= 1,
        (c.n as nat) % batch_unit(c.n as nat) == 0,
        (c.n as nat) / batch_unit(c.n as nat) >= 1,
        forall|ph: FftPhase, lv: nat|
            sqrt_status_ok(ph, lv, cache_side(c), transpose_unit(cache_side(c))) ==> #[trigger] sqrt_progress(
                ph,
                lv,
                cache_side(c),
                transpose_unit(cache_side(c)),
            ) < sqrt_total(cache_side(c), transpose_unit(cache_side(c))),
{
    let k = c.fft_info.log_n as nat;
    let h = k / 2;
    let m = cache_side(c);
    lemma_units_all(h, false);
    crate::fft_handler::lemma_units(h);
    lemma_double_div(m, copy_unit(m));
    lemma_pow2_adds(h, h);
    if h + h < k {
        lemma_pow2_strictly_increases(h + h, k);
    }
    lemma_batch_unit(c.n as nat, k);
    assert forall|ph: FftPhase, lv: nat|
        sqrt_status_ok(ph, lv, m, transpose_unit(m)) implies #[trigger] sqrt_progress(ph, lv, m, transpose_unit(m))
        < sqrt_total(m, transpose_unit(m)) by {
        lemma_progress_bound(ph, lv, m, copy_unit(m), transpose_unit(m), transpose_unit(m));
    }
}

/// What a call `step_forward(uk, steps)` from `c0` that left `c1` and
/// returned `(fin, left)` states.
pub open spec fn step_forward_result(c0: FullCache, c1: FullCache, uk: UpdatingKey, steps: nat, fin: bool, left: nat) -> bool {
    &&& recon_moved(c0, c1, uk, steps, fin, left)
    &&& !fin ==> left == 0
    &&& fin <==> steps >= recon_total(c0) - recon_progress(c0)
}

/// Step budgets add up across calls of `step_forward`: from the start of a
/// reconstruction (`VecPrepare(0)`), whose whole work is `T`, a call with
/// `t >= T` units ends it with `t - T` units left; a call with `t < T` does
/// not end it and spends everything, and a following call with `T - t`
/// units then ends it with none left, having rebuilt the same quotients.
pub proof fn lemma_budgets_add_up(
    c0: FullCache,
    c1: FullCache,
    c2: FullCache,
    uk: UpdatingKey,
    t1: nat,
    fin1: bool,
    left1: nat,
    fin2: bool,
    left2: nat,
)
    requires
        cache_ok(c0, uk),
        c0.status == ReconstructPhase::VecPrepare(0),
        step_forward_result(c0, c1, uk, t1, fin1, left1),
        !fin1 ==> step_forward_result(c1, c2, uk, (recon_total(c0) - t1) as nat, fin2, left2),
    ensures
        recon_progress(c0) == 0,
        fin1 <==> t1 >= recon_total(c0),
        fin1 ==> left1 == t1 - recon_total(c0),
        !fin1 ==> left1 == 0 && fin2 && left2 == 0,
        !fin1 ==> c2.q_a@ == recon_q(c1, c1.acc_a@, uk) && c2.q_b@ == recon_q(c1, c1.acc_b@, uk),
        !fin1 ==> c1.acc_a@ == c0.acc_a@ && c1.acc_b@ == c0.acc_b@,
{
    lemma_side(c0);
    let u = batch_unit(c0.n as nat);
    vstd::arithmetic::div_mod::lemma_div_basics(u as int);
    assert(recon_progress(c0) == 0);
    if !fin1 {
        assert(recon_total(c1) == recon_total(c0));
        assert(recon_progress(c1) == t1);
        lemma_progress_below(c1);
    }
}

/// A status the reconstruction can stand at has work left.
proof fn lemma_progress_below(c: FullCache)
    requires
        cache_wf(c),
    ensures
        recon_progress(c) < recon_total(c),
{
    lemma_side(c);
    let u = batch_unit(c.n as nat);
    match c.status {
        ReconstructPhase::VecPrepare(id) => lemma_multiple_below(id as nat, c.n as nat, u),
        ReconstructPhase::PointwiseProduct(id) => lemma_multiple_below(id as nat, c.n as nat, u),
        ReconstructPhase::VecIntegrate(id) => lemma_multiple_below(id as nat, c.n as nat, u),
        _ => {},
    }
}

/// A completed stepped transform leaves the transformed square, then the
/// untouched tail.
proof fn lemma_done_result<T: GroupElem>(x0: Seq<T::Model>, xf: Seq<T::Model>, p: SqrtPlan)
    requires
        sqrt_done::<T>(x0, xf, p),
        x0.len() >= p.m * p.m,
    ensures
        xf == stepped_result::<T>(x0, p),
{
    lemma_stage_len::<T>(x0, p, 5);
    assert(xf =~= stepped_result::<T>(x0, p));
}

/// A vector that holds its input is at the start of a stepped transform.
proof fn lemma_start<T: GroupElem>(x0: Seq<T::Model>, xf: Seq<T::Model>, mem: Seq<T::Model>, p: SqrtPlan)
    requires
        xf == x0,
        x0.len() >= p.m * p.m,
    ensures
        sqrt_consistent::<T>(x0, xf, mem, FftPhase::PreTranspose, 0, p),
{
}

/// `n` zeros of G1.
fn g1_zeros(n: usize) -> (r: Vec<G1Point>)
    ensures
        r@ == Seq::new(n as nat, |i: int| crate::group::g1_identity()),
{
    let mut r: Vec<G1Point> = Vec::with_capacity(n);
    let mut i: usize = 0;
    while i < n
        invariant
            i <= n,
            r@ == Seq::new(i as nat, |j: int| crate::group::g1_identity()),
        decreases n - i,
    {
        r.push(g1_zero());
        i = i + 1;
    }
    r
}

/// `n` zero scalars.
fn scalar_zeros(n: usize) -> (r: Vec<Scalar>)
    ensures
        r@.len() == n,
        models(r@) == Seq::new(n as nat, |i: int| 0nat),
{
    let mut r: Vec<Scalar> = Vec::with_capacity(n);
    let mut i: usize = 0;
    while i < n
        invariant
            i <= n,
            r@.len() == i,
            forall|j: int| 0 <= j < i ==> (#[trigger] r@[j])@ == 0,
        decreases n - i,
    {
        r.push(Scalar::zero());
        i = i + 1;
    }
    proof {
        assert(models(r@) =~= Seq::new(n as nat, |j: int| 0nat));
    }
    r
}

/// `usize::trailing_zeros` for a nonzero value: the exponent of the largest
/// power of two that divides it.
fn trailing_zeros(n: usize) -> (r: u32)
    requires
        n > 0,
    ensures
        r < 64,
        n as nat % pow2(r as nat) == 0,
        n as nat % pow2((r + 1) as nat) != 0,
{
    let mut k: u32 = 0;
    let mut x: usize = n;
    proof {
        lemma2_to64();
    }
    while x % 2 == 0
        invariant
            x > 0,
            k < 64,
            n as nat == x * pow2(k as nat),
        decreases x,
    {
        proof {
            lemma_pow2_unfold((k + 1) as nat);
            lemma_pow2_pos(k as nat);
            if k + 1 >= 64 {
                lemma2_to64();
                lemma_pow2_unfold(64);
                if k + 1 > 64 {
                    lemma_pow2_strictly_increases(64, (k + 1) as nat);
                }
                assert(x >= 2);
                assert(n as nat >= 2 * pow2(k as nat)) by (nonlinear_arith)
                    requires
                        n as nat == x * pow2(k as nat),
                        x >= 2,
                ;
                assert(false);
            }
        }
        x = x / 2;
        k = k + 1;
        proof {
            assert(n as nat == x * pow2(k as nat)) by (nonlinear_arith)
                requires
                    n as nat == (2 * x) * pow2((k - 1) as nat),
                    pow2(k as nat) == 2 * pow2((k - 1) as nat),
            ;
        }
    }
    proof {
        lemma_pow2_pos(k as nat);
        lemma_pow2_unfold((k + 1) as nat);
        vstd::arithmetic::div_mod::lemma_mod_multiples_basic(x as int, pow2(k as nat) as int);
        assert(n as nat % pow2(k as nat) == 0) by (nonlinear_arith)
            requires
                n as nat == x * pow2(k as nat),
                ((x as nat) * pow2(k as nat)) % pow2(k as nat) == 0,
        ;
        if n as nat % pow2((k + 1) as nat) == 0 {
            let q = n as nat / pow2((k + 1) as nat);
            vstd::arithmetic::div_mod::lemma_fundamental_div_mod(n as int, pow2((k + 1) as nat) as int);
            assert(x == 2 * q) by (nonlinear_arith)
                requires
                    n as nat == x * pow2(k as nat),
                    n as nat == pow2((k + 1) as nat) * q,
                    pow2((k + 1) as nat) == 2 * pow2(k as nat),
                    pow2(k as nat) > 0,
            ;
            assert(false);
        }
    }
    k
}

impl FullCache {
    /// A cache of order `n` over the accumulators and quotients given: its
    /// working vectors start at zero, its records empty, its tables those of
    /// the subgroups of order `n` and of the square root of its two-power
    /// part.
    #[verifier::spinoff_prover]
    pub fn new(n: usize, acc_a: Vec<Scalar>, acc_b: Vec<Scalar>, q_a: Vec<G1Point>, q_b: Vec<G1Point>) -> (r: Self)
        requires
            4 <= n <= 0x1_0000_0000,
            n <= usize::MAX / 2 + 1,
            n % 4 == 0,
        ensures
            r.n == n,
            r.acc_a@ == acc_a@,
            r.acc_b@ == acc_b@,
            r.q_a@ == q_a@,
            r.q_b@ == q_b@,
            r.status matches ReconstructPhase::VecPrepare(id) && id == 0,
            r.mod_a.wf() && r.mod_a.len() == n && r.mod_a.values() == Seq::new(n as nat, |i: int| 0nat),
            r.mod_b.wf() && r.mod_b.len() == n && r.mod_b.values() == Seq::new(n as nat, |i: int| 0nat),
            r.mod_a.ids().len() == 0 && r.mod_b.ids().len() == 0,
            r.fl_a@.len() == n && r.fl_b@.len() == n && r.fw_a@.len() == n && r.fw_b@.len() == n,
            r.mem_fl_a@.len() == n && r.mem_fl_b@.len() == n && r.mem_fw_a@.len() == n && r.mem_fw_b@.len() == n,
            r.fl_a@ == Seq::new(n as nat, |i: int| crate::group::g1_identity()),
            r.fl_b@ == r.fl_a@ && r.mem_fl_a@ == r.fl_a@ && r.mem_fl_b@ == r.fl_a@,
            models(r.fw_a@) == Seq::new(n as nat, |i: int| 0nat),
            models(r.fw_b@) == models(r.fw_a@) && models(r.mem_fw_a@) == models(r.fw_a@)
                && models(r.mem_fw_b@) == models(r.fw_a@),
            para_fft_of(r.fft_info, n as nat, root_of_unity_of(conv_size(n as nat))),
            r.haf_domain.spec_size() == r.haf_fft_info.n,
            exists|t: nat|
                n as nat % pow2(t) == 0 && n as nat % pow2(t + 1) != 0 && #[trigger] para_fft_of(
                    r.haf_fft_info,
                    pow2(t / 2),
                    root_of_unity_of(pow2(t / 2)),
                ),
            crate::domain::is_pow2(n as nat) && acc_a@.len() == n && acc_b@.len() == n && q_a@.len() == n
                && q_b@.len() == n ==> cache_wf(r),
    {
        let domain = GeneralEvaluationDomain::new(n).unwrap();
        let tz = trailing_zeros(n);
        proof {
            lemma2_to64();
            if tz < 2 {
                lemma_pow2_unfold(1);
                lemma_pow2_unfold(2);
                if tz == 0 {
                    assert(n as nat % 2 != 0);
                } else {
                    assert(n as nat % 4 != 0);
                }
                assert(false);
            }
            let q = n as nat / pow2(tz as nat);
            lemma_pow2_pos(tz as nat);
            vstd::arithmetic::div_mod::lemma_fundamental_div_mod(n as int, pow2(tz as nat) as int);
            assert(pow2(tz as nat) <= n) by (nonlinear_arith)
                requires
                    n as nat == pow2(tz as nat) * q,
                    n > 0,
                    pow2(tz as nat) > 0,
            ;
            if ((tz / 2) as nat) < (tz as nat) {
                lemma_pow2_strictly_increases((tz / 2) as nat, tz as nat);
            }
            lemma_pow2_unfold((tz / 2) as nat);
            lemma_pow2_pos(((tz / 2) - 1) as nat);
        }
        let haf_n: usize = pow2_usize((tz / 2) as usize);
        let haf_domain = GeneralEvaluationDomain::new(haf_n).unwrap();
        let fl_a = g1_zeros(n);
        let fl_b = g1_zeros(n);
        let fw_a = scalar_zeros(n);
        let fw_b = scalar_zeros(n);
        let mod_a = SparseRecord::new(n);
        let mod_b = SparseRecord::new(n);
        let fft_info = CustomParaFFT::new(n, domain.group_gen());
        let haf_fft_info = CustomParaFFT::new(haf_n, haf_domain.group_gen());
        proof {
            lemma_next_pow2_unique(domain.spec_size(), n as nat);
            let hk = (tz / 2) as nat;
            assert(is_pow2(pow2(hk)));
            lemma_pow2_pos(hk);
            assert(is_next_pow2(pow2(hk), pow2(hk)));
            lemma_next_pow2_unique(pow2(hk), pow2(hk));
            lemma_next_pow2_unique(haf_domain.spec_size(), pow2(hk));
            assert(haf_domain.spec_size() == pow2(hk));
            let t = tz as nat;
            assert(t / 2 == hk);
            assert(para_fft_of(haf_fft_info, pow2(t / 2), root_of_unity_of(pow2(t / 2))));
        }
        let r = Self {
            n,
            haf_domain,
            acc_a,
            acc_b,
            q_a,
            q_b,
            fl_a,
            fl_b,
            fw_a,
            fw_b,
            mem_fl_a: g1_zeros(n),
            mem_fl_b: g1_zeros(n),
            mem_fw_a: scalar_zeros(n),
            mem_fw_b: scalar_zeros(n),
            mod_a,
            mod_b,
            status: ReconstructPhase::VecPrepare(0),
            fft_info,
            haf_fft_info,
        };
        proof {
            if crate::domain::is_pow2(n as nat) {
                let k = choose|k: nat| n as nat == pow2(k);
                lemma_log2_of_pow2(r.fft_info.log_n as nat, k);
                if k < 2 {
                    lemma_pow2_unfold(1);
                    lemma_pow2_unfold(2);
                    assert(false);
                }
                vstd::arithmetic::div_mod::lemma_small_mod(0, batch_unit(n as nat));
            }
            let t = tz as nat;
            assert(n as nat % pow2(t) == 0 && n as nat % pow2(t + 1) != 0);
            assert(para_fft_of(r.haf_fft_info, pow2(t / 2), root_of_unity_of(pow2(t / 2))));
        }
        r
    }

    /// begin the amortizing reconstruct: the recorded changes are added to
    /// the accumulators and cleared, and the reconstruction starts over.
    pub fn flash(&mut self)
        requires
            cache_wf(*old(self)),
        ensures
            final(self).status matches ReconstructPhase::VecPrepare(id) && id == 0,
            models(final(self).acc_a@) == Seq::new(
                old(self).n as nat,
                |i: int|
                    if old(self).mod_a.ids().contains(i as usize) {
                        fadd(old(self).acc_a@[i]@, old(self).mod_a.values()[i])
                    } else {
                        old(self).acc_a@[i]@
                    },
            ),
            models(final(self).acc_b@) == Seq::new(
                old(self).n as nat,
                |i: int|
                    if old(self).mod_b.ids().contains(i as usize) {
                        fadd(old(self).acc_b@[i]@, old(self).mod_b.values()[i])
                    } else {
                        old(self).acc_b@[i]@
                    },
            ),
            final(self).mod_a.values() == Seq::new(old(self).n as nat, |i: int| 0nat),
            final(self).mod_b.values() == Seq::new(old(self).n as nat, |i: int| 0nat),
            final(self).mod_a.ids().len() == 0,
            final(self).mod_b.ids().len() == 0,
            cache_wf(*final(self)),
            same_tables(*final(self), *old(self)),
    {
        self.status = ReconstructPhase::VecPrepare(0);
        let ghost n = self.n as nat;
        let ghost acc0 = self.acc_a@;
        let ghost vals_a = self.mod_a.values();
        let ghost ids_a0 = self.mod_a.ids();
        let pa = self.mod_a.parse();
        proof {
            self.mod_a.lemma_sparse();
            lemma_same_members(ids_a0, self.mod_a.ids());
        }
        add_entries_to(&mut self.acc_a, &pa, Ghost(vals_a), Ghost(self.mod_a.ids()));
        let ghost vals_b = self.mod_b.values();
        let ghost ids_b0 = self.mod_b.ids();
        let pb = self.mod_b.parse();
        proof {
            self.mod_b.lemma_sparse();
            lemma_same_members(ids_b0, self.mod_b.ids());
        }
        add_entries_to(&mut self.acc_b, &pb, Ghost(vals_b), Ghost(self.mod_b.ids()));
        self.mod_a.clr();
        self.mod_b.clr();
        proof {
            lemma_pow2_pos(self.fft_info.log_n as nat);
            vstd::arithmetic::div_mod::lemma_small_mod(0, batch_unit(n));
        }
    }

    /// projective term between existing a and new delta b
    pub fn calc_update_a(&self, delta_a: &Vec<(usize, Scalar)>) -> (r: G1Point)
        requires
            sparse_in_range(delta_a@, self.q_b@.len()),
        ensures
            r == sparse_g1_eval(delta_a@, self.q_b@),
    {
        crate::utils::inner_product_sparse_f_dense_g(delta_a.as_slice(), self.q_b.as_slice())
    }

    /// projective term between existing b and new delta a
    pub fn calc_update_b(&self, delta_b: &Vec<(usize, Scalar)>) -> (r: G1Point)
        requires
            sparse_in_range(delta_b@, self.q_a@.len()),
        ensures
            r == sparse_g1_eval(delta_b@, self.q_a@),
    {
        crate::utils::inner_product_sparse_f_dense_g(delta_b.as_slice(), self.q_a.as_slice())
    }
}

/// Entries `[lo, hi)` of one side prepared for the transforms:
/// `fl_t = l_t * acc_t`, `fw_t = acc_t`, `q_t = p_t * acc_t`.
fn prepare_side(
    acc: &Vec<Scalar>,
    fl: &mut Vec<G1Point>,
    fw: &mut Vec<Scalar>,
    q: &mut Vec<G1Point>,
    up: &UpdatingKey,
    lo: usize,
    hi: usize,
)
    requires
        lo <= hi <= acc@.len(),
        old(fl)@.len() == acc@.len(),
        old(fw)@.len() == acc@.len(),
        old(q)@.len() == acc@.len(),
        uk_covers(*up, acc@.len()),
    ensures
        final(fl)@.len() == acc@.len(),
        final(fw)@.len() == acc@.len(),
        final(q)@.len() == acc@.len(),
        forall|t: int| lo <= t < hi ==> #[trigger] final(fl)@[t] == recon_fl0(acc@, *up)[t],
        forall|t: int| lo <= t < hi ==> #[trigger] final(fw)@[t] == acc@[t],
        forall|t: int| lo <= t < hi ==> #[trigger] final(q)@[t] == recon_q0(acc@, *up)[t],
        forall|t: int| 0 <= t < acc@.len() && !(lo <= t < hi) ==> #[trigger] final(fl)@[t] == old(fl)@[t],
        forall|t: int| 0 <= t < acc@.len() && !(lo <= t < hi) ==> #[trigger] final(fw)@[t] == old(fw)@[t],
        forall|t: int| 0 <= t < acc@.len() && !(lo <= t < hi) ==> #[trigger] final(q)@[t] == old(q)@[t],
{
    let mut t: usize = lo;
    while t < hi
        invariant
            lo <= t <= hi <= acc@.len(),
            fl@.len() == acc@.len(),
            fw@.len() == acc@.len(),
            q@.len() == acc@.len(),
            uk_covers(*up, acc@.len()),
            forall|j: int| lo <= j < t ==> #[trigger] fl@[j] == recon_fl0(acc@, *up)[j],
            forall|j: int| lo <= j < t ==> #[trigger] fw@[j] == acc@[j],
            forall|j: int| lo <= j < t ==> #[trigger] q@[j] == recon_q0(acc@, *up)[j],
            forall|j: int| 0 <= j < acc@.len() && !(lo <= j < t) ==> #[trigger] fl@[j] == old(fl)@[j],
            forall|j: int| 0 <= j < acc@.len() && !(lo <= j < t) ==> #[trigger] fw@[j] == old(fw)@[j],
            forall|j: int| 0 <= j < acc@.len() && !(lo <= j < t) ==> #[trigger] q@[j] == old(q)@[j],
        decreases hi - t,
    {
        let f = acc[t];
        fl.set(t, g1_mul(&up.lagrange_truncated[t], &f));
        fw.set(t, f);
        q.set(t, g1_mul(&up.p[t], &f));
        t = t + 1;
    }
}

/// Entries `[lo, hi)` of one side multiplied by the transforms of the
/// weights: `fl_t *= w_t` in G1, `fw_t *= w_rev_t`.
fn product_side(fl: &mut Vec<G1Point>, fw: &mut Vec<Scalar>, up: &UpdatingKey, lo: usize, hi: usize)
    requires
        lo <= hi <= old(fl)@.len(),
        old(fw)@.len() == old(fl)@.len(),
        uk_covers(*up, old(fl)@.len() as nat),
    ensures
        final(fl)@.len() == old(fl)@.len(),
        final(fw)@.len() == old(fw)@.len(),
        forall|t: int| lo <= t < hi ==> #[trigger] final(fl)@[t] == g1_mul_of(old(fl)@[t], up.w_for_q@[t]@),
        forall|t: int| lo <= t < hi ==> (#[trigger] final(fw)@[t])@ == fmul(old(fw)@[t]@, up.w_reverse_for_q@[t]@),
        forall|t: int| 0 <= t < old(fl)@.len() && !(lo <= t < hi) ==> #[trigger] final(fl)@[t] == old(fl)@[t],
        forall|t: int| 0 <= t < old(fl)@.len() && !(lo <= t < hi) ==> #[trigger] final(fw)@[t] == old(fw)@[t],
{
    let mut t: usize = lo;
    while t < hi
        invariant
            lo <= t <= hi <= fl@.len(),
            fl@.len() == old(fl)@.len(),
            fw@.len() == old(fw)@.len(),
            fw@.len() == fl@.len(),
            uk_covers(*up, old(fl)@.len() as nat),
            forall|j: int| lo <= j < t ==> #[trigger] fl@[j] == g1_mul_of(old(fl)@[j], up.w_for_q@[j]@),
            forall|j: int| lo <= j < t ==> (#[trigger] fw@[j])@ == fmul(old(fw)@[j]@, up.w_reverse_for_q@[j]@),
            forall|j: int| 0 <= j < fl@.len() && !(lo <= j < t) ==> #[trigger] fl@[j] == old(fl)@[j],
            forall|j: int| 0 <= j < fl@.len() && !(lo <= j < t) ==> #[trigger] fw@[j] == old(fw)@[j],
        decreases hi - t,
    {
        let a = g1_mul(&fl[t], &up.w_for_q[t]);
        fl.set(t, a);
        let b = fr_mul(&fw[t], &up.w_reverse_for_q[t]);
        fw.set(t, b);
        t = t + 1;
    }
}

/// Entries `[lo, hi)` of one side's quotients completed:
/// `q_t += fl_t + l_t * fw_t`.
fn integrate_side(fl: &Vec<G1Point>, fw: &Vec<Scalar>, q: &mut Vec<G1Point>, up: &UpdatingKey, lo: usize, hi: usize)
    requires
        lo <= hi <= fl@.len(),
        fw@.len() == fl@.len(),
        old(q)@.len() == fl@.len(),
        uk_covers(*up, fl@.len() as nat),
    ensures
        final(q)@.len() == old(q)@.len(),
        forall|t: int|
            lo <= t < hi ==> #[trigger] final(q)@[t] == g1_add_of(
                old(q)@[t],
                g1_add_of(fl@[t], g1_mul_of(up.lagrange_truncated@[t], fw@[t]@)),
            ),
        forall|t: int| 0 <= t < fl@.len() && !(lo <= t < hi) ==> #[trigger] final(q)@[t] == old(q)@[t],
{
    let mut t: usize = lo;
    while t < hi
        invariant
            lo <= t <= hi <= fl@.len(),
            fw@.len() == fl@.len(),
            q@.len() == fl@.len(),
            uk_covers(*up, fl@.len() as nat),
            forall|j: int|
                lo <= j < t ==> #[trigger] q@[j] == g1_add_of(
                    old(q)@[j],
                    g1_add_of(fl@[j], g1_mul_of(up.lagrange_truncated@[j], fw@[j]@)),
                ),
            forall|j: int| 0 <= j < fl@.len() && !(lo <= j < t) ==> #[trigger] q@[j] == old(q)@[j],
        decreases hi - t,
    {
        let lf = g1_mul(&up.lagrange_truncated[t], &fw[t]);
        let s = g1_add(&fl[t], &lf);
        let nq = g1_add(&q[t], &s);
        q.set(t, nq);
        t = t + 1;
    }
}

impl FullCache {
    /// The number of entries handled per unit of work outside the
    /// transforms.
    fn unit_steps(&self) -> (r: usize)
        ensures
            r == batch_unit(self.n as nat),
    {
        if self.n < GROUP_OP_BATCH_SIZE {
            self.n
        } else {
            GROUP_OP_BATCH_SIZE
        }
    }

    /// How many units of work a batch phase at `id` does with `rem` units
    /// given, and the entry it reaches.
    fn batch_span(&self, id: usize, rem: usize) -> (r: (usize, usize))
        requires
            cache_wf(*self),
            id < self.n,
            (id as nat) % batch_unit(self.n as nat) == 0,
            rem > 0,
        ensures
            1 <= r.0 <= rem,
            r.1 == id + r.0 * batch_unit(self.n as nat),
            r.1 <= self.n,
            (r.1 as nat) % batch_unit(self.n as nat) == 0,
            (r.1 as nat) / batch_unit(self.n as nat) == (id as nat) / batch_unit(self.n as nat) + r.0,
    {
        let unt = self.unit_steps();
        proof {
            lemma_side(*self);
        }
        let most = (self.n - id) / unt;
        let cnt = if rem < most {
            rem
        } else {
            most
        };
        proof {
            lemma_chunk(id as nat, self.n as nat, unt as nat, cnt as nat);
        }
        (cnt, id + cnt * unt)
    }

    /// A unit of the preparation: `p_t * acc_t` into the quotients,
    /// `l_t * acc_t` and `acc_t` into the working vectors.
    fn prepare_step(&mut self, up: &UpdatingKey, id: usize, rem: usize) -> (r: (bool, usize))
        requires
            cache_ok(*old(self), *up),
            old(self).status == ReconstructPhase::VecPrepare(id),
            rem > 0,
        ensures
            recon_moved(*old(self), *final(self), *up, rem as nat, r.0, r.1 as nat),
            r.1 < rem,
            !r.0,
    {
        proof {
            lemma_side(*self);
        }
        let (cnt, nid) = self.batch_span(id, rem);
        prepare_side(&self.acc_a, &mut self.fl_a, &mut self.fw_a, &mut self.q_a, up, id, nid);
        prepare_side(&self.acc_b, &mut self.fl_b, &mut self.fw_b, &mut self.q_b, up, id, nid);
        if nid >= self.n {
            self.status = ReconstructPhase::Dft(SqrtFftStatus::new(false));
            proof {
                let n = self.n as nat;
                let m = cache_side(*self);
                lemma_stage_len::<G1Point>(recon_fl0(self.acc_a@, *up), recon_plan(*self, false), 0);
                assert(models(self.fl_a@) =~= recon_fl0(self.acc_a@, *up));
                assert(models(self.fl_b@) =~= recon_fl0(self.acc_b@, *up));
                assert forall|t: int| 0 <= t < n implies models(self.fw_a@)[t] == models(self.acc_a@)[t] by {
                    assert(self.fw_a@[t] == old(self).fw_a@[t] || self.fw_a@[t] == self.acc_a@[t]);
                    assert(recon_fl0(self.acc_a@, *up)[t] == recon_fl0(old(self).acc_a@, *up)[t]);
                }
                assert forall|t: int| 0 <= t < n implies models(self.fw_b@)[t] == models(self.acc_b@)[t] by {
                    assert(self.fw_b@[t] == old(self).fw_b@[t] || self.fw_b@[t] == self.acc_b@[t]);
                    assert(recon_fl0(self.acc_b@, *up)[t] == recon_fl0(old(self).acc_b@, *up)[t]);
                }
                assert(models(self.fw_a@) =~= models(self.acc_a@));
                assert(models(self.fw_b@) =~= models(self.acc_b@));
                assert forall|t: int| 0 <= t < n implies self.q_a@[t] == recon_q0(self.acc_a@, *up)[t] by {
                    assert(recon_fl0(self.acc_a@, *up)[t] == recon_fl0(old(self).acc_a@, *up)[t]);
                }
                assert forall|t: int| 0 <= t < n implies self.q_b@[t] == recon_q0(self.acc_b@, *up)[t] by {
                    assert(recon_fl0(self.acc_b@, *up)[t] == recon_fl0(old(self).acc_b@, *up)[t]);
                }
                assert(self.q_a@ =~= recon_q0(self.acc_a@, *up));
                assert(self.q_b@ =~= recon_q0(self.acc_b@, *up));
                lemma_start::<G1Point>(recon_fl0(self.acc_a@, *up), models(self.fl_a@), models(self.mem_fl_a@), recon_plan(*self, false));
                lemma_start::<G1Point>(recon_fl0(self.acc_b@, *up), models(self.fl_b@), models(self.mem_fl_b@), recon_plan(*self, false));
                lemma_start::<Scalar>(models(self.acc_a@), models(self.fw_a@), models(self.mem_fw_a@), recon_plan(*self, false));
                lemma_start::<Scalar>(models(self.acc_b@), models(self.fw_b@), models(self.mem_fw_b@), recon_plan(*self, false));
                vstd::arithmetic::div_mod::lemma_small_mod(0, copy_unit(m));
                vstd::arithmetic::div_mod::lemma_div_of0(copy_unit(m) as int);
            }
        } else {
            self.status = ReconstructPhase::VecPrepare(nid);
        }
        (false, rem - cnt)
    }

    /// A unit of the products with the transforms of the weights.
    fn product_step(&mut self, up: &UpdatingKey, id: usize, rem: usize) -> (r: (bool, usize))
        requires
            cache_ok(*old(self), *up),
            old(self).status == ReconstructPhase::PointwiseProduct(id),
            rem > 0,
        ensures
            recon_moved(*old(self), *final(self), *up, rem as nat, r.0, r.1 as nat),
            r.1 < rem,
            !r.0,
    {
        proof {
            lemma_side(*self);
        }
        let (cnt, nid) = self.batch_span(id, rem);
        product_side(&mut self.fl_a, &mut self.fw_a, up, id, nid);
        product_side(&mut self.fl_b, &mut self.fw_b, up, id, nid);
        let ghost c0 = *old(self);
        if nid >= self.n {
            self.status = ReconstructPhase::IDft(SqrtFftStatus::new(true));
            proof {
                let n = self.n as nat;
                let m = cache_side(*self);
                assert forall|t: int| 0 <= t < n implies models(self.fl_a@)[t] == recon_fl2(c0, self.acc_a@, *up)[t] by {
                    assert(c0.fl_a@[t] == if t < id {
                        recon_fl2(c0, c0.acc_a@, *up)[t]
                    } else {
                        recon_fl1(c0, c0.acc_a@, *up)[t]
                    });
                }
                assert forall|t: int| 0 <= t < n implies models(self.fl_b@)[t] == recon_fl2(c0, self.acc_b@, *up)[t] by {
                    assert(c0.fl_b@[t] == if t < id {
                        recon_fl2(c0, c0.acc_b@, *up)[t]
                    } else {
                        recon_fl1(c0, c0.acc_b@, *up)[t]
                    });
                }
                assert forall|t: int| 0 <= t < n implies models(self.fw_a@)[t] == recon_fw2(c0, self.acc_a@, *up)[t] by {
                    assert(c0.fw_a@[t]@ == if t < id {
                        recon_fw2(c0, c0.acc_a@, *up)[t]
                    } else {
                        recon_fw1(c0, c0.acc_a@)[t]
                    });
                }
                assert forall|t: int| 0 <= t < n implies models(self.fw_b@)[t] == recon_fw2(c0, self.acc_b@, *up)[t] by {
                    assert(c0.fw_b@[t]@ == if t < id {
                        recon_fw2(c0, c0.acc_b@, *up)[t]
                    } else {
                        recon_fw1(c0, c0.acc_b@)[t]
                    });
                }
                assert(models(self.fl_a@) =~= recon_fl2(c0, self.acc_a@, *up));
                assert(models(self.fl_b@) =~= recon_fl2(c0, self.acc_b@, *up));
                assert(models(self.fw_a@) =~= recon_fw2(c0, self.acc_a@, *up));
                assert(models(self.fw_b@) =~= recon_fw2(c0, self.acc_b@, *up));
                lemma_start::<G1Point>(recon_fl2(c0, self.acc_a@, *up), models(self.fl_a@), models(self.mem_fl_a@), recon_plan(c0, true));
                lemma_start::<G1Point>(recon_fl2(c0, self.acc_b@, *up), models(self.fl_b@), models(self.mem_fl_b@), recon_plan(c0, true));
                lemma_start::<Scalar>(recon_fw2(c0, self.acc_a@, *up), models(self.fw_a@), models(self.mem_fw_a@), recon_plan(c0, true));
                lemma_start::<Scalar>(recon_fw2(c0, self.acc_b@, *up), models(self.fw_b@), models(self.mem_fw_b@), recon_plan(c0, true));
                vstd::arithmetic::div_mod::lemma_small_mod(0, copy_unit(m));
                vstd::arithmetic::div_mod::lemma_div_of0(copy_unit(m) as int);
            }
        } else {
            self.status = ReconstructPhase::PointwiseProduct(nid);
            proof {
                let n = self.n as nat;
                assert forall|t: int| 0 <= t < n implies #[trigger] self.fl_a@[t] == if t < nid {
                    recon_fl2(*self, self.acc_a@, *up)[t]
                } else {
                    recon_fl1(*self, self.acc_a@, *up)[t]
                } by {
                    assert(c0.fl_a@[t] == if t < id {
                        recon_fl2(c0, c0.acc_a@, *up)[t]
                    } else {
                        recon_fl1(c0, c0.acc_a@, *up)[t]
                    });
                }
                assert forall|t: int| 0 <= t < n implies #[trigger] self.fl_b@[t] == if t < nid {
                    recon_fl2(*self, self.acc_b@, *up)[t]
                } else {
                    recon_fl1(*self, self.acc_b@, *up)[t]
                } by {
                    assert(c0.fl_b@[t] == if t < id {
                        recon_fl2(c0, c0.acc_b@, *up)[t]
                    } else {
                        recon_fl1(c0, c0.acc_b@, *up)[t]
                    });
                }
                assert forall|t: int| 0 <= t < n implies (#[trigger] self.fw_a@[t])@ == if t < nid {
                    recon_fw2(*self, self.acc_a@, *up)[t]
                } else {
                    recon_fw1(*self, self.acc_a@)[t]
                } by {
                    assert(c0.fw_a@[t]@ == if t < id {
                        recon_fw2(c0, c0.acc_a@, *up)[t]
                    } else {
                        recon_fw1(c0, c0.acc_a@)[t]
                    });
                }
                assert forall|t: int| 0 <= t < n implies (#[trigger] self.fw_b@[t])@ == if t < nid {
                    recon_fw2(*self, self.acc_b@, *up)[t]
                } else {
                    recon_fw1(*self, self.acc_b@)[t]
                } by {
                    assert(c0.fw_b@[t]@ == if t < id {
                        recon_fw2(c0, c0.acc_b@, *up)[t]
                    } else {
                        recon_fw1(c0, c0.acc_b@)[t]
                    });
                }
            }
        }
        (false, rem - cnt)
    }

    /// A unit of the completion of the quotients: `q_t += fl_t + l_t * fw_t`.
    fn integrate_step(&mut self, up: &UpdatingKey, id: usize, rem: usize) -> (r: (bool, usize))
        requires
            cache_ok(*old(self), *up),
            old(self).status == ReconstructPhase::VecIntegrate(id),
            rem > 0,
        ensures
            recon_moved(*old(self), *final(self), *up, rem as nat, r.0, r.1 as nat),
            r.1 < rem,
    {
        proof {
            lemma_side(*self);
        }
        let (cnt, nid) = self.batch_span(id, rem);
        integrate_side(&self.fl_a, &self.fw_a, &mut self.q_a, up, id, nid);
        integrate_side(&self.fl_b, &self.fw_b, &mut self.q_b, up, id, nid);
        let ghost c0 = *old(self);
        proof {
            let n = self.n as nat;
            assert forall|t: int| 0 <= t < n implies #[trigger] self.q_a@[t] == if t < nid {
                recon_q(c0, self.acc_a@, *up)[t]
            } else {
                recon_q0(self.acc_a@, *up)[t]
            } by {
                assert(c0.q_a@[t] == if t < id {
                    recon_q(c0, c0.acc_a@, *up)[t]
                } else {
                    recon_q0(c0.acc_a@, *up)[t]
                });
                assert(models(self.fl_a@)[t] == recon_fl3(c0, c0.acc_a@, *up)[t]);
                assert(models(self.fw_a@)[t] == recon_fw3(c0, c0.acc_a@, *up)[t]);
            }
            assert forall|t: int| 0 <= t < n implies #[trigger] self.q_b@[t] == if t < nid {
                recon_q(c0, self.acc_b@, *up)[t]
            } else {
                recon_q0(self.acc_b@, *up)[t]
            } by {
                assert(c0.q_b@[t] == if t < id {
                    recon_q(c0, c0.acc_b@, *up)[t]
                } else {
                    recon_q0(c0.acc_b@, *up)[t]
                });
                assert(models(self.fl_b@)[t] == recon_fl3(c0, c0.acc_b@, *up)[t]);
                assert(models(self.fw_b@)[t] == recon_fw3(c0, c0.acc_b@, *up)[t]);
            }
        }
        if nid >= self.n {
            self.status = ReconstructPhase::VecPrepare(0);
            proof {
                assert(self.q_a@ =~= recon_q(c0, c0.acc_a@, *up));
                assert(self.q_b@ =~= recon_q(c0, c0.acc_b@, *up));
                vstd::arithmetic::div_mod::lemma_small_mod(0, batch_unit(self.n as nat));
            }
            return (true, rem - cnt);
        }
        self.status = ReconstructPhase::VecIntegrate(nid);
        (false, rem - cnt)
    }

    /// Take a step forward: at most `try_steps` units of work of the
    /// reconstruction of the projection quotients. Returns whether the
    /// reconstruction ended, and the units left unspent.
    pub fn step_forward(&mut self, up: &UpdatingKey, try_steps: usize) -> (r: (bool, usize))
        requires
            cache_ok(*old(self), *up),
        ensures
            recon_moved(*old(self), *final(self), *up, try_steps as nat, r.0, r.1 as nat),
            !r.0 ==> r.1 == 0,
            r.0 <==> try_steps >= recon_total(*old(self)) - recon_progress(*old(self)),
            try_steps == 0 ==> *final(self) == *old(self),
            step_forward_result(*old(self), *final(self), *up, try_steps as nat, r.0, r.1 as nat),
    {
        let mut rem = try_steps;
        while rem > 0
            invariant
                recon_moved(*old(self), *self, *up, try_steps as nat, false, rem as nat),
                rem <= try_steps,
                rem == try_steps ==> *self == *old(self),
            decreases rem,
        {
            let r = match self.status {
                ReconstructPhase::VecPrepare(id) => self.prepare_step(up, id, rem),
                ReconstructPhase::Dft(st) => self.transform_step(up, st, false, rem),
                ReconstructPhase::PointwiseProduct(id) => self.product_step(up, id, rem),
                ReconstructPhase::IDft(st) => self.transform_step(up, st, true, rem),
                ReconstructPhase::VecIntegrate(id) => self.integrate_step(up, id, rem),
            };
            if r.0 {
                return (true, r.1);
            }
            rem = r.1;
        }
        proof {
            lemma_progress_below(*self);
        }
        (false, rem)
    }

    /// Units of the forward (or, with `rev`, inverse) stepped transforms of
    /// the four working vectors. The four stand at the same status and are
    /// given the same units, so they stay in lockstep.
    #[verifier::spinoff_prover]
    #[verifier::rlimit(40)]
    fn transform_step(&mut self, up: &UpdatingKey, st: SqrtFftStatus, rev: bool, rem: usize) -> (r: (bool, usize))
        requires
            cache_ok(*old(self), *up),
            old(self).status == (if rev {
                ReconstructPhase::IDft(st)
            } else {
                ReconstructPhase::Dft(st)
            }),
            rem > 0,
        ensures
            recon_moved(*old(self), *final(self), *up, rem as nat, r.0, r.1 as nat),
            r.1 < rem,
            !r.0,
    {
        proof {
            lemma_side(*self);
        }
        let ghost c0 = *self;
        let mut s1a = st;
        let mut s1b = st;
        let mut s2a = st;
        let mut s2b = st;
        let f1a = sqrt_fft_fw_g1(&self.haf_domain, &self.fft_info, &mut self.fl_a, &mut s1a, &mut self.mem_fl_a, rem);
        let f1b = sqrt_fft_fw_g1(&self.haf_domain, &self.fft_info, &mut self.fl_b, &mut s1b, &mut self.mem_fl_b, rem);
        let f2a = sqrt_fft_fw_field(&self.haf_domain, &self.fft_info, &mut self.fw_a, &mut s2a, &mut self.mem_fw_a, rem);
        let f2b = sqrt_fft_fw_field(&self.haf_domain, &self.fft_info, &mut self.fw_b, &mut s2b, &mut self.mem_fw_b, rem);
        proof {
            let m = cache_side(c0);
            let u2 = transpose_unit(m);
            lemma_rounds_in_lockstep(
                st.spec_phase(), st.spec_lev(), m, u2, rem as nat,
                f1a.0, f1a.1 as nat, s1a.spec_phase(), s1a.spec_lev(),
                f1b.0, f1b.1 as nat, s1b.spec_phase(), s1b.spec_lev(),
            );
            lemma_rounds_in_lockstep(
                st.spec_phase(), st.spec_lev(), m, u2, rem as nat,
                f1a.0, f1a.1 as nat, s1a.spec_phase(), s1a.spec_lev(),
                f2a.0, f2a.1 as nat, s2a.spec_phase(), s2a.spec_lev(),
            );
            lemma_rounds_in_lockstep(
                st.spec_phase(), st.spec_lev(), m, u2, rem as nat,
                f1a.0, f1a.1 as nat, s1a.spec_phase(), s1a.spec_lev(),
                f2b.0, f2b.1 as nat, s2b.spec_phase(), s2b.spec_lev(),
            );
        }
        if f1a.0 {
            self.status = if rev {
                ReconstructPhase::VecIntegrate(0)
            } else {
                ReconstructPhase::PointwiseProduct(0)
            };
            proof {
                let n = self.n as nat;
                let p = recon_plan(c0, rev);
                let xa = if rev { recon_fl2(c0, c0.acc_a@, *up) } else { recon_fl0(c0.acc_a@, *up) };
                let xb = if rev { recon_fl2(c0, c0.acc_b@, *up) } else { recon_fl0(c0.acc_b@, *up) };
                let ya = if rev { recon_fw2(c0, c0.acc_a@, *up) } else { models(c0.acc_a@) };
                let yb = if rev { recon_fw2(c0, c0.acc_b@, *up) } else { models(c0.acc_b@) };
                assert(sqrt_consistent::<G1Point>(xa, models(c0.fl_a@), models(c0.mem_fl_a@), st.spec_phase(), st.spec_lev(), p));
                assert(sqrt_consistent::<G1Point>(xb, models(c0.fl_b@), models(c0.mem_fl_b@), st.spec_phase(), st.spec_lev(), p));
                assert(sqrt_consistent::<Scalar>(ya, models(c0.fw_a@), models(c0.mem_fw_a@), st.spec_phase(), st.spec_lev(), p));
                assert(sqrt_consistent::<Scalar>(yb, models(c0.fw_b@), models(c0.mem_fw_b@), st.spec_phase(), st.spec_lev(), p));
                lemma_done_result::<G1Point>(xa, models(self.fl_a@), p);
                lemma_done_result::<G1Point>(xb, models(self.fl_b@), p);
                lemma_done_result::<Scalar>(ya, models(self.fw_a@), p);
                lemma_done_result::<Scalar>(yb, models(self.fw_b@), p);
                vstd::arithmetic::div_mod::lemma_small_mod(0, batch_unit(n));
                vstd::arithmetic::div_mod::lemma_div_of0(batch_unit(n) as int);
                if !rev {
                    assert forall|t: int| 0 <= t < n implies #[trigger] self.fl_a@[t] == recon_fl1(*self, self.acc_a@, *up)[t] by {
                        assert(models(self.fl_a@)[t] == self.fl_a@[t]);
                    }
                    assert forall|t: int| 0 <= t < n implies #[trigger] self.fl_b@[t] == recon_fl1(*self, self.acc_b@, *up)[t] by {
                        assert(models(self.fl_b@)[t] == self.fl_b@[t]);
                    }
                    assert forall|t: int| 0 <= t < n implies (#[trigger] self.fw_a@[t])@ == recon_fw1(*self, self.acc_a@)[t] by {
                        assert(models(self.fw_a@)[t] == self.fw_a@[t]@);
                    }
                    assert forall|t: int| 0 <= t < n implies (#[trigger] self.fw_b@[t])@ == recon_fw1(*self, self.acc_b@)[t] by {
                        assert(models(self.fw_b@)[t] == self.fw_b@[t]@);
                    }
                } else {
                    assert forall|t: int| 0 <= t < n implies #[trigger] self.q_a@[t] == recon_q0(self.acc_a@, *up)[t] by {
                    }
                    assert forall|t: int| 0 <= t < n implies #[trigger] self.q_b@[t] == recon_q0(self.acc_b@, *up)[t] by {
                    }
                }
            }
        } else {
            self.status = if rev {
                ReconstructPhase::IDft(s1a)
            } else {
                ReconstructPhase::Dft(s1a)
            };
            proof {
                let p = recon_plan(c0, rev);
                let xa = if rev { recon_fl2(c0, c0.acc_a@, *up) } else { recon_fl0(c0.acc_a@, *up) };
                let xb = if rev { recon_fl2(c0, c0.acc_b@, *up) } else { recon_fl0(c0.acc_b@, *up) };
                let ya = if rev { recon_fw2(c0, c0.acc_a@, *up) } else { models(c0.acc_a@) };
                let yb = if rev { recon_fw2(c0, c0.acc_b@, *up) } else { models(c0.acc_b@) };
                assert(sqrt_consistent::<G1Point>(xa, models(c0.fl_a@), models(c0.mem_fl_a@), st.spec_phase(), st.spec_lev(), p));
                assert(sqrt_consistent::<G1Point>(xb, models(c0.fl_b@), models(c0.mem_fl_b@), st.spec_phase(), st.spec_lev(), p));
                assert(sqrt_consistent::<Scalar>(ya, models(c0.fw_a@), models(c0.mem_fw_a@), st.spec_phase(), st.spec_lev(), p));
                assert(sqrt_consistent::<Scalar>(yb, models(c0.fw_b@), models(c0.mem_fw_b@), st.spec_phase(), st.spec_lev(), p));
            }
        }
        (false, f1a.1)
    }
}

/// The sizes and tables of two caches agree, and so do the vectors that a
/// reset of the accumulators leaves alone.
pub open spec fn same_tables(a: FullCache, b: FullCache) -> bool {
    &&& a.n == b.n
    &&& a.haf_domain == b.haf_domain
    &&& a.fft_info == b.fft_info
    &&& a.haf_fft_info == b.haf_fft_info
    &&& a.q_a@ == b.q_a@
    &&& a.q_b@ == b.q_b@
    &&& a.fl_a@ == b.fl_a@
    &&& a.fl_b@ == b.fl_b@
    &&& a.fw_a@ == b.fw_a@
    &&& a.fw_b@ == b.fw_b@
    &&& a.mem_fl_a@ == b.mem_fl_a@
    &&& a.mem_fl_b@ == b.mem_fl_b@
    &&& a.mem_fw_a@ == b.mem_fw_a@
    &&& a.mem_fw_b@ == b.mem_fw_b@
}

/// Adds each listed value to its slot of `acc`; the slots not listed hold
/// zero in `vals`.
fn add_entries_to(
    acc: &mut Vec<Scalar>,
    entries: &Vec<(usize, Scalar)>,
    Ghost(vals): Ghost<Seq<nat>>,
    Ghost(ids): Ghost<Seq<usize>>,
)
    requires
        vals.len() == old(acc)@.len(),
        entries@.len() == ids.len(),
        forall|k: int| 0 <= k < ids.len() ==> #[trigger] ids[k] < vals.len(),
        forall|k: int, l: int| 0 <= k < l < ids.len() ==> ids[k] != ids[l],
        forall|k: int| 0 <= k < entries@.len() ==> (#[trigger] entries@[k]).0 == ids[k] && entries@[k].1@ == vals[entries@[k].0 as int],
        forall|i: int| 0 <= i < vals.len() && !ids.contains(i as usize) ==> #[trigger] vals[i] == 0,
    ensures
        final(acc)@.len() == old(acc)@.len(),
        models(final(acc)@) == Seq::new(
            vals.len(),
            |i: int| if ids.contains(i as usize) { fadd(old(acc)@[i]@, vals[i]) } else { old(acc)@[i]@ },
        ),
{
    let ghost acc0 = acc@;
    let mut k: usize = 0;
    while k < entries.len()
        invariant
            k <= entries@.len(),
            acc@.len() == acc0.len(),
            vals.len() == acc0.len(),
            entries@.len() == ids.len(),
            forall|q: int| 0 <= q < ids.len() ==> #[trigger] ids[q] < vals.len(),
            forall|q: int, l: int| 0 <= q < l < ids.len() ==> ids[q] != ids[l],
            forall|q: int| 0 <= q < entries@.len() ==> (#[trigger] entries@[q]).0 == ids[q] && entries@[q].1@ == vals[entries@[q].0 as int],
            forall|i: int| 0 <= i < acc0.len() ==> (#[trigger] acc@[i])@ == if ids.take(k as int).contains(i as usize) {
                fadd(acc0[i]@, vals[i])
            } else {
                acc0[i]@
            },
        decreases entries@.len() - k,
    {
        let (i, vl) = entries[k];
        let cur = acc[i];
        acc.set(i, fr_add(&cur, &vl));
        proof {
            assert(entries@[k as int].0 == ids[k as int]);
            assert(ids.take(k + 1)[k as int] == i);
            assert forall|j: int| 0 <= j < acc0.len() implies (#[trigger] acc@[j])@ == if ids.take(k + 1).contains(
                j as usize,
            ) {
                fadd(acc0[j]@, vals[j])
            } else {
                acc0[j]@
            } by {
                assert(ids.take(k + 1) == ids.take(k as int).push(ids[k as int]));
                if j == i as int {
                    assert(!ids.take(k as int).contains(i)) by {
                        if ids.take(k as int).contains(i) {
                            let q = choose|q: int| 0 <= q < ids.take(k as int).len() && #[trigger] ids.take(k as int)[q] == i;
                            assert(ids[q] == ids[k as int]);
                        }
                    }
                    assert(ids.take(k + 1)[k as int] == i);
                } else {
                    if ids.take(k + 1).contains(j as usize) {
                        let q = choose|q: int| 0 <= q < ids.take(k + 1).len() && #[trigger] ids.take(k + 1)[q] == j as usize;
                        assert(q != k as int) by {
                            if q == k as int {
                                assert(j < acc.len());
                                assert((j as usize) as int == j);
                            }
                        }
                        assert(ids.take(k as int)[q] == j as usize);
                    }
                    if ids.take(k as int).contains(j as usize) {
                        let q = choose|q: int| 0 <= q < ids.take(k as int).len() && #[trigger] ids.take(k as int)[q] == j as usize;
                        assert(ids.take(k + 1)[q] == j as usize);
                    }
                }
            }
        }
        k = k + 1;
    }
    proof {
        assert(ids.take(ids.len() as int) =~= ids);
        assert(models(acc@) =~= Seq::new(
            vals.len(),
            |i: int| if ids.contains(i as usize) { fadd(acc0[i]@, vals[i]) } else { acc0[i]@ },
        ));
    }
}


/// The values of a record after adding each entry of `d`, in order.
pub open spec fn record_added(v: Seq<nat>, d: Seq<(usize, Scalar)>) -> Seq<nat>
    decreases d.len(),
{
    if d.len() == 0 {
        v
    } else {
        let prev = record_added(v, d.drop_last());
        prev.update(d.last().0 as int, fadd(prev[d.last().0 as int], d.last().1@))
    }
}

/// Two caches agree on everything but their records of changes.
pub open spec fn same_but_records(a: FullCache, b: FullCache) -> bool {
    &&& a.n == b.n
    &&& a.haf_domain == b.haf_domain
    &&& a.acc_a@ == b.acc_a@
    &&& a.acc_b@ == b.acc_b@
    &&& a.q_a@ == b.q_a@
    &&& a.q_b@ == b.q_b@
    &&& a.fl_a@ == b.fl_a@
    &&& a.fl_b@ == b.fl_b@
    &&& a.fw_a@ == b.fw_a@
    &&& a.fw_b@ == b.fw_b@
    &&& a.mem_fl_a@ == b.mem_fl_a@
    &&& a.mem_fl_b@ == b.mem_fl_b@
    &&& a.mem_fw_a@ == b.mem_fw_a@
    &&& a.mem_fw_b@ == b.mem_fw_b@
    &&& a.status == b.status
    &&& a.fft_info == b.fft_info
    &&& a.haf_fft_info == b.haf_fft_info
}

/// `r` lists the slots written in the record, in ascending order, with
/// their values.
pub open spec fn lists_record(rec: SparseRecord, r: Seq<(usize, Scalar)>) -> bool {
    &&& forall|i: int, j: int| 0 <= i < j < r.len() ==> r[i].0 < r[j].0
    &&& forall|k: usize| #[trigger] rec.ids().contains(k) <==> keys(pair_models(r)).contains(k)
    &&& forall|m: int| 0 <= m < r.len() ==> (#[trigger] r[m]).1@ == rec.values()[r[m].0 as int]
}

/// checkpoints structure
#[derive(Clone, Debug)]
pub struct FullyCheckpoint {
    /// Vector length
    pub n: usize,
    /// Cache
    pub cache: FullCache,
    /// The `A` element in `G1`.
    pub raw_a_g1: G1Point,
    /// The `B` element in `G1`.
    pub raw_b_g1: G1Point,
    /// The `B` element in `G2`.
    pub raw_b_g2: G2Point,
    /// The `C` element in `G1`.
    pub raw_c_g1: G1Point,
}

impl FullyCheckpoint {
    /// The checkpoint's length is its cache's, and the cache is well formed.
    pub open spec fn wf(&self) -> bool {
        &&& self.n == self.cache.n
        &&& self.n <= usize::MAX / 2 + 1
        &&& cache_wf(self.cache)
    }

    /// increment A in a_log
    pub fn increment_a(&mut self, a_lag: &Vec<(usize, Scalar)>)
        requires
            old(self).wf(),
            sparse_in_range(a_lag@, old(self).n as nat),
        ensures
            final(self).wf(),
            final(self).cache.mod_a.values() == record_added(old(self).cache.mod_a.values(), a_lag@),
            forall|k: usize|
                #[trigger] final(self).cache.mod_a.ids().contains(k) <==> old(self).cache.mod_a.ids().contains(k)
                    || keys(pair_models(a_lag@)).contains(k),
            final(self).cache.mod_b == old(self).cache.mod_b,
            same_but_records(final(self).cache, old(self).cache),
            final(self).n == old(self).n,
            final(self).raw_a_g1 == old(self).raw_a_g1,
            final(self).raw_b_g1 == old(self).raw_b_g1,
            final(self).raw_b_g2 == old(self).raw_b_g2,
            final(self).raw_c_g1 == old(self).raw_c_g1,
    {
        add_to_record(&mut self.cache.mod_a, a_lag);
    }

    /// increment B in b_log
    pub fn increment_b(&mut self, b_lag: &Vec<(usize, Scalar)>)
        requires
            old(self).wf(),
            sparse_in_range(b_lag@, old(self).n as nat),
        ensures
            final(self).wf(),
            final(self).cache.mod_b.values() == record_added(old(self).cache.mod_b.values(), b_lag@),
            forall|k: usize|
                #[trigger] final(self).cache.mod_b.ids().contains(k) <==> old(self).cache.mod_b.ids().contains(k)
                    || keys(pair_models(b_lag@)).contains(k),
            final(self).cache.mod_a == old(self).cache.mod_a,
            same_but_records(final(self).cache, old(self).cache),
            final(self).n == old(self).n,
            final(self).raw_a_g1 == old(self).raw_a_g1,
            final(self).raw_b_g1 == old(self).raw_b_g1,
            final(self).raw_b_g2 == old(self).raw_b_g2,
            final(self).raw_c_g1 == old(self).raw_c_g1,
    {
        add_to_record(&mut self.cache.mod_b, b_lag);
    }
}

/// Each entry of `d` added to its slot of the record, in order.
fn add_to_record(rec: &mut SparseRecord, d: &Vec<(usize, Scalar)>)
    requires
        old(rec).wf(),
        sparse_in_range(d@, old(rec).len()),
    ensures
        final(rec).wf(),
        final(rec).len() == old(rec).len(),
        final(rec).values() == record_added(old(rec).values(), d@),
        forall|k: usize|
            #[trigger] final(rec).ids().contains(k) <==> old(rec).ids().contains(k) || keys(pair_models(d@)).contains(k),
{
    let mut t: usize = 0;
    while t < d.len()
        invariant
            t <= d@.len(),
            rec.wf(),
            rec.len() == old(rec).len(),
            sparse_in_range(d@, old(rec).len()),
            rec.values() == record_added(old(rec).values(), d@.take(t as int)),
            forall|k: usize|
                #[trigger] rec.ids().contains(k) <==> old(rec).ids().contains(k) || keys(
                    pair_models(d@.take(t as int)),
                ).contains(k),
        decreases d@.len() - t,
    {
        let ghost before = rec.ids();
        let (i, vl) = d[t];
        rec.ins(i, vl);
        proof {
            let dt = d@.take(t + 1);
            assert(dt.drop_last() =~= d@.take(t as int));
            assert(keys(pair_models(dt)) =~= keys(pair_models(d@.take(t as int))).push(i));
            assert forall|k: usize| #[trigger] rec.ids().contains(k) <==> old(rec).ids().contains(k) || keys(
                pair_models(dt),
            ).contains(k) by {
                if k == i {
                    assert(keys(pair_models(dt))[t as int] == i);
                    if !before.contains(i) {
                        assert(rec.ids()[before.len() as int] == i);
                    }
                } else {
                    if rec.ids().contains(k) && !before.contains(k) {
                        let q = choose|q: int| 0 <= q < rec.ids().len() && rec.ids()[q] == k;
                        assert(q < before.len());
                        assert(before[q] == k);
                    }
                    if before.contains(k) {
                        let q = choose|q: int| 0 <= q < before.len() && before[q] == k;
                        assert(rec.ids()[q] == k);
                    }
                    if keys(pair_models(dt)).contains(k) {
                        let q = choose|q: int| 0 <= q < keys(pair_models(dt)).len() && keys(pair_models(dt))[q] == k;
                        assert(q < t);
                        assert(keys(pair_models(d@.take(t as int)))[q] == k);
                    }
                    if keys(pair_models(d@.take(t as int))).contains(k) {
                        let q = choose|q: int| 0 <= q < keys(pair_models(d@.take(t as int))).len() && keys(
                            pair_models(d@.take(t as int)),
                        )[q] == k;
                        assert(keys(pair_models(dt))[q] == k);
                    }
                }
            }
        }
        t = t + 1;
    }
    proof {
        assert(d@.take(d@.len() as int) =~= d@);
    }
}


/// `t` is `s` sorted by index, stably: the entries of each index keep
/// their order.
pub open spec fn stably_sorted(s: Seq<(usize, Scalar)>, t: Seq<(usize, Scalar)>) -> bool {
    &&& t.len() == s.len()
    &&& sorted_by_index(t)
    &&& forall|k: usize| #[trigger] with_key(t, k) == with_key(s, k)
}

/// The cross terms of the changes `a`, `b` in the Lagrange bases of A and
/// B, with `a2`, `b2` the same changes sorted by index:
/// `sum_a l_i * (a_i * sum_{j != i} w[(n + j - i) % n] * b_j)`, the same
/// with the roles swapped, and `sum_{i in a and b} p_i * (a_i * b_i)`.
pub open spec fn cross_terms(
    uk: UpdatingKey,
    n: nat,
    a: Seq<(usize, Scalar)>,
    b: Seq<(usize, Scalar)>,
    a2: Seq<(usize, Scalar)>,
    b2: Seq<(usize, Scalar)>,
) -> G1Point {
    let l = uk.lagrange_truncated@;
    let w = models(uk.w@);
    g1_add_of(g1_add_of(cross_side(a, b, l, w, n), cross_side(b, a, l, w, n)), pairs_eval(join_spec(a2, b2), uk.p@))
}

/// `r` is the cross term of `a` and `b`.
pub open spec fn cross_terms_of(uk: UpdatingKey, n: nat, a: Seq<(usize, Scalar)>, b: Seq<(usize, Scalar)>, r: G1Point) -> bool {
    exists|a2: Seq<(usize, Scalar)>, b2: Seq<(usize, Scalar)>|
        stably_sorted(a, a2) && stably_sorted(b, b2) && r == #[trigger] cross_terms(uk, n, a, b, a2, b2)
}

/// A stable sort keeps the indices in range.
proof fn lemma_sorted_in_range(s: Seq<(usize, Scalar)>, t: Seq<(usize, Scalar)>, n: nat)
    requires
        stably_sorted(s, t),
        sparse_in_range(s, n),
    ensures
        sparse_in_range(t, n),
{
    assert forall|m: int| 0 <= m < t.len() implies (#[trigger] t[m]).0 < n by {
        let k = t[m].0;
        crate::utils::lemma_key_total_by_with_key(t, k);
        crate::utils::lemma_key_total_by_with_key(s, k);
        assert(keys(pair_models(t))[m] == k);
        assert(keys(pair_models(t)).contains(k));
        assert(with_key(s, k).len() > 0);
        let q = choose|q: int| 0 <= q < keys(pair_models(s)).len() && keys(pair_models(s))[q] == k;
        assert(s[q].0 == k);
    }
}

impl FullyCheckpoint {
    /// d^2 compute the cross term contribution
    pub fn calc_cross_terms(
        &self,
        uk: &UpdatingKey,
        a_lagrange_sparse: &Vec<(usize, Scalar)>,
        b_lagrange_sparse: &Vec<(usize, Scalar)>,
    ) -> (r: G1Point)
        requires
            self.wf(),
            sparse_in_range(a_lagrange_sparse@, self.n as nat),
            sparse_in_range(b_lagrange_sparse@, self.n as nat),
            uk.lagrange_truncated@.len() >= self.n,
            uk.w@.len() >= self.n,
            uk.p@.len() >= self.n,
        ensures
            cross_terms_of(*uk, self.n as nat, a_lagrange_sparse@, b_lagrange_sparse@, r),
    {
        let n = self.n;
        proof {
            lemma_pow2_pos(self.cache.fft_info.log_n as nat);
        }
        let c_cross_1 = cross_side_exec(a_lagrange_sparse, b_lagrange_sparse, &uk.lagrange_truncated, &uk.w, n);
        let c_cross_2 = cross_side_exec(b_lagrange_sparse, a_lagrange_sparse, &uk.lagrange_truncated, &uk.w, n);
        let mut a_copy = crate::fft_handler::copy_vec(a_lagrange_sparse);
        let mut b_copy = crate::fft_handler::copy_vec(b_lagrange_sparse);
        sort_by_index(&mut a_copy);
        sort_by_index(&mut b_copy);
        let results = merge_join(&a_copy, &b_copy);
        proof {
            lemma_sorted_in_range(a_lagrange_sparse@, a_copy@, n as nat);
            lemma_sorted_in_range(b_lagrange_sparse@, b_copy@, n as nat);
            lemma_join_in_range(a_copy@, b_copy@, n as nat);
            assert forall|k: int| 0 <= k < results@.len() implies (#[trigger] results@[k]).0 < uk.p@.len() by {
                assert(pair_models(results@)[k].0 == results@[k].0);
            }
        }
        let c_cross_3 = pairs_eval_exec(&results, &uk.p);
        let r = g1_add(&g1_add(&c_cross_1, &c_cross_2), &c_cross_3);
        proof {
            assert(r == cross_terms(*uk, n as nat, a_lagrange_sparse@, b_lagrange_sparse@, a_copy@, b_copy@));
        }
        r
    }

    ///Initialize to begin reconstruction
    pub fn prepare_for_reconstruct(&mut self)
        requires
            old(self).wf(),
        ensures
            final(self).wf(),
            final(self).cache.status == ReconstructPhase::VecPrepare(0),
            models(final(self).cache.acc_a@) == Seq::new(
                old(self).n as nat,
                |i: int|
                    if old(self).cache.mod_a.ids().contains(i as usize) {
                        fadd(old(self).cache.acc_a@[i]@, old(self).cache.mod_a.values()[i])
                    } else {
                        old(self).cache.acc_a@[i]@
                    },
            ),
            models(final(self).cache.acc_b@) == Seq::new(
                old(self).n as nat,
                |i: int|
                    if old(self).cache.mod_b.ids().contains(i as usize) {
                        fadd(old(self).cache.acc_b@[i]@, old(self).cache.mod_b.values()[i])
                    } else {
                        old(self).cache.acc_b@[i]@
                    },
            ),
            final(self).cache.mod_a.values() == Seq::new(old(self).n as nat, |i: int| 0nat),
            final(self).cache.mod_b.values() == Seq::new(old(self).n as nat, |i: int| 0nat),
            final(self).cache.mod_a.ids().len() == 0,
            final(self).cache.mod_b.ids().len() == 0,
            same_tables(final(self).cache, old(self).cache),
            final(self).n == old(self).n,
            final(self).raw_a_g1 == old(self).raw_a_g1,
            final(self).raw_b_g1 == old(self).raw_b_g1,
            final(self).raw_b_g2 == old(self).raw_b_g2,
            final(self).raw_c_g1 == old(self).raw_c_g1,
    {
        self.cache.flash();
    }

    ///Move a step forward
    pub fn mv_forward(&mut self, uk: &UpdatingKey, steps: usize) -> (r: (bool, usize))
        requires
            old(self).wf(),
            cache_ok(old(self).cache, *uk),
        ensures
            final(self).wf(),
            recon_moved(old(self).cache, final(self).cache, *uk, steps as nat, r.0, r.1 as nat),
            !r.0 ==> r.1 == 0,
            r.0 <==> steps >= recon_total(old(self).cache) - recon_progress(old(self).cache),
            final(self).n == old(self).n,
            final(self).raw_a_g1 == old(self).raw_a_g1,
            final(self).raw_b_g1 == old(self).raw_b_g1,
            final(self).raw_b_g2 == old(self).raw_b_g2,
            final(self).raw_c_g1 == old(self).raw_c_g1,
    {
        self.cache.step_forward(uk, steps)
    }

    /// Copy current raw proof
    pub fn copy_proof_from(&mut self, other: &FullyCheckpoint)
        ensures
            final(self).raw_a_g1 == other.raw_a_g1,
            final(self).raw_b_g1 == other.raw_b_g1,
            final(self).raw_b_g2 == other.raw_b_g2,
            final(self).raw_c_g1 == other.raw_c_g1,
            final(self).n == old(self).n,
            final(self).cache == old(self).cache,
    {
        self.raw_a_g1 = other.raw_a_g1;
        self.raw_b_g1 = other.raw_b_g1;
        self.raw_b_g2 = other.raw_b_g2;
        self.raw_c_g1 = other.raw_c_g1;
    }
}


/// The proof finished from the raw values of the checkpoint with the
/// randomness `r`, `s`: `A = A0 + r delta`, `B = B0 + s delta` (in G1 and
/// G2), `C = C0 + s A + r B - (r s) delta`.
pub open spec fn proof_with_rs(c: FullyCheckpoint, uk: UpdatingKey, r: nat, s: nat) -> Proof {
    let d1 = uk.pk.delta_g1;
    let a = g1_add_of(c.raw_a_g1, g1_mul_of(d1, r));
    let b1 = g1_add_of(c.raw_b_g1, g1_mul_of(d1, s));
    let b2 = g2_add_of(c.raw_b_g2, g2_mul_of(uk.pk.vk.delta_g2, s));
    let cc = g1_sub_of(g1_add_of(g1_add_of(c.raw_c_g1, g1_mul_of(a, s)), g1_mul_of(b1, r)), g1_mul_of(d1, fmul(r, s)));
    Proof { a_g1: a, b_g2: b2, c_g1: cc }
}

/// The records of `c1` are those of `c0` with the changes `a_ls`, `b_ls`
/// added, and nothing else of the caches differs.
pub open spec fn records_appended(c0: FullCache, c1: FullCache, a_ls: Seq<(usize, Scalar)>, b_ls: Seq<(usize, Scalar)>) -> bool {
    &&& c1.mod_a.values() == record_added(c0.mod_a.values(), a_ls)
    &&& c1.mod_b.values() == record_added(c0.mod_b.values(), b_ls)
    &&& forall|k: usize|
        #[trigger] c1.mod_a.ids().contains(k) <==> c0.mod_a.ids().contains(k) || keys(pair_models(a_ls)).contains(k)
    &&& forall|k: usize|
        #[trigger] c1.mod_b.ids().contains(k) <==> c0.mod_b.ids().contains(k) || keys(pair_models(b_ls)).contains(k)
    &&& same_but_records(c1, c0)
}

/// The update `(instance_update, witness_update)` can be applied with the
/// key: its indices have entries in the key's tables, those of the witness
/// come after the `num_instance` instance variables, and the key's columns
/// and tables fit the checkpoint's length `n`.
pub open spec fn ckpt_update_ok(
    uk: UpdatingKey,
    n: nat,
    num_instance: nat,
    instance_update: Seq<(usize, Scalar)>,
    witness_update: Seq<(usize, Scalar)>,
) -> bool {
    let upd = instance_update + witness_update;
    &&& instance_update.len() + witness_update.len() <= usize::MAX
    &&& sparse_in_range(upd, uk.pk.u_g1@.len())
    &&& sparse_in_range(upd, uk.pk.v_g1@.len())
    &&& sparse_in_range(upd, uk.pk.v_g2@.len())
    &&& sparse_in_range(upd, uk.a_matrix_cols@.len())
    &&& sparse_in_range(upd, uk.b_matrix_cols@.len())
    &&& forall|t: int| 0 <= t < witness_update.len() ==> (#[trigger] witness_update[t]).0 >= num_instance
    &&& sparse_in_range(shift_down(witness_update, num_instance), uk.pk.t_p_g1@.len())
    &&& cols_rows_in_range(uk.a_matrix_cols@, n)
    &&& cols_rows_in_range(uk.b_matrix_cols@, n)
    &&& uk.lagrange_truncated@.len() >= n
    &&& uk.w@.len() >= n
    &&& uk.p@.len() >= n
}

/// The `C` element after an update: to `C0` are added the witness terms,
/// the projections of the changes `a_ls`, `b_ls` on the cached quotients,
/// and the cross terms `x1`, `x2`.
pub open spec fn ckpt_c_new(
    c0: FullyCheckpoint,
    uk: UpdatingKey,
    num_instance: nat,
    witness_update: Seq<(usize, Scalar)>,
    a_ls: Seq<(usize, Scalar)>,
    b_ls: Seq<(usize, Scalar)>,
    x1: G1Point,
    x2: G1Point,
) -> G1Point {
    let uc = sparse_g1_eval(shift_down(witness_update, num_instance), uk.pk.t_p_g1@);
    let cp = g1_add_of(sparse_g1_eval(a_ls, c0.cache.q_b@), sparse_g1_eval(b_ls, c0.cache.q_a@));
    g1_add_of(c0.raw_c_g1, g1_add_of(g1_add_of(g1_add_of(uc, cp), x1), x2))
}

/// The raw `A`, `B` elements after the update `upd`.
pub open spec fn ckpt_ab_new(c0: FullyCheckpoint, c1: FullyCheckpoint, uk: UpdatingKey, upd: Seq<(usize, Scalar)>) -> bool {
    &&& c1.raw_a_g1 == g1_add_of(c0.raw_a_g1, sparse_g1_eval(upd, uk.pk.u_g1@))
    &&& c1.raw_b_g1 == g1_add_of(c0.raw_b_g1, sparse_g1_eval(upd, uk.pk.v_g1@))
    &&& c1.raw_b_g2 == g2_add_of(c0.raw_b_g2, sparse_g2_eval(upd, uk.pk.v_g2@))
}

/// The exponents of the raw `A` and `B` (in G2) after an update: the
/// sparse combinations of the changes are added.
pub open spec fn ckpt_ab_exps(c0: FullyCheckpoint, c1: FullyCheckpoint, uk: UpdatingKey, upd: Seq<(usize, Scalar)>) -> bool {
    &&& g1_exp(c1.raw_a_g1) == fadd(g1_exp(c0.raw_a_g1), exp_sparse(upd, g1_exps(uk.pk.u_g1@)))
    &&& g2_exp(c1.raw_b_g2) == fadd(g2_exp(c0.raw_b_g2), exp_sparse(upd, g2_exps(uk.pk.v_g2@)))
}

/// The exponent of the raw `A = alpha + sum_i z_i * u_i`.
pub open spec fn raw_a_exp(pk: crate::data_structures::ProvingKey, z: Seq<nat>) -> nat {
    fadd(g1_exp(pk.vk.alpha_g1), exp_dense(g1_exps(pk.u_g1@), z))
}

/// The exponent of the raw `B = beta + sum_i z_i * v_i` in G2.
pub open spec fn raw_b2_exp(pk: crate::data_structures::ProvingKey, z: Seq<nat>) -> nat {
    fadd(g2_exp(pk.vk.beta_g2), exp_dense(g2_exps(pk.v_g2@), z))
}

/// A checkpoint whose raw `A` and `B` are those of the assignment `z`
/// holds, after an update by `upd`, those of the updated assignment; the
/// proof it then finishes with `r`, `s` has the `A` and `B` of the fresh
/// proof of the updated assignment with `r`, `s` (by their exponents).
pub proof fn lemma_checkpoint_ab(
    c0: FullyCheckpoint,
    c1: FullyCheckpoint,
    uk: UpdatingKey,
    upd: Seq<(usize, Scalar)>,
    z: Seq<nat>,
    r: nat,
    s: nat,
)
    requires
        ckpt_ab_exps(c0, c1, uk, upd),
        g1_exp(c0.raw_a_g1) == raw_a_exp(uk.pk, z),
        g2_exp(c0.raw_b_g2) == raw_b2_exp(uk.pk, z),
        z.len() <= uk.pk.u_g1@.len(),
        z.len() <= uk.pk.v_g2@.len(),
        forall|t: int| 0 <= t < upd.len() ==> (#[trigger] upd[t]).0 < z.len(),
    ensures
        g1_exp(c1.raw_a_g1) == raw_a_exp(uk.pk, apply_updates(z, upd)),
        g2_exp(c1.raw_b_g2) == raw_b2_exp(uk.pk, apply_updates(z, upd)),
        fadd(g1_exp(c1.raw_a_g1), fmul(g1_exp(uk.pk.delta_g1), r)) == a_exp(uk.pk, r, apply_updates(z, upd)),
        fadd(g2_exp(c1.raw_b_g2), fmul(g2_exp(uk.pk.vk.delta_g2), s)) == b2_exp(uk.pk, s, apply_updates(z, upd)),
{
    let eu = g1_exps(uk.pk.u_g1@);
    let ev = g2_exps(uk.pk.v_g2@);
    let z2 = apply_updates(z, upd);
    lemma_dense_updates(eu, z, upd);
    lemma_dense_updates(ev, z, upd);
    lemma_fadd_assoc3(g1_exp(uk.pk.vk.alpha_g1), exp_dense(eu, z), exp_sparse(upd, eu));
    lemma_fadd_assoc3(g2_exp(uk.pk.vk.beta_g2), exp_dense(ev, z), exp_sparse(upd, ev));
    // alpha + E + d r = (d r + alpha) + E
    let da = fmul(g1_exp(uk.pk.delta_g1), r);
    lemma_fadd_swap(g1_exp(uk.pk.vk.alpha_g1), exp_dense(eu, z2), da);
    lemma_fadd_comm(g1_exp(uk.pk.vk.alpha_g1), da);
    let db = fmul(g2_exp(uk.pk.vk.delta_g2), s);
    lemma_fadd_swap(g2_exp(uk.pk.vk.beta_g2), exp_dense(ev, z2), db);
    lemma_fadd_comm(g2_exp(uk.pk.vk.beta_g2), db);
}

/// What an update does to a checkpoint: the changes in the Lagrange bases
/// of A and B are recorded, and the raw proof moves by the update, with the
/// cross terms taken between the changes of A so far and the new change of
/// B, and between the new change of A and the changes of B before it.
pub open spec fn ckpt_update_result(
    c0: FullyCheckpoint,
    c1: FullyCheckpoint,
    uk: UpdatingKey,
    num_instance: nat,
    instance_update: Seq<(usize, Scalar)>,
    witness_update: Seq<(usize, Scalar)>,
) -> bool {
    let upd = instance_update + witness_update;
    exists|
        a_ls: Seq<(usize, Scalar)>,
        b_ls: Seq<(usize, Scalar)>,
        new_a: Seq<(usize, Scalar)>,
        old_b: Seq<(usize, Scalar)>,
        x1: G1Point,
        x2: G1Point,
    |
        #![trigger ckpt_c_new(c0, uk, num_instance, witness_update, a_ls, b_ls, x1, x2), lists_record(c1.cache.mod_a, new_a), lists_record(c0.cache.mod_b, old_b)]
        {
            &&& merged_by_index(a_ls, column_terms(uk.a_matrix_cols@, upd))
            &&& merged_by_index(b_ls, column_terms(uk.b_matrix_cols@, upd))
            &&& records_appended(c0.cache, c1.cache, a_ls, b_ls)
            &&& lists_record(c1.cache.mod_a, new_a)
            &&& lists_record(c0.cache.mod_b, old_b)
            &&& cross_terms_of(uk, c0.n as nat, new_a, b_ls, x1)
            &&& cross_terms_of(uk, c0.n as nat, a_ls, old_b, x2)
            &&& c1.raw_c_g1 == ckpt_c_new(c0, uk, num_instance, witness_update, a_ls, b_ls, x1, x2)
        }
}

/// A record parsed in ascending order lists it.
proof fn lemma_parse_lists(rec: SparseRecord, r: Seq<(usize, Scalar)>)
    requires
        rec.wf(),
        sorted_usizes(rec.ids()),
        r.len() == rec.ids().len(),
        forall|k: int| 0 <= k < r.len() ==> (#[trigger] r[k]).0 == rec.ids()[k] && r[k].1@ == rec.values()[r[k].0 as int],
    ensures
        lists_record(rec, r),
        sparse_in_range(r, rec.len()),
{
    rec.lemma_sparse();
    assert(keys(pair_models(r)) =~= rec.ids());
    assert forall|i: int, j: int| 0 <= i < j < r.len() implies r[i].0 < r[j].0 by {
        assert(r[i].0 == rec.ids()[i]);
        assert(r[j].0 == rec.ids()[j]);
    }
    assert forall|k: int| 0 <= k < r.len() implies (#[trigger] r[k]).0 < rec.len() by {
        assert(r[k].0 == rec.ids()[k]);
    }
}

impl FullyCheckpoint {
    /// The proof finished with the given randomness.
    pub fn finish_proof(&self, uk: &UpdatingKey, r: Scalar, s: Scalar) -> (p: Proof)
        ensures
            p == proof_with_rs(*self, *uk, r@, s@),
            g1_exp(p.a_g1) == fadd(g1_exp(self.raw_a_g1), fmul(g1_exp(uk.pk.delta_g1), r@)),
            g2_exp(p.b_g2) == fadd(g2_exp(self.raw_b_g2), fmul(g2_exp(uk.pk.vk.delta_g2), s@)),
    {
        let a_g1 = g1_add(&self.raw_a_g1, &g1_mul(&uk.pk.delta_g1, &r));
        let b_g1 = g1_add(&self.raw_b_g1, &g1_mul(&uk.pk.delta_g1, &s));
        let b_g2 = g2_add(&self.raw_b_g2, &g2_mul(&uk.pk.vk.delta_g2, &s));
        let c_g1 = g1_sub(
            &g1_add(&g1_add(&self.raw_c_g1, &g1_mul(&a_g1, &s)), &g1_mul(&b_g1, &r)),
            &g1_mul(&uk.pk.delta_g1, &fr_mul(&r, &s)),
        );
        Proof { a_g1, b_g2, c_g1 }
    }

    /// Compute Final Proof, with randomness from `ark_std::test_rng`.
    pub fn get_proof_with_rs(&mut self, uk: &UpdatingKey) -> (p: Proof)
        ensures
            *final(self) == *old(self),
            exists|r: Scalar, s: Scalar| p == #[trigger] proof_with_rs(*old(self), *uk, r@, s@),
    {
        let r = fr_rand_test_rng();
        let s = fr_rand_test_rng();
        let p = self.finish_proof(uk, r, s);
        proof {
            assert(p == proof_with_rs(*old(self), *uk, r@, s@));
        }
        p
    }

    /// Trivially append the delta vec to the tail
    pub fn trivial_append(
        &mut self,
        uk: &UpdatingKey,
        instance_update: &[(usize, Scalar)],
        witness_update: &[(usize, Scalar)],
    )
        requires
            old(self).wf(),
            instance_update@.len() + witness_update@.len() <= usize::MAX,
            sparse_in_range(instance_update@ + witness_update@, uk.a_matrix_cols@.len()),
            sparse_in_range(instance_update@ + witness_update@, uk.b_matrix_cols@.len()),
            cols_rows_in_range(uk.a_matrix_cols@, old(self).n as nat),
            cols_rows_in_range(uk.b_matrix_cols@, old(self).n as nat),
        ensures
            final(self).wf(),
            final(self).n == old(self).n,
            final(self).raw_a_g1 == old(self).raw_a_g1,
            final(self).raw_b_g1 == old(self).raw_b_g1,
            final(self).raw_b_g2 == old(self).raw_b_g2,
            final(self).raw_c_g1 == old(self).raw_c_g1,
            exists|a_ls: Seq<(usize, Scalar)>, b_ls: Seq<(usize, Scalar)>|
                merged_by_index(a_ls, column_terms(uk.a_matrix_cols@, instance_update@ + witness_update@))
                    && merged_by_index(b_ls, column_terms(uk.b_matrix_cols@, instance_update@ + witness_update@))
                    && #[trigger] records_appended(old(self).cache, final(self).cache, a_ls, b_ls),
    {
        let update = concat_pairs(instance_update, witness_update);
        let (a_lagrange_sparse, b_lagrange_sparse) = improved_lagrange_sparse_get(
            &uk.a_matrix_cols,
            &uk.b_matrix_cols,
            update.as_slice(),
        ).unwrap();
        proof {
            lemma_merged_in_range(a_lagrange_sparse@, uk.a_matrix_cols@, update@, self.n as nat);
            lemma_merged_in_range(b_lagrange_sparse@, uk.b_matrix_cols@, update@, self.n as nat);
        }
        self.increment_a(&a_lagrange_sparse);
        self.increment_b(&b_lagrange_sparse);
        proof {
            assert(records_appended(old(self).cache, self.cache, a_lagrange_sparse@, b_lagrange_sparse@));
        }
    }
}


impl FullyCheckpoint {
    /// Compute Semi Proof: apply the update to the raw proof and record its
    /// changes in the Lagrange bases of A and B.
    #[verifier::rlimit(40)]
    pub fn update_from(
        &mut self,
        uk: &UpdatingKey,
        num_instance: usize,
        num_witness: usize,
        instance_update: &[(usize, Scalar)],
        witness_update: &[(usize, Scalar)],
    )
        requires
            old(self).wf(),
            ckpt_update_ok(*uk, old(self).n as nat, num_instance as nat, instance_update@, witness_update@),
        ensures
            final(self).wf(),
            final(self).n == old(self).n,
            ckpt_ab_new(*old(self), *final(self), *uk, instance_update@ + witness_update@),
            ckpt_ab_exps(*old(self), *final(self), *uk, instance_update@ + witness_update@),
            ckpt_update_result(*old(self), *final(self), *uk, num_instance as nat, instance_update@, witness_update@),
    {
        let n = self.n;
        let update = concat_pairs(instance_update, witness_update);
        let a_g1_new = inner_product_sparse_f_dense_g(update.as_slice(), uk.pk.u_g1.as_slice());
        let b_g1_new = inner_product_sparse_f_dense_g(update.as_slice(), uk.pk.v_g1.as_slice());
        let b_g2_new = sparse_g2(update.as_slice(), &uk.pk.v_g2);
        let (a_lagrange_sparse, b_lagrange_sparse) = improved_lagrange_sparse_get(
            &uk.a_matrix_cols,
            &uk.b_matrix_cols,
            update.as_slice(),
        ).unwrap();
        proof {
            lemma_merged_in_range(a_lagrange_sparse@, uk.a_matrix_cols@, update@, n as nat);
            lemma_merged_in_range(b_lagrange_sparse@, uk.b_matrix_cols@, update@, n as nat);
        }
        let c_project = g1_add(
            &self.cache.calc_update_a(&a_lagrange_sparse),
            &self.cache.calc_update_b(&b_lagrange_sparse),
        );
        let wsh = shifted(witness_update, num_instance);
        let update_c_g1_linear_combination = inner_product_sparse_f_dense_g(wsh.as_slice(), uk.pk.t_p_g1.as_slice());
        let ghost c0 = *self;
        self.increment_a(&a_lagrange_sparse);
        let ghost ids_a = self.cache.mod_a.ids();
        let ghost ids_b = self.cache.mod_b.ids();
        let ghost rec_b0 = self.cache.mod_b;
        let new_a_parse = self.cache.mod_a.parse();
        let old_b_parse = self.cache.mod_b.parse();
        proof {
            lemma_parse_lists(self.cache.mod_a, new_a_parse@);
            lemma_parse_lists(self.cache.mod_b, old_b_parse@);
            lemma_same_members(ids_a, self.cache.mod_a.ids());
            lemma_same_members(ids_b, self.cache.mod_b.ids());
            assert(lists_record(rec_b0, old_b_parse@));
        }
        self.increment_b(&b_lagrange_sparse);
        let x1 = self.calc_cross_terms(uk, &new_a_parse, &b_lagrange_sparse);
        let x2 = self.calc_cross_terms(uk, &a_lagrange_sparse, &old_b_parse);
        let c_new = g1_add(&g1_add(&g1_add(&update_c_g1_linear_combination, &c_project), &x1), &x2);
        self.raw_a_g1 = g1_add(&self.raw_a_g1, &a_g1_new);
        self.raw_b_g1 = g1_add(&self.raw_b_g1, &b_g1_new);
        self.raw_b_g2 = g2_add(&self.raw_b_g2, &b_g2_new);
        self.raw_c_g1 = g1_add(&self.raw_c_g1, &c_new);
        proof {
            assert(self.cache.mod_a.values() == record_added(c0.cache.mod_a.values(), a_lagrange_sparse@));
            assert(self.cache.mod_b.values() == record_added(c0.cache.mod_b.values(), b_lagrange_sparse@));
            assert forall|k: usize| #[trigger] self.cache.mod_a.ids().contains(k) <==> c0.cache.mod_a.ids().contains(k)
                || keys(pair_models(a_lagrange_sparse@)).contains(k) by {
                assert(ids_a.contains(k) == self.cache.mod_a.ids().contains(k));
            }
            assert forall|k: usize| #[trigger] self.cache.mod_b.ids().contains(k) <==> c0.cache.mod_b.ids().contains(k)
                || keys(pair_models(b_lagrange_sparse@)).contains(k) by {
                assert(ids_b.contains(k) == rec_b0.ids().contains(k));
            }
            assert(same_but_records(self.cache, c0.cache));
            assert(records_appended(c0.cache, self.cache, a_lagrange_sparse@, b_lagrange_sparse@));
            assert(lists_record(self.cache.mod_a, new_a_parse@));
            assert(lists_record(c0.cache.mod_b, old_b_parse@));
            assert(self.raw_c_g1 == ckpt_c_new(
                c0,
                *uk,
                num_instance as nat,
                witness_update@,
                a_lagrange_sparse@,
                b_lagrange_sparse@,
                x1,
                x2,
            ));
        }
    }
}


/// `r` lists the slots written in the record in the order of their first
/// write, with their values.
pub open spec fn lists_record_in_order(rec: SparseRecord, r: Seq<(usize, Scalar)>) -> bool {
    &&& r.len() == rec.ids().len()
    &&& forall|k: int| 0 <= k < r.len() ==> (#[trigger] r[k]).0 == rec.ids()[k] && r[k].1@ == rec.values()[r[k].0 as int]
}

/// What a simulated update returns: the raw proof that the update would
/// give, with the changes of A so far merged with the new change of A by
/// index, and the changes of B so far in the order of their first write.
pub open spec fn sim_update_result(
    c: FullyCheckpoint,
    uk: UpdatingKey,
    num_instance: nat,
    instance_update: Seq<(usize, Scalar)>,
    witness_update: Seq<(usize, Scalar)>,
    res: (G1Point, G1Point, G2Point, G1Point),
) -> bool {
    let upd = instance_update + witness_update;
    &&& res.0 == g1_add_of(c.raw_a_g1, sparse_g1_eval(upd, uk.pk.u_g1@))
    &&& res.1 == g1_add_of(c.raw_b_g1, sparse_g1_eval(upd, uk.pk.v_g1@))
    &&& res.2 == g2_add_of(c.raw_b_g2, sparse_g2_eval(upd, uk.pk.v_g2@))
    &&& exists|
        a_ls: Seq<(usize, Scalar)>,
        b_ls: Seq<(usize, Scalar)>,
        cur: Seq<(usize, Scalar)>,
        new_a: Seq<(usize, Scalar)>,
        old_b: Seq<(usize, Scalar)>,
        x1: G1Point,
        x2: G1Point,
    |
        #![trigger ckpt_c_new(c, uk, num_instance, witness_update, a_ls, b_ls, x1, x2), lists_record_in_order(c.cache.mod_a, cur), lists_record_in_order(c.cache.mod_b, old_b), merged_by_index(new_a, pair_models(cur + a_ls))]
        {
            &&& merged_by_index(a_ls, column_terms(uk.a_matrix_cols@, upd))
            &&& merged_by_index(b_ls, column_terms(uk.b_matrix_cols@, upd))
            &&& lists_record_in_order(c.cache.mod_a, cur)
            &&& lists_record_in_order(c.cache.mod_b, old_b)
            &&& merged_by_index(new_a, pair_models(cur + a_ls))
            &&& cross_terms_of(uk, c.n as nat, new_a, b_ls, x1)
            &&& cross_terms_of(uk, c.n as nat, a_ls, old_b, x2)
            &&& res.3 == ckpt_c_new(c, uk, num_instance, witness_update, a_ls, b_ls, x1, x2)
        }
}

/// The merge of entries with indices below `n` has indices below `n`.
proof fn lemma_merged_keys_in_range(out: Seq<(usize, Scalar)>, terms: Seq<(usize, nat)>, n: nat)
    requires
        merged_by_index(out, terms),
        forall|m: int| 0 <= m < terms.len() ==> (#[trigger] terms[m]).0 < n,
    ensures
        sparse_in_range(out, n),
{
    assert forall|k: int| 0 <= k < out.len() implies (#[trigger] out[k]).0 < n by {
        let key = out[k].0;
        assert(keys(pair_models(out))[k] == key);
        assert(keys(pair_models(out)).contains(key));
        assert(keys(terms).contains(key));
        let m = choose|m: int| 0 <= m < keys(terms).len() && keys(terms)[m] == key;
        assert(terms[m].0 == key);
    }
}

/// The list `a ++ b`.
fn append_pairs(a: &Vec<(usize, Scalar)>, b: &Vec<(usize, Scalar)>) -> (r: Vec<(usize, Scalar)>)
    ensures
        r@ == a@ + b@,
{
    let mut r = crate::fft_handler::copy_vec(a);
    let mut j: usize = 0;
    while j < b.len()
        invariant
            j <= b@.len(),
            r@ == a@ + b@.take(j as int),
        decreases b@.len() - j,
    {
        r.push(b[j]);
        j = j + 1;
        proof {
            assert(r@ =~= a@ + b@.take(j as int));
        }
    }
    proof {
        assert(b@.take(b@.len() as int) =~= b@);
    }
    r
}

impl FullyCheckpoint {
    /// simulate a update without changing it self
    #[verifier::rlimit(40)]
    pub fn sim_update_from(
        &self,
        uk: &UpdatingKey,
        num_instance: usize,
        num_witness: usize,
        instance_update: &[(usize, Scalar)],
        witness_update: &[(usize, Scalar)],
    ) -> (r: (G1Point, G1Point, G2Point, G1Point))
        requires
            self.wf(),
            ckpt_update_ok(*uk, self.n as nat, num_instance as nat, instance_update@, witness_update@),
        ensures
            sim_update_result(*self, *uk, num_instance as nat, instance_update@, witness_update@, r),
    {
        let n = self.n;
        let update = concat_pairs(instance_update, witness_update);
        let a_g1_new = inner_product_sparse_f_dense_g(update.as_slice(), uk.pk.u_g1.as_slice());
        let b_g1_new = inner_product_sparse_f_dense_g(update.as_slice(), uk.pk.v_g1.as_slice());
        let b_g2_new = sparse_g2(update.as_slice(), &uk.pk.v_g2);
        let (a_lagrange_sparse, b_lagrange_sparse) = improved_lagrange_sparse_get(
            &uk.a_matrix_cols,
            &uk.b_matrix_cols,
            update.as_slice(),
        ).unwrap();
        proof {
            lemma_merged_in_range(a_lagrange_sparse@, uk.a_matrix_cols@, update@, n as nat);
            lemma_merged_in_range(b_lagrange_sparse@, uk.b_matrix_cols@, update@, n as nat);
        }
        let c_project = g1_add(
            &self.cache.calc_update_a(&a_lagrange_sparse),
            &self.cache.calc_update_b(&b_lagrange_sparse),
        );
        let wsh = shifted(witness_update, num_instance);
        let update_c_g1_linear_combination = inner_product_sparse_f_dense_g(wsh.as_slice(), uk.pk.t_p_g1.as_slice());
        let cur_a_sparse = self.cache.mod_a.parse_unordered();
        let mut cat = append_pairs(&cur_a_sparse, &a_lagrange_sparse);
        let ghost cat0 = cat@;
        sort_by_index(&mut cat);
        let new_a_sparse = crate::utils::merge_sorted_by_index(&cat);
        let old_b_parse = self.cache.mod_b.parse_unordered();
        proof {
            crate::utils::lemma_sort_keeps_totals(cat0, cat@);
            let t0 = pair_models(cat0);
            assert forall|k: usize| #[trigger] keys(t0).contains(k) <==> keys(pair_models(new_a_sparse@)).contains(k) by {
                assert(keys(pair_models(cat@)).contains(k) <==> keys(pair_models(new_a_sparse@)).contains(k));
            }
            assert forall|m: int| 0 <= m < new_a_sparse@.len() implies (#[trigger] new_a_sparse@[m]).1@ == crate::utils::key_total(
                t0,
                new_a_sparse@[m].0,
            ) by {
                assert(new_a_sparse@[m].1@ == crate::utils::key_total(pair_models(cat@), new_a_sparse@[m].0));
            }
            assert(merged_by_index(new_a_sparse@, t0));
            self.cache.mod_a.lemma_sparse();
            self.cache.mod_b.lemma_sparse();
            assert forall|m: int| 0 <= m < t0.len() implies (#[trigger] t0[m]).0 < n by {
                if m < cur_a_sparse@.len() {
                    assert(cat0[m] == cur_a_sparse@[m]);
                } else {
                    assert(cat0[m] == a_lagrange_sparse@[m - cur_a_sparse@.len()]);
                }
            }
            lemma_merged_keys_in_range(new_a_sparse@, t0, n as nat);
            assert forall|k: int| 0 <= k < old_b_parse@.len() implies (#[trigger] old_b_parse@[k]).0 < n by {
                assert(old_b_parse@[k].0 == self.cache.mod_b.ids()[k]);
            }
        }
        let x1 = self.calc_cross_terms(uk, &new_a_sparse, &b_lagrange_sparse);
        let x2 = self.calc_cross_terms(uk, &a_lagrange_sparse, &old_b_parse);
        let c_new = g1_add(&g1_add(&g1_add(&update_c_g1_linear_combination, &c_project), &x1), &x2);
        let res = (
            g1_add(&self.raw_a_g1, &a_g1_new),
            g1_add(&self.raw_b_g1, &b_g1_new),
            g2_add(&self.raw_b_g2, &b_g2_new),
            g1_add(&self.raw_c_g1, &c_new),
        );
        proof {
            assert(lists_record_in_order(self.cache.mod_a, cur_a_sparse@));
            assert(lists_record_in_order(self.cache.mod_b, old_b_parse@));
            assert(res.3 == ckpt_c_new(
                *self,
                *uk,
                num_instance as nat,
                witness_update@,
                a_lagrange_sparse@,
                b_lagrange_sparse@,
                x1,
                x2,
            ));
        }
        res
    }
}


/// The checkpoint of the assignment `z = instance ++ witness` just built:
/// the accumulators hold the evaluations of the rows of A and B on `z`,
/// the quotients are `q_a`, `q_b`, the reconstruction is at its start with
/// no changes recorded, and the raw proof is the proof without randomness.
pub open spec fn fresh_checkpoint(
    c: FullyCheckpoint,
    uk: UpdatingKey,
    r1cs: ConstraintMatrices,
    instance: Seq<Scalar>,
    witness: Seq<Scalar>,
    q_a: Seq<G1Point>,
    q_b: Seq<G1Point>,
) -> bool {
    let n = c.n as nat;
    let k = r1cs.num_constraints as nat;
    let z = instance + witness;
    let a = row_evals(r1cs.a@, z, k, n);
    let b = row_evals(r1cs.b@, z, k, n);
    let cc = row_evals(r1cs.c@, z, k, n);
    &&& models(c.cache.acc_a@) == a
    &&& models(c.cache.acc_b@) == b
    &&& c.cache.q_a@ == q_a
    &&& c.cache.q_b@ == q_b
    &&& c.cache.status == ReconstructPhase::VecPrepare(0)
    &&& c.cache.mod_a.values() == Seq::new(n, |i: int| 0nat)
    &&& c.cache.mod_b.values() == Seq::new(n, |i: int| 0nat)
    &&& c.cache.mod_a.ids().len() == 0
    &&& c.cache.mod_b.ids().len() == 0
    &&& c.raw_a_g1 == proof_a(uk.pk, 0, models(z))
    &&& c.raw_b_g1 == proof_b_g1(uk.pk, 0, models(z))
    &&& c.raw_b_g2 == proof_b_g2(uk.pk, 0, models(z))
    &&& c.raw_c_g1 == proof_c(uk.pk, 0, 0, quotient_spec(n, a, b, cc), models(witness), models(z))
    &&& g1_exp(c.raw_a_g1) == raw_a_exp(uk.pk, models(z))
    &&& g2_exp(c.raw_b_g2) == raw_b2_exp(uk.pk, models(z))
}

/// The exponent of `A` with zero randomness is that of the raw `A`.
pub proof fn lemma_raw_exps(pk: crate::data_structures::ProvingKey, z: Seq<nat>)
    ensures
        a_exp(pk, 0, z) == raw_a_exp(pk, z),
        b2_exp(pk, 0, z) == raw_b2_exp(pk, z),
{
    let m = crate::field::modulus() as int;
    vstd::arithmetic::div_mod::lemma_small_mod(0, crate::field::modulus());
    vstd::arithmetic::div_mod::lemma_add_mod_noop_right(exp_dense(g1_exps(pk.u_g1@), z) as int, g1_exp(pk.vk.alpha_g1) as int, m);
    vstd::arithmetic::div_mod::lemma_add_mod_noop_right(exp_dense(g2_exps(pk.v_g2@), z) as int, g2_exp(pk.vk.beta_g2) as int, m);
}

/// What building a checkpoint of length `n` asks: `n >= 4` is the least
/// power of two with room for the constraints, the domain of order `n` is
/// supported, the matrices fit the assignment, the key's tables have `n`
/// entries, and the coset of the quotient avoids the subgroup.
pub open spec fn ckpt_new_ok(
    n: nat,
    uk: UpdatingKey,
    r1cs: ConstraintMatrices,
    instance: Seq<Scalar>,
    witness: Seq<Scalar>,
) -> bool {
    &&& 4 <= n
    &&& is_next_pow2(n, r1cs.num_constraints as nat)
    &&& n <= 0x1_0000_0000
    &&& n <= usize::MAX / 2 + 1
    &&& instance.len() + witness.len() <= usize::MAX
    &&& matrices_in_range(r1cs, instance.len() + witness.len())
    &&& uk_sized(uk, n)
    &&& coset_ok(n)
}

/// A power of two of at least 4 is a multiple of 4.
proof fn lemma_pow2_mult4(n: nat)
    requires
        is_pow2(n),
        n >= 4,
    ensures
        n % 4 == 0,
{
    let k = choose|k: nat| n == pow2(k);
    lemma2_to64();
    if k < 2 {
        lemma_pow2_unfold(1);
        if k == 1 {
        } else {
        }
        assert(false);
    }
    lemma_pow2_adds(2, (k - 2) as nat);
    vstd::arithmetic::div_mod::lemma_mod_multiples_basic(pow2((k - 2) as nat) as int, 4);
    assert(n == pow2((k - 2) as nat) * 4) by (nonlinear_arith)
        requires
            n == pow2(2) * pow2((k - 2) as nat),
            pow2(2) == 4,
    ;
}

impl FullyCheckpoint {
    /// The accumulators, the domain and the raw proof of a new checkpoint.
    fn fresh_parts(
        n: usize,
        uk: &UpdatingKey,
        r1cs: &ConstraintMatrices,
        instance: &[Scalar],
        witness: &[Scalar],
    ) -> (r: (Vec<Scalar>, Vec<Scalar>, Vec<Scalar>, GeneralEvaluationDomain, (G1Point, G1Point, G2Point, G1Point)))
        requires
            ckpt_new_ok(n as nat, *uk, *r1cs, instance@, witness@),
        ensures
            ({
                let z = instance@ + witness@;
                let k = r1cs.num_constraints as nat;
                let a = row_evals(r1cs.a@, z, k, n as nat);
                let b = row_evals(r1cs.b@, z, k, n as nat);
                let cc = row_evals(r1cs.c@, z, k, n as nat);
                &&& models(r.0@) == a
                &&& models(r.1@) == b
                &&& models(r.2@) == cc
                &&& r.0@.len() == n
                &&& r.1@.len() == n
                &&& r.2@.len() == n
                &&& r.3.spec_size() == n
                &&& r.4.0 == proof_a(uk.pk, 0, models(z))
                &&& r.4.1 == proof_b_g1(uk.pk, 0, models(z))
                &&& r.4.2 == proof_b_g2(uk.pk, 0, models(z))
                &&& r.4.3 == proof_c(uk.pk, 0, 0, quotient_spec(n as nat, a, b, cc), models(witness@), models(z))
                &&& g1_exp(r.4.0) == raw_a_exp(uk.pk, models(z))
                &&& g2_exp(r.4.2) == raw_b2_exp(uk.pk, models(z))
            }),
    {
        let domain = GeneralEvaluationDomain::new(n).unwrap();
        let z = concat_assignment(instance, witness);
        proof {
            assert(r1cs.num_constraints <= n);
        }
        let (acc_a, acc_b, c) = lagrange_of_dense_vec(r1cs, z.as_slice()).unwrap();
        proof {
            lemma_pow2_mult4(n as nat);
            let n2 = choose|m: nat|
                is_next_pow2(m, r1cs.num_constraints as nat) && models(acc_a@) == row_evals(
                    r1cs.a@,
                    z@,
                    r1cs.num_constraints as nat,
                    m,
                ) && models(acc_b@) == row_evals(r1cs.b@, z@, r1cs.num_constraints as nat, m) && models(c@)
                    == row_evals(r1cs.c@, z@, r1cs.num_constraints as nat, m);
            crate::fft_handler::lemma_next_pow2_unique(n2, r1cs.num_constraints as nat);
            crate::fft_handler::lemma_next_pow2_unique(n as nat, r1cs.num_constraints as nat);
            assert(is_next_pow2(n as nat, n as nat)) by {
                let k = choose|k: nat| n as nat == pow2(k);
                assert(is_pow2(n as nat));
            }
            crate::fft_handler::lemma_next_pow2_unique(domain.spec_size(), n as nat);
            crate::fft_handler::lemma_next_pow2_unique(n as nat, n as nat);
            assert(models(acc_a@).len() == acc_a@.len());
            assert(models(acc_b@).len() == acc_b@.len());
            assert(models(c@).len() == c@.len());
        }
        let raw = Groth16::calc_raw_proof(&uk.pk, &domain, instance, witness, &acc_a, &acc_b, &c);
        proof {
            lemma_raw_exps(uk.pk, models(instance@ + witness@));
        }
        (acc_a, acc_b, c, domain, raw)
    }

    /// Initialize Checkpoint
    pub fn new(
        n: usize,
        uk: &UpdatingKey,
        r1cs: &ConstraintMatrices,
        instance: &[Scalar],
        witness: &[Scalar],
    ) -> (r: Self)
        requires
            ckpt_new_ok(n as nat, *uk, *r1cs, instance@, witness@),
        ensures
            r.n == n,
            r.wf(),
            fresh_checkpoint(
                r,
                *uk,
                *r1cs,
                instance@,
                witness@,
                projection(*uk, models(r.cache.acc_a@)),
                projection(*uk, models(r.cache.acc_b@)),
            ),
            uk_covers(*uk, n as nat) ==> cache_ok(r.cache, *uk),
    {
        let (acc_a, acc_b, c, domain, raw) = Self::fresh_parts(n, uk, r1cs, instance, witness);
        let (q_a, q_b) = Groth16::compute_projection_quotient(uk, domain, acc_a.as_slice(), acc_b.as_slice(), c.as_slice());
        proof {
            lemma_pow2_mult4(n as nat);
        }
        let ghost qa = q_a@;
        let ghost qb = q_b@;
        let cache = FullCache::new(n, acc_a, acc_b, q_a, q_b);
        let (raw_a_g1, raw_b_g1, raw_b_g2, raw_c_g1) = raw;
        let r = Self { n, cache, raw_a_g1, raw_b_g1, raw_b_g2, raw_c_g1 };
        proof {
            assert(qa == projection(*uk, models(r.cache.acc_a@)));
            assert(qb == projection(*uk, models(r.cache.acc_b@)));
            assert(cache_wf(r.cache));
        }
        r
    }

    ///new with given cached quotient
    pub fn new_with_qached_quotient(
        n: usize,
        uk: &UpdatingKey,
        r1cs: &ConstraintMatrices,
        instance: &[Scalar],
        witness: &[Scalar],
        qa: &Vec<G1Point>,
        qb: &Vec<G1Point>,
    ) -> (r: Self)
        requires
            ckpt_new_ok(n as nat, *uk, *r1cs, instance@, witness@),
        ensures
            r.n == n,
            fresh_checkpoint(r, *uk, *r1cs, instance@, witness@, qa@, qb@),
            qa@.len() == n && qb@.len() == n ==> r.wf(),
            qa@.len() == n && qb@.len() == n && uk_covers(*uk, n as nat) ==> cache_ok(r.cache, *uk),
    {
        let (acc_a, acc_b, c, domain, raw) = Self::fresh_parts(n, uk, r1cs, instance, witness);
        proof {
            lemma_pow2_mult4(n as nat);
        }
        let cache = FullCache::new(
            n,
            acc_a,
            acc_b,
            crate::fft_handler::copy_vec(qa),
            crate::fft_handler::copy_vec(qb),
        );
        let (raw_a_g1, raw_b_g1, raw_b_g2, raw_c_g1) = raw;
        Self { n, cache, raw_a_g1, raw_b_g1, raw_b_g2, raw_c_g1 }
    }
}


/// The change of the evaluation of row `i` of `m` when the assignment `z`
/// is changed by `upd`.
pub open spec fn row_change(m: Seq<Vec<(Scalar, usize)>>, i: int, z: Seq<nat>, upd: Seq<(usize, Scalar)>) -> int {
    row_eval_n(m[i]@, apply_updates(z, upd)) as int - row_eval_n(m[i]@, z) as int
}

/// The change of a column combination at row `i` is the change of row `i`.
proof fn lemma_ls_row(
    m: Seq<Vec<(Scalar, usize)>>,
    cols: Seq<Vec<(usize, Scalar)>>,
    ls: Seq<(usize, Scalar)>,
    upd: Seq<(usize, Scalar)>,
    z: Seq<nat>,
    i: usize,
)
    requires
        m.len() <= usize::MAX,
        forall|v: int| 0 <= v < cols.len() ==> (#[trigger] cols[v])@ == col_entries(m, m.len(), v as usize),
        sparse_in_range(upd, cols.len()),
        sparse_in_range(upd, z.len()),
        merged_by_index(ls, column_terms(cols, upd)),
        i < m.len(),
        matrix_in_range(m, z.len()),
    ensures
        fcong(key_total(pair_models(ls), i) as int, row_change(m, i as int, z, upd)),
{
    assert(crate::utils::row_in_range(m[i as int]@, z.len()));
    lemma_merged_total(ls, column_terms(cols, upd), i);
    lemma_terms_row_change(m, cols, upd, z, i);
}

/// A change of a checkpoint by `instance_update ++ witness_update`, for the
/// assignment `z` of the circuit `r1cs` with the key `uk` of its domain,
/// records at each row `i` of `A` (of `B`) the change of the evaluation of
/// that row between `z` and the updated assignment, for the whole update,
/// instance part included; and the raw `C` moves by the projections of
/// changes that are, at each row, these same changes.
#[verifier::rlimit(30)]
pub proof fn lemma_checkpoint_records(
    c0: FullyCheckpoint,
    c1: FullyCheckpoint,
    r1cs: ConstraintMatrices,
    domain: GeneralEvaluationDomain,
    pk: ProvingKey,
    uk: UpdatingKey,
    num_instance: nat,
    instance_update: Seq<(usize, Scalar)>,
    witness_update: Seq<(usize, Scalar)>,
    z: Seq<nat>,
)
    requires
        c0.wf(),
        updating_key_of(r1cs, domain, pk, uk),
        ckpt_update_ok(uk, c0.n as nat, num_instance, instance_update, witness_update),
        ckpt_update_result(c0, c1, uk, num_instance, instance_update, witness_update),
        r1cs.a@.len() <= usize::MAX,
        r1cs.b@.len() <= usize::MAX,
        matrix_in_range(r1cs.a@, z.len()),
        matrix_in_range(r1cs.b@, z.len()),
        sparse_in_range(instance_update + witness_update, z.len()),
    ensures
        forall|i: int|
            0 <= i < c0.n && i < r1cs.a@.len() ==> fcong(
                #[trigger] c1.cache.mod_a.values()[i] as int,
                c0.cache.mod_a.values()[i] as int + row_change(r1cs.a@, i, z, instance_update + witness_update),
            ),
        forall|i: int|
            0 <= i < c0.n && i < r1cs.b@.len() ==> fcong(
                #[trigger] c1.cache.mod_b.values()[i] as int,
                c0.cache.mod_b.values()[i] as int + row_change(r1cs.b@, i, z, instance_update + witness_update),
            ),
        exists|a_ls: Seq<(usize, Scalar)>, b_ls: Seq<(usize, Scalar)>, x1: G1Point, x2: G1Point|
            #![trigger ckpt_c_new(c0, uk, num_instance, witness_update, a_ls, b_ls, x1, x2)]
            {
                &&& c1.raw_c_g1 == ckpt_c_new(c0, uk, num_instance, witness_update, a_ls, b_ls, x1, x2)
                &&& forall|i: int|
                    0 <= i < r1cs.a@.len() ==> fcong(
                        #[trigger] key_total(pair_models(a_ls), i as usize) as int,
                        row_change(r1cs.a@, i, z, instance_update + witness_update),
                    )
                &&& forall|i: int|
                    0 <= i < r1cs.b@.len() ==> fcong(
                        #[trigger] key_total(pair_models(b_ls), i as usize) as int,
                        row_change(r1cs.b@, i, z, instance_update + witness_update),
                    )
            },
{
    let upd = instance_update + witness_update;
    let (a_ls, b_ls, new_a, old_b, x1, x2) = choose|
        a_ls: Seq<(usize, Scalar)>,
        b_ls: Seq<(usize, Scalar)>,
        new_a: Seq<(usize, Scalar)>,
        old_b: Seq<(usize, Scalar)>,
        x1: G1Point,
        x2: G1Point,
    |
        #![trigger ckpt_c_new(c0, uk, num_instance, witness_update, a_ls, b_ls, x1, x2), lists_record(c1.cache.mod_a, new_a), lists_record(c0.cache.mod_b, old_b)]
        {
            &&& merged_by_index(a_ls, column_terms(uk.a_matrix_cols@, upd))
            &&& merged_by_index(b_ls, column_terms(uk.b_matrix_cols@, upd))
            &&& records_appended(c0.cache, c1.cache, a_ls, b_ls)
            &&& lists_record(c1.cache.mod_a, new_a)
            &&& lists_record(c0.cache.mod_b, old_b)
            &&& cross_terms_of(uk, c0.n as nat, new_a, b_ls, x1)
            &&& cross_terms_of(uk, c0.n as nat, a_ls, old_b, x2)
            &&& c1.raw_c_g1 == ckpt_c_new(c0, uk, num_instance, witness_update, a_ls, b_ls, x1, x2)
        };
    let n = c0.n as nat;
    lemma_merged_in_range(a_ls, uk.a_matrix_cols@, upd, n);
    lemma_merged_in_range(b_ls, uk.b_matrix_cols@, upd, n);
    let va = c0.cache.mod_a.values();
    let vb = c0.cache.mod_b.values();
    assert(va.len() == n);
    assert(vb.len() == n);
    assert forall|i: int| 0 <= i < r1cs.a@.len() implies fcong(
        #[trigger] key_total(pair_models(a_ls), i as usize) as int,
        row_change(r1cs.a@, i, z, upd),
    ) by {
        lemma_ls_row(r1cs.a@, uk.a_matrix_cols@, a_ls, upd, z, i as usize);
    }
    assert forall|i: int| 0 <= i < r1cs.b@.len() implies fcong(
        #[trigger] key_total(pair_models(b_ls), i as usize) as int,
        row_change(r1cs.b@, i, z, upd),
    ) by {
        lemma_ls_row(r1cs.b@, uk.b_matrix_cols@, b_ls, upd, z, i as usize);
    }
    assert forall|i: int| 0 <= i < c0.n && i < r1cs.a@.len() implies fcong(
        #[trigger] c1.cache.mod_a.values()[i] as int,
        va[i] as int + row_change(r1cs.a@, i, z, upd),
    ) by {
        lemma_ls_row(r1cs.a@, uk.a_matrix_cols@, a_ls, upd, z, i as usize);
        lemma_record_added_total(va, a_ls, i as usize);
        lemma_fcong_refl(va[i] as int);
        lemma_icong_add(va[i] as int, va[i] as int, key_total(pair_models(a_ls), i as usize) as int, row_change(r1cs.a@, i, z, upd));
        lemma_icong_trans(
            c1.cache.mod_a.values()[i] as int,
            va[i] as int + key_total(pair_models(a_ls), i as usize) as int,
            va[i] as int + row_change(r1cs.a@, i, z, upd),
        );
    }
    assert forall|i: int| 0 <= i < c0.n && i < r1cs.b@.len() implies fcong(
        #[trigger] c1.cache.mod_b.values()[i] as int,
        vb[i] as int + row_change(r1cs.b@, i, z, upd),
    ) by {
        lemma_ls_row(r1cs.b@, uk.b_matrix_cols@, b_ls, upd, z, i as usize);
        lemma_record_added_total(vb, b_ls, i as usize);
        lemma_fcong_refl(vb[i] as int);
        lemma_icong_add(vb[i] as int, vb[i] as int, key_total(pair_models(b_ls), i as usize) as int, row_change(r1cs.b@, i, z, upd));
        lemma_icong_trans(
            c1.cache.mod_b.values()[i] as int,
            vb[i] as int + key_total(pair_models(b_ls), i as usize) as int,
            vb[i] as int + row_change(r1cs.b@, i, z, upd),
        );
    }
}

/// A simulated update of a checkpoint by `instance_update ++ witness_update`,
/// for the assignment `z` of the circuit `r1cs` with the key `uk` of its
/// domain, moves the raw `C` by the projections of changes that are, at each
/// row of `A` (of `B`), the change of the evaluation of that row between `z`
/// and the updated assignment, for the whole update, instance part included.
#[verifier::rlimit(30)]
pub proof fn lemma_sim_update_projections(
    c: FullyCheckpoint,
    r1cs: ConstraintMatrices,
    domain: GeneralEvaluationDomain,
    pk: ProvingKey,
    uk: UpdatingKey,
    num_instance: nat,
    instance_update: Seq<(usize, Scalar)>,
    witness_update: Seq<(usize, Scalar)>,
    z: Seq<nat>,
    res: (G1Point, G1Point, G2Point, G1Point),
)
    requires
        updating_key_of(r1cs, domain, pk, uk),
        ckpt_update_ok(uk, c.n as nat, num_instance, instance_update, witness_update),
        sim_update_result(c, uk, num_instance, instance_update, witness_update, res),
        r1cs.a@.len() <= usize::MAX,
        r1cs.b@.len() <= usize::MAX,
        matrix_in_range(r1cs.a@, z.len()),
        matrix_in_range(r1cs.b@, z.len()),
        sparse_in_range(instance_update + witness_update, z.len()),
    ensures
        exists|a_ls: Seq<(usize, Scalar)>, b_ls: Seq<(usize, Scalar)>, x1: G1Point, x2: G1Point|
            #![trigger ckpt_c_new(c, uk, num_instance, witness_update, a_ls, b_ls, x1, x2)]
            {
                &&& res.3 == ckpt_c_new(c, uk, num_instance, witness_update, a_ls, b_ls, x1, x2)
                &&& forall|i: int|
                    0 <= i < r1cs.a@.len() ==> fcong(
                        #[trigger] key_total(pair_models(a_ls), i as usize) as int,
                        row_change(r1cs.a@, i, z, instance_update + witness_update),
                    )
                &&& forall|i: int|
                    0 <= i < r1cs.b@.len() ==> fcong(
                        #[trigger] key_total(pair_models(b_ls), i as usize) as int,
                        row_change(r1cs.b@, i, z, instance_update + witness_update),
                    )
            },
{
    let upd = instance_update + witness_update;
    let (a_ls, b_ls, cur, new_a, old_b, x1, x2) = choose|
        a_ls: Seq<(usize, Scalar)>,
        b_ls: Seq<(usize, Scalar)>,
        cur: Seq<(usize, Scalar)>,
        new_a: Seq<(usize, Scalar)>,
        old_b: Seq<(usize, Scalar)>,
        x1: G1Point,
        x2: G1Point,
    |
        #![trigger ckpt_c_new(c, uk, num_instance, witness_update, a_ls, b_ls, x1, x2), lists_record_in_order(c.cache.mod_a, cur), lists_record_in_order(c.cache.mod_b, old_b), merged_by_index(new_a, pair_models(cur + a_ls))]
        {
            &&& merged_by_index(a_ls, column_terms(uk.a_matrix_cols@, upd))
            &&& merged_by_index(b_ls, column_terms(uk.b_matrix_cols@, upd))
            &&& lists_record_in_order(c.cache.mod_a, cur)
            &&& lists_record_in_order(c.cache.mod_b, old_b)
            &&& merged_by_index(new_a, pair_models(cur + a_ls))
            &&& cross_terms_of(uk, c.n as nat, new_a, b_ls, x1)
            &&& cross_terms_of(uk, c.n as nat, a_ls, old_b, x2)
            &&& res.3 == ckpt_c_new(c, uk, num_instance, witness_update, a_ls, b_ls, x1, x2)
        };
    assert forall|i: int| 0 <= i < r1cs.a@.len() implies fcong(
        #[trigger] key_total(pair_models(a_ls), i as usize) as int,
        row_change(r1cs.a@, i, z, upd),
    ) by {
        lemma_ls_row(r1cs.a@, uk.a_matrix_cols@, a_ls, upd, z, i as usize);
    }
    assert forall|i: int| 0 <= i < r1cs.b@.len() implies fcong(
        #[trigger] key_total(pair_models(b_ls), i as usize) as int,
        row_change(r1cs.b@, i, z, upd),
    ) by {
        lemma_ls_row(r1cs.b@, uk.b_matrix_cols@, b_ls, upd, z, i as usize);
    }
}

/// A proof updated from a cached one by `instance_update ++ witness_update`,
/// for the assignment `z` of the circuit `r1cs` with the key `uk` of its
/// domain, moves its `C` by the projections of changes that are, at each row
/// of `A` (of `B`), the change of the evaluation of that row between `z` and
/// the updated assignment, for the whole update, instance part included.
pub proof fn lemma_update_projections(
    r1cs: ConstraintMatrices,
    domain: GeneralEvaluationDomain,
    pk: ProvingKey,
    uk: UpdatingKey,
    cache: Cache,
    instance_update: Seq<(usize, Scalar)>,
    witness_update: Seq<(usize, Scalar)>,
    r_new: nat,
    s_new: nat,
    p: Proof,
    z: Seq<nat>,
)
    requires
        updating_key_of(r1cs, domain, pk, uk),
        exists|a_ls: Seq<(usize, Scalar)>, b_ls: Seq<(usize, Scalar)>|
            merged_by_index(a_ls, column_terms(uk.a_matrix_cols@, instance_update + witness_update))
                && merged_by_index(b_ls, column_terms(uk.b_matrix_cols@, instance_update + witness_update))
                && g1_exp(p.c_g1) == #[trigger] updated_c_exp(uk, cache, instance_update, witness_update, r_new, s_new, a_ls, b_ls),
        sparse_in_range(instance_update + witness_update, uk.a_matrix_cols@.len()),
        sparse_in_range(instance_update + witness_update, uk.b_matrix_cols@.len()),
        r1cs.a@.len() <= usize::MAX,
        r1cs.b@.len() <= usize::MAX,
        matrix_in_range(r1cs.a@, z.len()),
        matrix_in_range(r1cs.b@, z.len()),
        sparse_in_range(instance_update + witness_update, z.len()),
    ensures
        exists|a_ls: Seq<(usize, Scalar)>, b_ls: Seq<(usize, Scalar)>|
            #![trigger updated_c_exp(uk, cache, instance_update, witness_update, r_new, s_new, a_ls, b_ls)]
            {
                &&& g1_exp(p.c_g1) == updated_c_exp(uk, cache, instance_update, witness_update, r_new, s_new, a_ls, b_ls)
                &&& forall|i: int|
                    0 <= i < r1cs.a@.len() ==> fcong(
                        #[trigger] key_total(pair_models(a_ls), i as usize) as int,
                        row_change(r1cs.a@, i, z, instance_update + witness_update),
                    )
                &&& forall|i: int|
                    0 <= i < r1cs.b@.len() ==> fcong(
                        #[trigger] key_total(pair_models(b_ls), i as usize) as int,
                        row_change(r1cs.b@, i, z, instance_update + witness_update),
                    )
            },
{
    let upd = instance_update + witness_update;
    let (a_ls, b_ls) = choose|a_ls: Seq<(usize, Scalar)>, b_ls: Seq<(usize, Scalar)>|
        merged_by_index(a_ls, column_terms(uk.a_matrix_cols@, upd))
            && merged_by_index(b_ls, column_terms(uk.b_matrix_cols@, upd))
            && g1_exp(p.c_g1) == #[trigger] updated_c_exp(uk, cache, instance_update, witness_update, r_new, s_new, a_ls, b_ls);
    assert forall|i: int| 0 <= i < r1cs.a@.len() implies fcong(
        #[trigger] key_total(pair_models(a_ls), i as usize) as int,
        row_change(r1cs.a@, i, z, upd),
    ) by {
        lemma_ls_row(r1cs.a@, uk.a_matrix_cols@, a_ls, upd, z, i as usize);
    }
    assert forall|i: int| 0 <= i < r1cs.b@.len() implies fcong(
        #[trigger] key_total(pair_models(b_ls), i as usize) as int,
        row_change(r1cs.b@, i, z, upd),
    ) by {
        lemma_ls_row(r1cs.b@, uk.b_matrix_cols@, b_ls, upd, z, i as usize);
    }
}

} // verus!
