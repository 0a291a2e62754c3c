//! A family of R1CS circuits with random coefficients, assignments that
//! satisfy them, and random sparse updates of those assignments.
//!
//! Constraint `i`, for `1 <= i < m` with `m = n / 2`, reads
//! `(k_a z_i + c_a) * (k_b z_i + c_b) = z_{i + m}`, with `z_0 = 1`.
use vstd::prelude::*;
use crate::field::{fadd, fmul, fneg, fsub, modulus, Scalar, fr_add, fr_mul, fr_sub, fr_rand};
use crate::relations::{ConstraintMatrices, Matrix};
use crate::utils::row_eval;
use crate::group::models;
use ark_std::rand::rngs::StdRng;
use rand::rngs::ThreadRng;
use crate::dynamic_cache::stably_sorted;
use crate::sorting::sort_by_index;
use crate::utils::{key_total, pair_models};

verus! {

/// `(k_a v + c_a) * (k_b v + c_b)` in the field.
#[verifier::opaque]
pub open spec fn circuit_step(v: nat, k_a: nat, c_a: nat, k_b: nat, c_b: nat) -> nat {
    fmul(fadd(fmul(v, k_a), c_a), fadd(fmul(v, k_b), c_b))
}

/// Every value of the sequence is a canonical field element.
pub open spec fn canonical_all(s: Seq<Scalar>) -> bool {
    forall|i: int| 0 <= i < s.len() ==> (#[trigger] s[i])@ < modulus()
}

/// The number of constraints with coefficients: `m - 1` for `m = n / 2`.
pub open spec fn coef_count(n: nat) -> nat {
    if n / 2 >= 1 {
        (n / 2 - 1) as nat
    } else {
        0
    }
}

/// The matrices of the circuit of `n` constraints with coefficients `ka`,
/// `kb`, `ca`, `cb`: row `i` of `A` is `k_a z_i + c_a z_0`, of `B`
/// `k_b z_i + c_b z_0`, of `C` `z_{i + m}`, for `1 <= i < m`; the other
/// rows are empty.
pub open spec fn generated_matrices(
    mat: ConstraintMatrices,
    n: nat,
    ni: nat,
    nw: nat,
    ka: Seq<Scalar>,
    kb: Seq<Scalar>,
    ca: Seq<Scalar>,
    cb: Seq<Scalar>,
) -> bool {
    let h = n / 2;
    &&& mat.num_instance_variables == ni
    &&& mat.num_witness_variables == nw
    &&& mat.num_constraints == n
    &&& mat.a_num_non_zero == n
    &&& mat.b_num_non_zero == n
    &&& mat.c_num_non_zero == n
    &&& ka.len() == coef_count(n)
    &&& kb.len() == coef_count(n)
    &&& ca.len() == coef_count(n)
    &&& cb.len() == coef_count(n)
    &&& canonical_all(ka)
    &&& canonical_all(kb)
    &&& canonical_all(ca)
    &&& canonical_all(cb)
    &&& mat.a@.len() == n
    &&& mat.b@.len() == n
    &&& mat.c@.len() == n
    &&& forall|i: int|
        0 <= i < n ==> (#[trigger] mat.a@[i])@ == if 1 <= i < h {
            seq![(ka[i - 1], i as usize), (ca[i - 1], 0usize)]
        } else {
            Seq::empty()
        }
    &&& forall|i: int|
        0 <= i < n ==> (#[trigger] mat.b@[i])@ == if 1 <= i < h {
            seq![(kb[i - 1], i as usize), (cb[i - 1], 0usize)]
        } else {
            Seq::empty()
        }
    &&& forall|i: int|
        0 <= i < n ==> if 1 <= i < h {
            &&& (#[trigger] mat.c@[i])@.len() == 1
            &&& mat.c@[i]@[0].0@ == 1
            &&& mat.c@[i]@[0].1 == i + h
        } else {
            mat.c@[i]@.len() == 0
        }
}

/// Value `i + m` of `z` is the constraint of value `i`.
pub open spec fn linked(
    z: Seq<Scalar>,
    i: int,
    h: int,
    ka: Seq<Scalar>,
    kb: Seq<Scalar>,
    ca: Seq<Scalar>,
    cb: Seq<Scalar>,
) -> bool {
    z[i + h]@ == circuit_step(z[i]@, ka[i - 1]@, ca[i - 1]@, kb[i - 1]@, cb[i - 1]@)
}

/// An assignment `z = instance ++ witness` of the circuit: `z_0 = 1`, each
/// `z_{i + m}` the constraint of `z_i` for `1 <= i < m`, and zero elsewhere
/// outside `[1, m)`.
pub open spec fn generated_assignment(
    instance: Seq<Scalar>,
    witness: Seq<Scalar>,
    ni: nat,
    nw: nat,
    ka: Seq<Scalar>,
    kb: Seq<Scalar>,
    ca: Seq<Scalar>,
    cb: Seq<Scalar>,
) -> bool {
    let z = instance + witness;
    let h = (ni + nw) / 2;
    &&& instance.len() == ni
    &&& witness.len() == nw
    &&& ni >= 1
    &&& canonical_all(z)
    &&& z[0]@ == 1
    &&& forall|i: int| 1 <= i < h ==> #[trigger] linked(z, i, h as int, ka, kb, ca, cb)
    &&& forall|j: int|
        1 <= j < z.len() && !(1 <= j < h) && !(h + 1 <= j < 2 * h) ==> (#[trigger] z[j])@ == 0
}

/// Every constraint of the matrices holds on `z`: `<A_i, z> * <B_i, z> =
/// <C_i, z>`.
pub open spec fn r1cs_satisfied(mat: ConstraintMatrices, z: Seq<Scalar>) -> bool {
    forall|i: int|
        0 <= i < mat.num_constraints ==> fmul(row_eval(mat.a@[i]@, z), row_eval(mat.b@[i]@, z)) == #[trigger] row_eval(
            mat.c@[i]@,
            z,
        )
}

/// `0 + x = x` and `x * 1 = x` for a canonical `x`.
proof fn lemma_field_units(x: nat)
    requires
        x < modulus(),
    ensures
        fadd(0, x) == x,
        fmul(x, 1) == x,
        fmul(1, x) == x,
        fadd(x, 0) == x,
{
    vstd::arithmetic::div_mod::lemma_small_mod(x, modulus());
}

/// The assignments of the circuit satisfy it.
pub proof fn lemma_generated_satisfied(
    mat: ConstraintMatrices,
    n: nat,
    ka: Seq<Scalar>,
    kb: Seq<Scalar>,
    ca: Seq<Scalar>,
    cb: Seq<Scalar>,
    instance: Seq<Scalar>,
    witness: Seq<Scalar>,
)
    requires
        generated_matrices(mat, n, instance.len(), witness.len(), ka, kb, ca, cb),
        generated_assignment(instance, witness, instance.len(), witness.len(), ka, kb, ca, cb),
        n == instance.len() + witness.len(),
    ensures
        r1cs_satisfied(mat, instance + witness),
{
    let z = instance + witness;
    let h = n / 2;
    assert forall|i: int| 0 <= i < mat.num_constraints implies fmul(
        row_eval(mat.a@[i]@, z),
        row_eval(mat.b@[i]@, z),
    ) == #[trigger] row_eval(mat.c@[i]@, z) by {
        if 1 <= i < h {
            let ra = mat.a@[i]@;
            let rb = mat.b@[i]@;
            let rc = mat.c@[i]@;
            assert(ra.drop_last().drop_last() =~= Seq::<(Scalar, usize)>::empty());
            assert(rb.drop_last().drop_last() =~= Seq::<(Scalar, usize)>::empty());
            assert(rc.drop_last() =~= Seq::<(Scalar, usize)>::empty());
            assert(linked(z, i, h as int, ka, kb, ca, cb));
            reveal(circuit_step);
            lemma_field_units(fmul(z[i]@, ka[i - 1]@));
            lemma_field_units(fmul(z[i]@, kb[i - 1]@));
            lemma_field_units(ca[i - 1]@);
            lemma_field_units(cb[i - 1]@);
            lemma_field_units(z[i + h]@);
            assert(z[0]@ == 1);
            assert(ra.len() == 2 && ra[0] == (ka[i - 1], i as usize) && ra[1] == (ca[i - 1], 0usize));
            assert(rb.len() == 2 && rb[0] == (kb[i - 1], i as usize) && rb[1] == (cb[i - 1], 0usize));
            assert(ra.drop_last().last() == ra[0]);
            assert(rb.drop_last().last() == rb[0]);
            assert(row_eval(ra.drop_last().drop_last(), z) == 0);
            assert(row_eval(rb.drop_last().drop_last(), z) == 0);
            assert(row_eval(rc.drop_last(), z) == 0);
            assert(row_eval(ra.drop_last(), z) == fadd(0, fmul(z[i]@, ka[i - 1]@)));
            assert(row_eval(rb.drop_last(), z) == fadd(0, fmul(z[i]@, kb[i - 1]@)));
            assert(row_eval(ra, z) == fadd(fmul(z[i]@, ka[i - 1]@), ca[i - 1]@));
            assert(row_eval(rb, z) == fadd(fmul(z[i]@, kb[i - 1]@), cb[i - 1]@));
            assert(row_eval(rc, z) == z[i + h]@);
        } else {
            assert(mat.a@[i]@ =~= Seq::<(Scalar, usize)>::empty());
            assert(mat.b@[i]@ =~= Seq::<(Scalar, usize)>::empty());
            assert(mat.c@[i]@ =~= Seq::<(Scalar, usize)>::empty());
            assert(row_eval(mat.a@[i]@, z) == 0);
            assert(row_eval(mat.b@[i]@, z) == 0);
            assert(row_eval(mat.c@[i]@, z) == 0);
            lemma_field_units(0);
            assert(fmul(0, 0) == 0);
        }
    }
}

/// `n` empty rows.
fn empty_rows(n: usize) -> (r: Matrix)
    ensures
        r@.len() == n,
        forall|i: int| 0 <= i < n ==> (#[trigger] r@[i])@.len() == 0,
{
    let mut r: Matrix = Vec::with_capacity(n);
    let mut i: usize = 0;
    while i < n
        invariant
            i <= n,
            r@.len() == i,
            forall|j: int| 0 <= j < i ==> (#[trigger] r@[j])@.len() == 0,
        decreases n - i,
    {
        r.push(Vec::new());
        i = i + 1;
    }
    r
}

/// Generate A=d, B=d, C=d, Z=2d, a_(i+m)=f(a_i), where f is 2-deg polynomial
pub fn generate_matrices(
    num_constraint: usize,
    num_instance: usize,
    num_witness: usize,
    rng: &mut StdRng,
) -> (r: (ConstraintMatrices, Vec<Scalar>, Vec<Scalar>, Vec<Scalar>, Vec<Scalar>))
    requires
        num_constraint == num_instance + num_witness,
    ensures
        generated_matrices(
            r.0,
            num_constraint as nat,
            num_instance as nat,
            num_witness as nat,
            r.1@,
            r.2@,
            r.3@,
            r.4@,
        ),
{
    let m = num_constraint / 2;
    let mut a = empty_rows(num_constraint);
    let mut b = empty_rows(num_constraint);
    let mut c = empty_rows(num_constraint);
    let mut ka: Vec<Scalar> = Vec::new();
    let mut kb: Vec<Scalar> = Vec::new();
    let mut ca: Vec<Scalar> = Vec::new();
    let mut cb: Vec<Scalar> = Vec::new();
    let mut i: usize = 1;
    while i < m
        invariant
            m == num_constraint / 2,
            1 <= i <= if m >= 1 { m } else { 1 },
            a@.len() == num_constraint,
            b@.len() == num_constraint,
            c@.len() == num_constraint,
            ka@.len() == i - 1,
            kb@.len() == i - 1,
            ca@.len() == i - 1,
            cb@.len() == i - 1,
            canonical_all(ka@),
            canonical_all(kb@),
            canonical_all(ca@),
            canonical_all(cb@),
            forall|j: int|
                0 <= j < num_constraint ==> (#[trigger] a@[j])@ == if 1 <= j < i {
                    seq![(ka@[j - 1], j as usize), (ca@[j - 1], 0usize)]
                } else {
                    Seq::empty()
                },
            forall|j: int|
                0 <= j < num_constraint ==> (#[trigger] b@[j])@ == if 1 <= j < i {
                    seq![(kb@[j - 1], j as usize), (cb@[j - 1], 0usize)]
                } else {
                    Seq::empty()
                },
            forall|j: int|
                0 <= j < num_constraint ==> if 1 <= j < i {
                    &&& (#[trigger] c@[j])@.len() == 1
                    &&& c@[j]@[0].0@ == 1
                    &&& c@[j]@[0].1 == j + m
                } else {
                    c@[j]@.len() == 0
                },
        decreases m - i,
    {
        let k_a = fr_rand(rng);
        let k_b = fr_rand(rng);
        let c_a = fr_rand(rng);
        let c_b = fr_rand(rng);
        proof {
            use_type_invariant(&k_a);
            use_type_invariant(&k_b);
            use_type_invariant(&c_a);
            use_type_invariant(&c_b);
            Scalar::lemma_canonical(k_a);
            Scalar::lemma_canonical(k_b);
            Scalar::lemma_canonical(c_a);
            Scalar::lemma_canonical(c_b);
        }
        a.set(i, vec![(k_a, i), (c_a, 0)]);
        b.set(i, vec![(k_b, i), (c_b, 0)]);
        c.set(i, vec![(Scalar::one(), i + m)]);
        ka.push(k_a);
        kb.push(k_b);
        ca.push(c_a);
        cb.push(c_b);
        i = i + 1;
    }
    let mat = ConstraintMatrices {
        num_instance_variables: num_instance,
        num_witness_variables: num_witness,
        num_constraints: num_constraint,
        a_num_non_zero: num_constraint,
        b_num_non_zero: num_constraint,
        c_num_non_zero: num_constraint,
        a,
        b,
        c,
    };
    (mat, ka, kb, ca, cb)
}


/// Position `j` of `instance ++ witness` set to `v`.
fn set_at(instance: &mut Vec<Scalar>, witness: &mut Vec<Scalar>, j: usize, v: Scalar)
    requires
        j < old(instance)@.len() + old(witness)@.len(),
    ensures
        final(instance)@.len() == old(instance)@.len(),
        final(witness)@.len() == old(witness)@.len(),
        final(instance)@ + final(witness)@ == (old(instance)@ + old(witness)@).update(j as int, v),
{
    if j < instance.len() {
        instance.set(j, v);
    } else {
        witness.set(j - instance.len(), v);
    }
    assert(instance@ + witness@ =~= (old(instance)@ + old(witness)@).update(j as int, v));
}

/// The value at position `j` of `instance ++ witness`.
fn get_at(instance: &Vec<Scalar>, witness: &Vec<Scalar>, j: usize) -> (r: Scalar)
    requires
        j < instance@.len() + witness@.len(),
    ensures
        r == (instance@ + witness@)[j as int],
{
    if j < instance.len() {
        instance[j]
    } else {
        witness[j - instance.len()]
    }
}

/// `n` zeros.
fn zeros(n: usize) -> (r: Vec<Scalar>)
    ensures
        r@.len() == n,
        forall|i: int| 0 <= i < n ==> (#[trigger] r@[i])@ == 0,
{
    let mut r: Vec<Scalar> = Vec::with_capacity(n);
    let mut i: usize = 0;
    while i < n
        invariant
            i <= n,
            r@.len() == i,
            forall|j: int| 0 <= j < i ==> (#[trigger] r@[j])@ == 0,
        decreases n - i,
    {
        r.push(Scalar::zero());
        i = i + 1;
    }
    r
}

/// `(k_a v + c_a) * (k_b v + c_b)`.
fn step_value(v: &Scalar, k_a: &Scalar, c_a: &Scalar, k_b: &Scalar, c_b: &Scalar) -> (r: Scalar)
    ensures
        r@ == circuit_step(v@, k_a@, c_a@, k_b@, c_b@),
        r@ < modulus(),
{
    let r = fr_mul(&fr_add(&fr_mul(v, k_a), c_a), &fr_add(&fr_mul(v, k_b), c_b));
    proof {
        reveal(circuit_step);
        use_type_invariant(&r);
        Scalar::lemma_canonical(r);
    }
    r
}

/// Generate A=d, B=d, C=d, Z=2d
pub fn generate_instance_witness(
    num_instance: usize,
    num_witness: usize,
    rng: &mut StdRng,
    ka: &Vec<Scalar>,
    kb: &Vec<Scalar>,
    ca: &Vec<Scalar>,
    cb: &Vec<Scalar>,
) -> (r: (Vec<Scalar>, Vec<Scalar>))
    requires
        num_instance >= 1,
        num_instance + num_witness <= usize::MAX,
        ka@.len() >= coef_count((num_instance + num_witness) as nat),
        kb@.len() >= coef_count((num_instance + num_witness) as nat),
        ca@.len() >= coef_count((num_instance + num_witness) as nat),
        cb@.len() >= coef_count((num_instance + num_witness) as nat),
    ensures
        generated_assignment(r.0@, r.1@, num_instance as nat, num_witness as nat, ka@, kb@, ca@, cb@),
{
    let mut instance = zeros(num_instance);
    instance.set(0, Scalar::one());
    let mut witness = zeros(num_witness);
    let m = (num_witness + num_instance) / 2;
    let ghost len = (num_instance + num_witness) as int;
    proof {
        assert forall|j: int| 0 <= j < len implies (#[trigger] (instance@ + witness@)[j])@ < modulus() by {
            if j >= num_instance {
                assert((instance@ + witness@)[j] == witness@[j - num_instance]);
            }
        }
    }
    let mut i: usize = 1;
    while i < m
        invariant
            m == (num_instance + num_witness) / 2,
            len == num_instance + num_witness,
            len <= usize::MAX,
            num_instance >= 1,
            1 <= i <= if m >= 1 { m } else { 1 },
            instance@.len() == num_instance,
            witness@.len() == num_witness,
            ka@.len() >= coef_count(len as nat),
            kb@.len() >= coef_count(len as nat),
            ca@.len() >= coef_count(len as nat),
            cb@.len() >= coef_count(len as nat),
            canonical_all(instance@ + witness@),
            (instance@ + witness@)[0]@ == 1,
            forall|k: int| 1 <= k < i ==> #[trigger] linked(instance@ + witness@, k, m as int, ka@, kb@, ca@, cb@),
            forall|j: int|
                1 <= j < len && !(1 <= j < i) && !(m + 1 <= j < m + i) ==> (#[trigger] (instance@
                    + witness@)[j])@ == 0,
        decreases m - i,
    {
        let vl = fr_rand(rng);
        proof {
            use_type_invariant(&vl);
            Scalar::lemma_canonical(vl);
        }
        let tar = step_value(&vl, &ka[i - 1], &ca[i - 1], &kb[i - 1], &cb[i - 1]);
        let ghost z0 = instance@ + witness@;
        assert(2 * m <= len);
        set_at(&mut instance, &mut witness, i, vl);
        set_at(&mut instance, &mut witness, i + m, tar);
        proof {
            let z = instance@ + witness@;
            assert(z == z0.update(i as int, vl).update(i + m, tar));
            assert forall|k: int| 1 <= k < i + 1 implies #[trigger] linked(z, k, m as int, ka@, kb@, ca@, cb@) by {
                if k < i {
                    assert(linked(z0, k, m as int, ka@, kb@, ca@, cb@));
                }
            }
        }
        i = i + 1;
    }
    proof {
        assert(m >= 1 ==> i == m);
    }
    (instance, witness)
}


/// The generator of the current thread of `rand`, carried through as is.
#[verifier::external_type_specification]
#[verifier::external_body]
pub struct ExThreadRng(ThreadRng);

/// `rand::rng()`: the generator of the current thread, seeded from the
/// system. Nothing is stated of it.
#[verifier::external_body]
fn thread_rng() -> (r: ThreadRng) {
    rand::rng()
}

/// `rand::seq::index::sample` on `rng`, as a `Vec`: `amount` distinct
/// indices below `length`, in an order left to chance. It panics when
/// `amount > length`, which `requires` leaves out.
#[verifier::external_body]
fn sample_indices(rng: &mut ThreadRng, length: usize, amount: usize) -> (r: Vec<usize>)
    requires
        amount <= length,
    ensures
        r@.len() == amount,
        forall|k: int| 0 <= k < r@.len() ==> #[trigger] r@[k] < length,
        forall|k: int, l: int| 0 <= k < l < r@.len() ==> r@[k] != r@[l],
{
    rand::seq::index::sample(rng, length, amount).into_vec()
}

/// The assignment, as field values, after the first `k` updates of
/// positions `idx` by `dts`: `z_i += dt`, then `z_{i + h}` the constraint of
/// the new `z_i`.
pub open spec fn updated_values(
    z0: Seq<nat>,
    idx: Seq<usize>,
    dts: Seq<Scalar>,
    h: nat,
    ka: Seq<Scalar>,
    kb: Seq<Scalar>,
    ca: Seq<Scalar>,
    cb: Seq<Scalar>,
    k: nat,
) -> Seq<nat>
    decreases k,
{
    if k == 0 {
        z0
    } else {
        let prev = updated_values(z0, idx, dts, h, ka, kb, ca, cb, (k - 1) as nat);
        let i = idx[k - 1] as int;
        let nv = fadd(prev[i], dts[k - 1]@);
        prev.update(i, nv).update(i + h, circuit_step(nv, ka[i - 1]@, ca[i - 1]@, kb[i - 1]@, cb[i - 1]@))
    }
}

/// The changes the first `k` updates record, in order, on the instance
/// (`inst`) or on the witness (the indices from `ni` on): `(i, dt)` and
/// `(i + h, f(new z_i) - f(old z_i))`, each where its index falls.
pub open spec fn update_entries(
    z0: Seq<nat>,
    idx: Seq<usize>,
    dts: Seq<Scalar>,
    h: nat,
    ka: Seq<Scalar>,
    kb: Seq<Scalar>,
    ca: Seq<Scalar>,
    cb: Seq<Scalar>,
    ni: nat,
    inst: bool,
    k: nat,
) -> Seq<(usize, nat)>
    decreases k,
{
    if k == 0 {
        Seq::empty()
    } else {
        let prev = update_entries(z0, idx, dts, h, ka, kb, ca, cb, ni, inst, (k - 1) as nat);
        let vals = updated_values(z0, idx, dts, h, ka, kb, ca, cb, (k - 1) as nat);
        let i = idx[k - 1] as int;
        let old_v = vals[i];
        let new_v = fadd(old_v, dts[k - 1]@);
        let delta = fsub(
            circuit_step(new_v, ka[i - 1]@, ca[i - 1]@, kb[i - 1]@, cb[i - 1]@),
            circuit_step(old_v, ka[i - 1]@, ca[i - 1]@, kb[i - 1]@, cb[i - 1]@),
        );
        let p1 = if (i < ni) == inst {
            prev.push((i as usize, dts[k - 1]@))
        } else {
            prev
        };
        if (i + h < ni) == inst {
            p1.push(((i + h) as usize, delta))
        } else {
            p1
        }
    }
}

/// `idx` are `u` distinct positions in `[1, h)`, and `dts` has a change for
/// each.
pub open spec fn valid_sample(idx: Seq<usize>, dts: Seq<Scalar>, u: nat, h: nat) -> bool {
    &&& idx.len() == u
    &&& dts.len() == u
    &&& canonical_all(dts)
    &&& forall|k: int| 0 <= k < u ==> 1 <= #[trigger] idx[k] < h
    &&& forall|k: int, l: int| 0 <= k < l < u ==> idx[k] != idx[l]
}

/// The outcome of `u` random updates of the assignment `z0` into `z1`, for
/// the sample `idx`, `dts`: `z1` is the updated assignment, and `r0`, `r1`
/// are the changes recorded on the instance and on the witness, `s0`, `s1`,
/// sorted by index.
pub open spec fn update_outcome(
    z0: Seq<nat>,
    z1: Seq<nat>,
    r0: Seq<(usize, Scalar)>,
    r1: Seq<(usize, Scalar)>,
    u: nat,
    h: nat,
    ni: nat,
    ka: Seq<Scalar>,
    kb: Seq<Scalar>,
    ca: Seq<Scalar>,
    cb: Seq<Scalar>,
    idx: Seq<usize>,
    dts: Seq<Scalar>,
    s0: Seq<(usize, Scalar)>,
    s1: Seq<(usize, Scalar)>,
) -> bool {
    &&& valid_sample(idx, dts, u, h)
    &&& z1 == updated_values(z0, idx, dts, h, ka, kb, ca, cb, u)
    &&& pair_models(s0) == update_entries(z0, idx, dts, h, ka, kb, ca, cb, ni, true, u)
    &&& pair_models(s1) == update_entries(z0, idx, dts, h, ka, kb, ca, cb, ni, false, u)
    &&& stably_sorted(s0, r0)
    &&& stably_sorted(s1, r1)
}

/// The positions sampled, moved from `[0, m - 1)` to `[1, m)`.
fn sampled_positions(m: usize, num_update: usize) -> (r: Vec<usize>)
    requires
        num_update < m,
    ensures
        r@.len() == num_update,
        forall|k: int| 0 <= k < num_update ==> 1 <= #[trigger] r@[k] < m,
        forall|k: int, l: int| 0 <= k < l < num_update ==> r@[k] != r@[l],
{
    let mut sample_rng = thread_rng();
    let raw = sample_indices(&mut sample_rng, m - 1, num_update);
    let mut r: Vec<usize> = Vec::with_capacity(num_update);
    let mut k: usize = 0;
    while k < raw.len()
        invariant
            k <= raw@.len(),
            raw@.len() == num_update,
            num_update < m,
            forall|q: int| 0 <= q < raw@.len() ==> #[trigger] raw@[q] < m - 1,
            forall|q: int, l: int| 0 <= q < l < raw@.len() ==> raw@[q] != raw@[l],
            r@.len() == k,
            forall|q: int| 0 <= q < k ==> #[trigger] r@[q] == raw@[q] + 1,
        decreases raw@.len() - k,
    {
        r.push(raw[k] + 1);
        k = k + 1;
    }
    proof {
        assert forall|q: int, l: int| 0 <= q < l < num_update implies r@[q] != r@[l] by {
            assert(r@[q] == raw@[q] + 1);
            assert(r@[l] == raw@[l] + 1);
        }
    }
    r
}

/// Generate update on random indices
#[verifier::rlimit(40)]
pub fn generate_update(
    num_constraint: usize,
    num_update: usize,
    num_instance: usize,
    ka: &Vec<Scalar>,
    kb: &Vec<Scalar>,
    ca: &Vec<Scalar>,
    cb: &Vec<Scalar>,
    instance: &mut Vec<Scalar>,
    witness: &mut Vec<Scalar>,
    rng: &mut StdRng,
) -> (r: (Vec<(usize, Scalar)>, Vec<(usize, Scalar)>))
    requires
        num_update < num_constraint / 2,
        old(instance)@.len() == num_instance,
        2 * (num_constraint / 2) <= old(instance)@.len() + old(witness)@.len(),
        ka@.len() >= coef_count(num_constraint as nat),
        kb@.len() >= coef_count(num_constraint as nat),
        ca@.len() >= coef_count(num_constraint as nat),
        cb@.len() >= coef_count(num_constraint as nat),
    ensures
        final(instance)@.len() == old(instance)@.len(),
        final(witness)@.len() == old(witness)@.len(),
        exists|idx: Seq<usize>, dts: Seq<Scalar>, s0: Seq<(usize, Scalar)>, s1: Seq<(usize, Scalar)>|
            #[trigger] update_outcome(
                models(old(instance)@ + old(witness)@),
                models(final(instance)@ + final(witness)@),
                r.0@,
                r.1@,
                num_update as nat,
                (num_constraint / 2) as nat,
                num_instance as nat,
                ka@,
                kb@,
                ca@,
                cb@,
                idx,
                dts,
                s0,
                s1,
            ),
        num_constraint == old(instance)@.len() + old(witness)@.len() && generated_assignment(
            old(instance)@,
            old(witness)@,
            num_instance as nat,
            old(witness)@.len(),
            ka@,
            kb@,
            ca@,
            cb@,
        ) ==> {
            &&& generated_assignment(
                final(instance)@,
                final(witness)@,
                num_instance as nat,
                old(witness)@.len(),
                ka@,
                kb@,
                ca@,
                cb@,
            )
            &&& forall|j: int|
                0 <= j < num_instance ==> (#[trigger] final(instance)@[j])@ == fadd(
                    old(instance)@[j]@,
                    key_total(pair_models(r.0@), j as usize),
                )
            &&& forall|j: int|
                0 <= j < old(witness)@.len() ==> (#[trigger] final(witness)@[j])@ == fadd(
                    old(witness)@[j]@,
                    key_total(pair_models(r.1@), (j + num_instance) as usize),
                )
        },
{
    let m = num_constraint / 2;
    let indices = sampled_positions(m, num_update);
    let mut update_instance: Vec<(usize, Scalar)> = Vec::new();
    let mut update_witness: Vec<(usize, Scalar)> = Vec::new();
    let ghost z0 = models(instance@ + witness@);
    let ghost mut dts: Seq<Scalar> = Seq::empty();
    let mut k: usize = 0;
    while k < indices.len()
        invariant
            m == num_constraint / 2,
            indices@.len() == num_update,
            forall|q: int| 0 <= q < num_update ==> 1 <= #[trigger] indices@[q] < m,
            k <= num_update,
            dts.len() == k,
            canonical_all(dts),
            instance@.len() == num_instance,
            instance@.len() + witness@.len() == old(instance)@.len() + old(witness)@.len(),
            2 * m <= instance@.len() + witness@.len(),
            ka@.len() >= coef_count(num_constraint as nat),
            kb@.len() >= coef_count(num_constraint as nat),
            ca@.len() >= coef_count(num_constraint as nat),
            cb@.len() >= coef_count(num_constraint as nat),
            z0 == models(old(instance)@ + old(witness)@),
            models(instance@ + witness@) == updated_values(z0, indices@, dts, m as nat, ka@, kb@, ca@, cb@, k as nat),
            pair_models(update_instance@) == update_entries(
                z0,
                indices@,
                dts,
                m as nat,
                ka@,
                kb@,
                ca@,
                cb@,
                num_instance as nat,
                true,
                k as nat,
            ),
            pair_models(update_witness@) == update_entries(
                z0,
                indices@,
                dts,
                m as nat,
                ka@,
                kb@,
                ca@,
                cb@,
                num_instance as nat,
                false,
                k as nat,
            ),
        decreases num_update - k,
    {
        let i = indices[k];
        let dt_z = fr_rand(rng);
        proof {
            use_type_invariant(&dt_z);
            Scalar::lemma_canonical(dt_z);
        }
        let ghost vals = models(instance@ + witness@);
        let ghost dts_prev = dts;
        proof {
            dts = dts.push(dt_z);
            assert(2 * m <= instance@.len() + witness@.len());
        }
        if i < num_instance {
            update_instance.push((i, dt_z));
        } else {
            update_witness.push((i, dt_z));
        }
        let vl = get_at(instance, witness, i);
        let prev_val = step_value(&vl, &ka[i - 1], &ca[i - 1], &kb[i - 1], &cb[i - 1]);
        let nv = fr_add(&vl, &dt_z);
        set_at(instance, witness, i, nv);
        let next_val = step_value(&nv, &ka[i - 1], &ca[i - 1], &kb[i - 1], &cb[i - 1]);
        let delta = fr_sub(&next_val, &prev_val);
        set_at(instance, witness, i + m, next_val);
        if i + m < num_instance {
            update_instance.push((i + m, delta));
        } else {
            update_witness.push((i + m, delta));
        }
        proof {
            lemma_updated_prefix(z0, indices@, dts_prev, dts, m as nat, ka@, kb@, ca@, cb@, k as nat);
            lemma_entries_prefix(z0, indices@, dts_prev, dts, m as nat, ka@, kb@, ca@, cb@, num_instance as nat, k as nat);
            assert(vals[i as int] == vl@);
            assert(models(instance@ + witness@) =~= updated_values(
                z0,
                indices@,
                dts,
                m as nat,
                ka@,
                kb@,
                ca@,
                cb@,
                (k + 1) as nat,
            ));
            assert(pair_models(update_instance@) =~= update_entries(
                z0,
                indices@,
                dts,
                m as nat,
                ka@,
                kb@,
                ca@,
                cb@,
                num_instance as nat,
                true,
                (k + 1) as nat,
            ));
            assert(pair_models(update_witness@) =~= update_entries(
                z0,
                indices@,
                dts,
                m as nat,
                ka@,
                kb@,
                ca@,
                cb@,
                num_instance as nat,
                false,
                (k + 1) as nat,
            ));
        }
        k = k + 1;
    }
    let ghost s0 = update_instance@;
    let ghost s1 = update_witness@;
    sort_by_index(&mut update_instance);
    sort_by_index(&mut update_witness);
    let res = (update_instance, update_witness);
    proof {
        assert(models(final(instance)@ + final(witness)@) == models(instance@ + witness@));
        assert(update_outcome(
            models(old(instance)@ + old(witness)@),
            models(final(instance)@ + final(witness)@),
            res.0@,
            res.1@,
            num_update as nat,
            (num_constraint / 2) as nat,
            num_instance as nat,
            ka@,
            kb@,
            ca@,
            cb@,
            indices@,
            dts,
            s0,
            s1,
        ));
        if num_constraint == old(instance)@.len() + old(witness)@.len() && generated_assignment(
            old(instance)@,
            old(witness)@,
            num_instance as nat,
            old(witness)@.len(),
            ka@,
            kb@,
            ca@,
            cb@,
        ) {
            lemma_update_law(
                old(instance)@,
                old(witness)@,
                instance@,
                witness@,
                res.0@,
                res.1@,
                num_update as nat,
                ka@,
                kb@,
                ca@,
                cb@,
                indices@,
                dts,
                s0,
                s1,
            );
        }
    }
    res
}

/// The first `k` updates depend only on the first `k` changes.
proof fn lemma_updated_prefix(
    z0: Seq<nat>,
    idx: Seq<usize>,
    d1: Seq<Scalar>,
    d2: Seq<Scalar>,
    h: nat,
    ka: Seq<Scalar>,
    kb: Seq<Scalar>,
    ca: Seq<Scalar>,
    cb: Seq<Scalar>,
    k: nat,
)
    requires
        d1.len() >= k,
        d2.len() >= k,
        forall|q: int| 0 <= q < k ==> d1[q] == d2[q],
    ensures
        updated_values(z0, idx, d1, h, ka, kb, ca, cb, k) == updated_values(z0, idx, d2, h, ka, kb, ca, cb, k),
    decreases k,
{
    if k > 0 {
        lemma_updated_prefix(z0, idx, d1, d2, h, ka, kb, ca, cb, (k - 1) as nat);
    }
}

/// The entries of the first `k` updates depend only on the first `k`
/// changes.
proof fn lemma_entries_prefix(
    z0: Seq<nat>,
    idx: Seq<usize>,
    d1: Seq<Scalar>,
    d2: Seq<Scalar>,
    h: nat,
    ka: Seq<Scalar>,
    kb: Seq<Scalar>,
    ca: Seq<Scalar>,
    cb: Seq<Scalar>,
    ni: nat,
    k: nat,
)
    requires
        d1.len() >= k,
        d2.len() >= k,
        forall|q: int| 0 <= q < k ==> d1[q] == d2[q],
    ensures
        update_entries(z0, idx, d1, h, ka, kb, ca, cb, ni, true, k) == update_entries(z0, idx, d2, h, ka, kb, ca, cb, ni, true, k),
        update_entries(z0, idx, d1, h, ka, kb, ca, cb, ni, false, k) == update_entries(z0, idx, d2, h, ka, kb, ca, cb, ni, false, k),
    decreases k,
{
    if k > 0 {
        lemma_entries_prefix(z0, idx, d1, d2, h, ka, kb, ca, cb, ni, (k - 1) as nat);
        lemma_updated_prefix(z0, idx, d1, d2, h, ka, kb, ca, cb, (k - 1) as nat);
    }
}


/// `(a + x) + y = a + (x + y)` in the field.
proof fn lemma_fadd_assoc(a: nat, x: nat, y: nat)
    ensures
        fadd(fadd(a, x), y) == fadd(a, fadd(x, y)),
{
    let p = modulus() as int;
    vstd::arithmetic::div_mod::lemma_add_mod_noop_right(y as int, (a + x) as int, p);
    vstd::arithmetic::div_mod::lemma_add_mod_noop_right(a as int, (x + y) as int, p);
    assert((((a + x) as int) % p + (y as int)) % p == ((y as int) + ((a + x) as int) % p) % p);
    assert(y + (a + x) == a + (x + y));
}

/// `a + (b - a) = b` for canonical `a`, `b`.
proof fn lemma_fadd_sub(a: nat, b: nat)
    requires
        a < modulus(),
        b < modulus(),
    ensures
        fadd(a, fsub(b, a)) == b,
{
    let p = modulus() as int;
    vstd::arithmetic::div_mod::lemma_small_mod(a, modulus());
    vstd::arithmetic::div_mod::lemma_small_mod(b, modulus());
    let t = (p - a) % p;
    vstd::arithmetic::div_mod::lemma_add_mod_noop_right(b as int, (p - a) as int, p);
    vstd::arithmetic::div_mod::lemma_add_mod_noop_right(a as int, (b + (p - a)) as int, p);
    vstd::arithmetic::div_mod::lemma_mod_add_multiples_vanish(b as int, p);
    assert(fneg(a) == t);
    assert(fsub(b, a) == (b + t) % p);
    assert((b + t) % p == (b + (p - a)) % p);
    assert(fadd(a, fsub(b, a)) == (a + (b + (p - a)) % p) % p);
    assert((a + (b + (p - a)) % p) % p == (a + (b + (p - a))) % p);
    assert(a + (b + (p - a)) == p + b);
}

/// The values of an assignment of the circuit, as field values: canonical,
/// `v_0 = 1`, `v_{i + h}` the constraint of `v_i` for `1 <= i < h`, zero
/// elsewhere outside `[1, h)`.
pub open spec fn assignment_values(v: Seq<nat>, h: nat, ka: Seq<Scalar>, kb: Seq<Scalar>, ca: Seq<Scalar>, cb: Seq<Scalar>) -> bool {
    &&& forall|j: int| 0 <= j < v.len() ==> #[trigger] v[j] < modulus()
    &&& v[0] == 1
    &&& forall|i: int|
        1 <= i < h ==> #[trigger] v[i + h] == circuit_step(v[i], ka[i - 1]@, ca[i - 1]@, kb[i - 1]@, cb[i - 1]@)
    &&& forall|j: int| 1 <= j < v.len() && !(1 <= j < h) && !(h + 1 <= j < 2 * h) ==> #[trigger] v[j] == 0
}

/// The values of an assignment of the circuit.
proof fn lemma_assignment_values(
    instance: Seq<Scalar>,
    witness: Seq<Scalar>,
    ka: Seq<Scalar>,
    kb: Seq<Scalar>,
    ca: Seq<Scalar>,
    cb: Seq<Scalar>,
)
    requires
        generated_assignment(instance, witness, instance.len(), witness.len(), ka, kb, ca, cb),
    ensures
        assignment_values(
            models(instance + witness),
            (instance.len() + witness.len()) / 2,
            ka,
            kb,
            ca,
            cb,
        ),
{
    let z = instance + witness;
    let h = (instance.len() + witness.len()) / 2;
    let v = models(z);
    assert forall|i: int| 1 <= i < h implies #[trigger] v[i + h] == circuit_step(
        v[i],
        ka[i - 1]@,
        ca[i - 1]@,
        kb[i - 1]@,
        cb[i - 1]@,
    ) by {
        assert(linked(z, i, h as int, ka, kb, ca, cb));
    }
    assert forall|j: int| 1 <= j < v.len() && !(1 <= j < h) && !(h + 1 <= j < 2 * h) implies #[trigger] v[j]
        == 0 by {
        assert(z[j]@ == 0);
    }
}

/// Values of an assignment of the circuit make an assignment.
proof fn lemma_values_assignment(
    instance: Seq<Scalar>,
    witness: Seq<Scalar>,
    ka: Seq<Scalar>,
    kb: Seq<Scalar>,
    ca: Seq<Scalar>,
    cb: Seq<Scalar>,
)
    requires
        instance.len() >= 1,
        assignment_values(
            models(instance + witness),
            (instance.len() + witness.len()) / 2,
            ka,
            kb,
            ca,
            cb,
        ),
    ensures
        generated_assignment(instance, witness, instance.len(), witness.len(), ka, kb, ca, cb),
{
    let z = instance + witness;
    let h = (instance.len() + witness.len()) / 2;
    let v = models(z);
    assert forall|i: int| 0 <= i < z.len() implies (#[trigger] z[i])@ < modulus() by {
        assert(v[i] == z[i]@);
    }
    assert(v[0] == z[0]@);
    assert forall|i: int| 1 <= i < h implies #[trigger] linked(z, i, h as int, ka, kb, ca, cb) by {
        assert(v[i + h] == z[i + h]@);
        assert(v[i] == z[i]@);
    }
    assert forall|j: int| 1 <= j < z.len() && !(1 <= j < h) && !(h + 1 <= j < 2 * h) implies (#[trigger] z[j])@
        == 0 by {
        assert(v[j] == z[j]@);
    }
}

/// The total of index `j` after one more entry.
proof fn lemma_key_total_push(s: Seq<(usize, nat)>, e: (usize, nat), j: usize)
    ensures
        key_total(s.push(e), j) == if e.0 == j {
            fadd(key_total(s, j), e.1)
        } else {
            key_total(s, j)
        },
{
    assert(s.push(e).drop_last() =~= s);
}

/// One update of position `i` in `[1, h)` to `nv`, with `v_{i + h}` its
/// constraint, keeps the values those of an assignment of the circuit.
proof fn lemma_step_values(
    cur: Seq<nat>,
    v: Seq<nat>,
    i: int,
    nv: nat,
    h: nat,
    ka: Seq<Scalar>,
    kb: Seq<Scalar>,
    ca: Seq<Scalar>,
    cb: Seq<Scalar>,
)
    requires
        assignment_values(cur, h, ka, kb, ca, cb),
        1 <= i < h,
        2 * h <= cur.len(),
        nv < modulus(),
        v == cur.update(i, nv).update(i + h, circuit_step(nv, ka[i - 1]@, ca[i - 1]@, kb[i - 1]@, cb[i - 1]@)),
    ensures
        assignment_values(v, h, ka, kb, ca, cb),
{
    let f_new = circuit_step(nv, ka[i - 1]@, ca[i - 1]@, kb[i - 1]@, cb[i - 1]@);
    assert(f_new < modulus()) by {
        reveal(circuit_step);
    }
    assert forall|j: int| 0 <= j < v.len() implies #[trigger] v[j] < modulus() by {
        assert(cur[j] < modulus());
    }
    assert forall|i2: int| 1 <= i2 < h implies #[trigger] v[i2 + h] == circuit_step(
        v[i2],
        ka[i2 - 1]@,
        ca[i2 - 1]@,
        kb[i2 - 1]@,
        cb[i2 - 1]@,
    ) by {
        assert(cur[i2 + h] == circuit_step(cur[i2], ka[i2 - 1]@, ca[i2 - 1]@, kb[i2 - 1]@, cb[i2 - 1]@));
    }
    assert forall|j: int| 1 <= j < v.len() && !(1 <= j < h) && !(h + 1 <= j < 2 * h) implies #[trigger] v[j]
        == 0 by {
        assert(cur[j] == 0);
    }
}

/// Updates of positions in `[1, h)` keep the values those of an assignment
/// of the circuit, and the values at each position are its first values
/// plus the changes recorded for it on its side.
#[verifier::spinoff_prover]
#[verifier::rlimit(40)]
proof fn lemma_updates_add_up(
    z0: Seq<nat>,
    idx: Seq<usize>,
    dts: Seq<Scalar>,
    h: nat,
    ka: Seq<Scalar>,
    kb: Seq<Scalar>,
    ca: Seq<Scalar>,
    cb: Seq<Scalar>,
    ni: nat,
    k: nat,
)
    requires
        assignment_values(z0, h, ka, kb, ca, cb),
        2 * h <= z0.len(),
        z0.len() <= usize::MAX,
        idx.len() >= k,
        dts.len() >= k,
        canonical_all(dts),
        forall|q: int| 0 <= q < k ==> 1 <= #[trigger] idx[q] < h,
    ensures
        updated_values(z0, idx, dts, h, ka, kb, ca, cb, k).len() == z0.len(),
        assignment_values(updated_values(z0, idx, dts, h, ka, kb, ca, cb, k), h, ka, kb, ca, cb),
        forall|j: int|
            0 <= j < z0.len() ==> #[trigger] updated_values(z0, idx, dts, h, ka, kb, ca, cb, k)[j] == fadd(
                z0[j],
                key_total(update_entries(z0, idx, dts, h, ka, kb, ca, cb, ni, j < ni, k), j as usize),
            ),
    decreases k,
{
    if k == 0 {
        assert forall|j: int| 0 <= j < z0.len() implies #[trigger] updated_values(z0, idx, dts, h, ka, kb, ca, cb, 0)[j]
            == fadd(z0[j], key_total(update_entries(z0, idx, dts, h, ka, kb, ca, cb, ni, j < ni, 0), j as usize)) by {
            lemma_field_units(z0[j]);
        }
    } else {
        let km = (k - 1) as nat;
        lemma_updates_add_up(z0, idx, dts, h, ka, kb, ca, cb, ni, km);
        let cur = updated_values(z0, idx, dts, h, ka, kb, ca, cb, km);
        let v = updated_values(z0, idx, dts, h, ka, kb, ca, cb, k);
        let i = idx[km as int] as int;
        assert(1 <= i < h);
        let dt = dts[km as int]@;
        let nv = fadd(cur[i], dt);
        let f_old = circuit_step(cur[i], ka[i - 1]@, ca[i - 1]@, kb[i - 1]@, cb[i - 1]@);
        let f_new = circuit_step(nv, ka[i - 1]@, ca[i - 1]@, kb[i - 1]@, cb[i - 1]@);
        let delta = fsub(f_new, f_old);
        assert(v == cur.update(i, nv).update(i + h, f_new));
        lemma_step_values(cur, v, i, nv, h, ka, kb, ca, cb);
        assert(cur[i + h] == f_old);
        assert(cur[i] < modulus());
        assert(f_old < modulus() && f_new < modulus()) by {
            reveal(circuit_step);
        }
        lemma_fadd_sub(f_old, f_new);
        assert forall|j: int| 0 <= j < z0.len() implies #[trigger] v[j] == fadd(
            z0[j],
            key_total(update_entries(z0, idx, dts, h, ka, kb, ca, cb, ni, j < ni, k), j as usize),
        ) by {
            lemma_step_total(z0, idx, dts, h, ka, kb, ca, cb, ni, k, j);
        }
    }
}


/// The total of position `j` after the `k`-th update, from the totals
/// before it.
#[verifier::spinoff_prover]
proof fn lemma_step_total(
    z0: Seq<nat>,
    idx: Seq<usize>,
    dts: Seq<Scalar>,
    h: nat,
    ka: Seq<Scalar>,
    kb: Seq<Scalar>,
    ca: Seq<Scalar>,
    cb: Seq<Scalar>,
    ni: nat,
    k: nat,
    j: int,
)
    requires
        k >= 1,
        0 <= j < z0.len(),
        z0.len() <= usize::MAX,
        2 * h <= z0.len(),
        1 <= idx[k - 1] < h,
        ({
            let cur = updated_values(z0, idx, dts, h, ka, kb, ca, cb, (k - 1) as nat);
            let i = idx[k - 1] as int;
            &&& cur.len() == z0.len()
            &&& cur[j] == fadd(
                z0[j],
                key_total(update_entries(z0, idx, dts, h, ka, kb, ca, cb, ni, j < ni, (k - 1) as nat), j as usize),
            )
            &&& cur[i + h] == circuit_step(cur[i], ka[i - 1]@, ca[i - 1]@, kb[i - 1]@, cb[i - 1]@)
            &&& cur[i] < modulus()
        }),
    ensures
        updated_values(z0, idx, dts, h, ka, kb, ca, cb, k)[j] == fadd(
            z0[j],
            key_total(update_entries(z0, idx, dts, h, ka, kb, ca, cb, ni, j < ni, k), j as usize),
        ),
{
    let km = (k - 1) as nat;
    let cur = updated_values(z0, idx, dts, h, ka, kb, ca, cb, km);
    let v = updated_values(z0, idx, dts, h, ka, kb, ca, cb, k);
    let i = idx[km as int] as int;
    let dt = dts[km as int]@;
    let nv = fadd(cur[i], dt);
    let f_old = circuit_step(cur[i], ka[i - 1]@, ca[i - 1]@, kb[i - 1]@, cb[i - 1]@);
    let f_new = circuit_step(nv, ka[i - 1]@, ca[i - 1]@, kb[i - 1]@, cb[i - 1]@);
    let delta = fsub(f_new, f_old);
    assert(v == cur.update(i, nv).update(i + h, f_new));
    assert(f_old < modulus() && f_new < modulus()) by {
        reveal(circuit_step);
    }
    lemma_fadd_sub(f_old, f_new);
    let side = j < ni;
    let prev = update_entries(z0, idx, dts, h, ka, kb, ca, cb, ni, side, km);
    let t0 = key_total(prev, j as usize);
    let e1 = (i as usize, dt);
    let e2 = ((i + h) as usize, delta);
    let p1 = if (i < ni) == side {
        prev.push(e1)
    } else {
        prev
    };
    lemma_key_total_push(prev, e1, j as usize);
    lemma_key_total_push(p1, e2, j as usize);
    assert(update_entries(z0, idx, dts, h, ka, kb, ca, cb, ni, side, k) == if (i + h < ni) == side {
        p1.push(e2)
    } else {
        p1
    });
    if j == i {
        lemma_fadd_assoc(z0[j], t0, dt);
    } else if j == i + h {
        lemma_fadd_assoc(z0[j], t0, delta);
    } else {
        assert((j as usize) != (i as usize));
        assert((j as usize) != ((i + h) as usize));
    }
}


/// Random updates keep an assignment of the circuit one, and the changes
/// they record add up to the change of the assignment: each position of the
/// instance moves by the total of its entries in `r0`, each position of the
/// witness by the total of its entries in `r1`.
proof fn lemma_update_law(
    instance0: Seq<Scalar>,
    witness0: Seq<Scalar>,
    instance1: Seq<Scalar>,
    witness1: Seq<Scalar>,
    r0: Seq<(usize, Scalar)>,
    r1: Seq<(usize, Scalar)>,
    u: nat,
    ka: Seq<Scalar>,
    kb: Seq<Scalar>,
    ca: Seq<Scalar>,
    cb: Seq<Scalar>,
    idx: Seq<usize>,
    dts: Seq<Scalar>,
    s0: Seq<(usize, Scalar)>,
    s1: Seq<(usize, Scalar)>,
)
    requires
        generated_assignment(instance0, witness0, instance0.len(), witness0.len(), ka, kb, ca, cb),
        instance0.len() + witness0.len() <= usize::MAX,
        instance1.len() == instance0.len(),
        witness1.len() == witness0.len(),
        update_outcome(
            models(instance0 + witness0),
            models(instance1 + witness1),
            r0,
            r1,
            u,
            (instance0.len() + witness0.len()) / 2,
            instance0.len(),
            ka,
            kb,
            ca,
            cb,
            idx,
            dts,
            s0,
            s1,
        ),
    ensures
        generated_assignment(instance1, witness1, instance0.len(), witness0.len(), ka, kb, ca, cb),
        forall|j: int|
            0 <= j < instance0.len() ==> (#[trigger] instance1[j])@ == fadd(
                instance0[j]@,
                key_total(pair_models(r0), j as usize),
            ),
        forall|j: int|
            0 <= j < witness0.len() ==> (#[trigger] witness1[j])@ == fadd(
                witness0[j]@,
                key_total(pair_models(r1), (j + instance0.len()) as usize),
            ),
{
    let ni = instance0.len();
    let h = (instance0.len() + witness0.len()) / 2;
    let z0 = models(instance0 + witness0);
    let z1 = models(instance1 + witness1);
    lemma_assignment_values(instance0, witness0, ka, kb, ca, cb);
    lemma_updates_add_up(z0, idx, dts, h, ka, kb, ca, cb, ni, u);
    lemma_values_assignment(instance1, witness1, ka, kb, ca, cb);
    crate::utils::lemma_sort_keeps_totals(s0, r0);
    crate::utils::lemma_sort_keeps_totals(s1, r1);
    assert forall|j: int| 0 <= j < ni implies (#[trigger] instance1[j])@ == fadd(
        instance0[j]@,
        key_total(pair_models(r0), j as usize),
    ) by {
        assert(z1[j] == instance1[j]@);
        assert(z0[j] == instance0[j]@);
        assert(key_total(pair_models(r0), j as usize) == key_total(pair_models(s0), j as usize));
    }
    assert forall|j: int| 0 <= j < witness0.len() implies (#[trigger] witness1[j])@ == fadd(
        witness0[j]@,
        key_total(pair_models(r1), (j + ni) as usize),
    ) by {
        assert(z1[j + ni] == witness1[j]@);
        assert(z0[j + ni] == witness0[j]@);
        assert(key_total(pair_models(r1), (j + ni) as usize) == key_total(pair_models(s1), (j + ni) as usize));
    }
}


/// A position in `[1, h)` that no update touched keeps its value.
proof fn lemma_untouched(
    z0: Seq<nat>,
    idx: Seq<usize>,
    dts: Seq<Scalar>,
    h: nat,
    ka: Seq<Scalar>,
    kb: Seq<Scalar>,
    ca: Seq<Scalar>,
    cb: Seq<Scalar>,
    k: nat,
    i: int,
)
    requires
        1 <= i < h,
        2 * h <= z0.len(),
        idx.len() >= k,
        forall|q: int| 0 <= q < k ==> 1 <= #[trigger] idx[q] < h,
        forall|q: int| 0 <= q < k ==> #[trigger] idx[q] != i,
    ensures
        updated_values(z0, idx, dts, h, ka, kb, ca, cb, k).len() == z0.len(),
        updated_values(z0, idx, dts, h, ka, kb, ca, cb, k)[i] == z0[i],
    decreases k,
{
    if k > 0 {
        lemma_untouched(z0, idx, dts, h, ka, kb, ca, cb, (k - 1) as nat, i);
        assert(idx[k - 1] != i);
        assert(1 <= idx[k - 1] < h);
    }
}

/// The outcome of `u` random changes of the assignment `z0`, for the
/// sample `idx`, `dts`, recorded without applying them: `r0`, `r1` are the
/// changes on the instance and on the witness, `s0`, `s1`, sorted by index.
pub open spec fn once_outcome(
    z0: Seq<nat>,
    r0: Seq<(usize, Scalar)>,
    r1: Seq<(usize, Scalar)>,
    u: nat,
    h: nat,
    ni: nat,
    ka: Seq<Scalar>,
    kb: Seq<Scalar>,
    ca: Seq<Scalar>,
    cb: Seq<Scalar>,
    idx: Seq<usize>,
    dts: Seq<Scalar>,
    s0: Seq<(usize, Scalar)>,
    s1: Seq<(usize, Scalar)>,
) -> bool {
    &&& valid_sample(idx, dts, u, h)
    &&& pair_models(s0) == update_entries(z0, idx, dts, h, ka, kb, ca, cb, ni, true, u)
    &&& pair_models(s1) == update_entries(z0, idx, dts, h, ka, kb, ca, cb, ni, false, u)
    &&& stably_sorted(s0, r0)
    &&& stably_sorted(s1, r1)
}

/// Generate update only once, no further updates
#[verifier::rlimit(40)]
pub fn generate_update_once(
    num_constraint: usize,
    num_update: usize,
    num_instance: usize,
    ka: &Vec<Scalar>,
    kb: &Vec<Scalar>,
    ca: &Vec<Scalar>,
    cb: &Vec<Scalar>,
    instance: &Vec<Scalar>,
    witness: &Vec<Scalar>,
    rng: &mut StdRng,
) -> (r: (Vec<(usize, Scalar)>, Vec<(usize, Scalar)>))
    requires
        num_update < num_constraint / 2,
        instance@.len() == num_instance,
        2 * (num_constraint / 2) <= instance@.len() + witness@.len(),
        ka@.len() >= coef_count(num_constraint as nat),
        kb@.len() >= coef_count(num_constraint as nat),
        ca@.len() >= coef_count(num_constraint as nat),
        cb@.len() >= coef_count(num_constraint as nat),
    ensures
        exists|idx: Seq<usize>, dts: Seq<Scalar>, s0: Seq<(usize, Scalar)>, s1: Seq<(usize, Scalar)>|
            #[trigger] once_outcome(
                models(instance@ + witness@),
                r.0@,
                r.1@,
                num_update as nat,
                (num_constraint / 2) as nat,
                num_instance as nat,
                ka@,
                kb@,
                ca@,
                cb@,
                idx,
                dts,
                s0,
                s1,
            ),
{
    let m = num_constraint / 2;
    let indices = sampled_positions(m, num_update);
    let mut update_instance: Vec<(usize, Scalar)> = Vec::new();
    let mut update_witness: Vec<(usize, Scalar)> = Vec::new();
    let ghost z0 = models(instance@ + witness@);
    let ghost mut dts: Seq<Scalar> = Seq::empty();
    let mut k: usize = 0;
    while k < indices.len()
        invariant
            m == num_constraint / 2,
            indices@.len() == num_update,
            forall|q: int| 0 <= q < num_update ==> 1 <= #[trigger] indices@[q] < m,
            forall|q: int, l: int| 0 <= q < l < num_update ==> indices@[q] != indices@[l],
            k <= num_update,
            dts.len() == k,
            canonical_all(dts),
            instance@.len() == num_instance,
            2 * m <= instance@.len() + witness@.len(),
            ka@.len() >= coef_count(num_constraint as nat),
            kb@.len() >= coef_count(num_constraint as nat),
            ca@.len() >= coef_count(num_constraint as nat),
            cb@.len() >= coef_count(num_constraint as nat),
            z0 == models(instance@ + witness@),
            pair_models(update_instance@) == update_entries(
                z0,
                indices@,
                dts,
                m as nat,
                ka@,
                kb@,
                ca@,
                cb@,
                num_instance as nat,
                true,
                k as nat,
            ),
            pair_models(update_witness@) == update_entries(
                z0,
                indices@,
                dts,
                m as nat,
                ka@,
                kb@,
                ca@,
                cb@,
                num_instance as nat,
                false,
                k as nat,
            ),
        decreases num_update - k,
    {
        let i = indices[k];
        let dt_z = fr_rand(rng);
        proof {
            use_type_invariant(&dt_z);
            Scalar::lemma_canonical(dt_z);
        }
        let ghost dts_prev = dts;
        proof {
            dts = dts.push(dt_z);
            assert(2 * m <= instance@.len() + witness@.len());
        }
        if i < num_instance {
            update_instance.push((i, dt_z));
        } else {
            update_witness.push((i, dt_z));
        }
        let vl = get_at(instance, witness, i);
        let prev_val = step_value(&vl, &ka[i - 1], &ca[i - 1], &kb[i - 1], &cb[i - 1]);
        let nv = fr_add(&vl, &dt_z);
        let next_val = step_value(&nv, &ka[i - 1], &ca[i - 1], &kb[i - 1], &cb[i - 1]);
        let delta = fr_sub(&next_val, &prev_val);
        if i + m < num_instance {
            update_instance.push((i + m, delta));
        } else {
            update_witness.push((i + m, delta));
        }
        proof {
            lemma_updated_prefix(z0, indices@, dts_prev, dts, m as nat, ka@, kb@, ca@, cb@, k as nat);
            lemma_entries_prefix(z0, indices@, dts_prev, dts, m as nat, ka@, kb@, ca@, cb@, num_instance as nat, k as nat);
            assert forall|q: int| 0 <= q < k implies #[trigger] indices@[q] != i by {
                assert(indices@[q] != indices@[k as int]);
            }
            lemma_untouched(z0, indices@, dts, m as nat, ka@, kb@, ca@, cb@, k as nat, i as int);
            assert(z0[i as int] == vl@);
            assert(pair_models(update_instance@) =~= update_entries(
                z0,
                indices@,
                dts,
                m as nat,
                ka@,
                kb@,
                ca@,
                cb@,
                num_instance as nat,
                true,
                (k + 1) as nat,
            ));
            assert(pair_models(update_witness@) =~= update_entries(
                z0,
                indices@,
                dts,
                m as nat,
                ka@,
                kb@,
                ca@,
                cb@,
                num_instance as nat,
                false,
                (k + 1) as nat,
            ));
        }
        k = k + 1;
    }
    let ghost s0 = update_instance@;
    let ghost s1 = update_witness@;
    sort_by_index(&mut update_instance);
    sort_by_index(&mut update_witness);
    let res = (update_instance, update_witness);
    proof {
        assert(once_outcome(
            models(instance@ + witness@),
            res.0@,
            res.1@,
            num_update as nat,
            (num_constraint / 2) as nat,
            num_instance as nat,
            ka@,
            kb@,
            ca@,
            cb@,
            indices@,
            dts,
            s0,
            s1,
        ));
    }
    res
}

} // verus!
