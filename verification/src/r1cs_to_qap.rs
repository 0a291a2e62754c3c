//! The reduction of an R1CS instance to a quadratic arithmetic program: the
//! evaluations of the constraint rows and the quotient polynomial `h`.
use vstd::prelude::*;
use crate::domain::{coset_transform, resized, GeneralEvaluationDomain};
use crate::field::{fmul, fpow, fsub, finv, Scalar, fr_generator, fr_inverse, fr_mul, fr_pow, fr_sub};
use crate::group::{GroupElem, models};
use crate::relations::{ConstraintMatrices, ConstraintSystemRef, Matrix, SynthesisError};
use crate::utils::{inner_product_sparse_f_dense_f, row_eval, row_in_range};
use crate::fft_handler::{conv_size, lemma_next_pow2_unique};

verus! {

/// compute the inner product of the row of R1CS matrices "terms" with the z
/// "assignment" Computes the inner product of `terms` with `assignment`.
pub fn evaluate_constraint(terms: &[(Scalar, usize)], assignment: &[Scalar]) -> (r: Scalar)
    requires
        row_in_range(terms@, assignment@.len()),
    ensures
        r@ == row_eval(terms@, assignment@),
{
    serial_evaluate_constraint(terms, assignment)
}

fn serial_evaluate_constraint(terms: &[(Scalar, usize)], assignment: &[Scalar]) -> (r: Scalar)
    requires
        row_in_range(terms@, assignment@.len()),
    ensures
        r@ == row_eval(terms@, assignment@),
{
    inner_product_sparse_f_dense_f(terms, assignment)
}

/// Every row of the matrix reads only variables below `n`.
pub open spec fn matrix_in_range(m: Seq<Vec<(Scalar, usize)>>, n: nat) -> bool {
    forall|i: int| 0 <= i < m.len() ==> row_in_range((#[trigger] m[i])@, n)
}

/// The evaluations of the first `k` rows (as many as there are) on `z`,
/// padded with zeros to length `n`.
pub open spec fn row_evals(m: Seq<Vec<(Scalar, usize)>>, z: Seq<Scalar>, k: nat, n: nat) -> Seq<nat> {
    Seq::new(n, |i: int| if i < k && i < m.len() { row_eval(m[i]@, z) } else { 0 })
}

/// The evaluations, on the coset `7 * H` of the subgroup `H` of order `n`,
/// of the polynomial that interpolates `v` on `H`.
pub open spec fn coset_evals(v: Seq<nat>, n: nat) -> Seq<nat> {
    coset_transform(Scalar::m_transform(resized(v, n, 0nat), true), 7, false)
}

/// The coefficients of `h = (A * B - C) / Z_H` where `A`, `B`, `C`
/// interpolate `a`, `b`, `c` on the subgroup `H` of order `n`, computed
/// through their evaluations on the coset `7 * H`.
pub open spec fn quotient_spec(n: nat, a: Seq<nat>, b: Seq<nat>, c: Seq<nat>) -> Seq<nat> {
    let ea = coset_evals(a, n);
    let eb = coset_evals(b, n);
    let ec = coset_evals(c, n);
    let vinv = finv(fsub(fpow(7, n), 1));
    coset_transform(Seq::new(n, |i: int| fmul(fsub(fmul(ea[i], eb[i]), ec[i]), vinv)), 7, true)
}

/// Whether the vanishing polynomial of the subgroup of order `n` is nonzero
/// on the coset `7 * H`.
pub open spec fn coset_ok(n: nat) -> bool {
    fsub(fpow(7, n), 1) != 0
}

/// The evaluations of rows `[0, k)` of `m` on `z`, padded with zeros to `n`.
pub(crate) fn eval_rows(m: &Matrix, z: &[Scalar], k: usize, n: usize) -> (r: Vec<Scalar>)
    requires
        k <= n,
        matrix_in_range(m@, z@.len()),
    ensures
        models(r@) == row_evals(m@, z@, k as nat, n as nat),
{
    let mut r: Vec<Scalar> = Vec::with_capacity(n);
    let mut i: usize = 0;
    while i < n
        invariant
            i <= n,
            k <= n,
            matrix_in_range(m@, z@.len()),
            r@.len() == i,
            forall|j: int| 0 <= j < i ==> (#[trigger] r@[j])@ == row_evals(m@, z@, k as nat, n as nat)[j],
        decreases n - i,
    {
        if i < k && i < m.len() {
            r.push(evaluate_constraint(m[i].as_slice(), z));
        } else {
            r.push(Scalar::zero());
        }
        i = i + 1;
    }
    proof {
        assert(models(r@) =~= row_evals(m@, z@, k as nat, n as nat));
    }
    r
}

/// The assignment `instance ++ witness`.
pub(crate) fn concat_assignment(a: &[Scalar], b: &[Scalar]) -> (r: Vec<Scalar>)
    requires
        a@.len() + b@.len() <= usize::MAX,
    ensures
        r@ == a@ + b@,
{
    let mut r: Vec<Scalar> = Vec::with_capacity(a.len() + b.len());
    let mut i: usize = 0;
    while i < a.len()
        invariant
            i <= a@.len(),
            r@ == a@.take(i as int),
        decreases a@.len() - i,
    {
        r.push(a[i]);
        i = i + 1;
        proof {
            assert(r@ =~= a@.take(i as int));
        }
    }
    let mut j: usize = 0;
    while j < b.len()
        invariant
            j <= b@.len(),
            i == a@.len(),
            r@ == a@ + b@.take(j as int),
        decreases b@.len() - j,
    {
        r.push(b[j]);
        j = j + 1;
        proof {
            assert(r@ =~= a@ + b@.take(j as int));
        }
    }
    proof {
        assert(a@.take(a@.len() as int) =~= a@);
        assert(b@.take(b@.len() as int) =~= b@);
    }
    r
}

/// The constraint system is ready for the reduction: its matrices read only
/// assigned variables and `C` has a row per constraint.
pub open spec fn cs_ok(cs: ConstraintSystemRef) -> bool {
    let n = cs.instance_assignment@.len() + cs.witness_assignment@.len();
    &&& n <= usize::MAX
    &&& matrix_in_range(cs.matrices.a@, n)
    &&& matrix_in_range(cs.matrices.b@, n)
    &&& matrix_in_range(cs.matrices.c@, n)
}

/// The matrices read only variables below `n`.
pub open spec fn matrices_in_range(m: ConstraintMatrices, n: nat) -> bool {
    &&& matrix_in_range(m.a@, n)
    &&& matrix_in_range(m.b@, n)
    &&& matrix_in_range(m.c@, n)
}

/// Computes instance and witness reductions from R1CS to
/// Quadratic Arithmetic Programs (QAPs).
pub trait R1CSToQAP {
    /// What the reduction returns for `matrices` and `instance_witness` with
    /// `num_instance_variables` public inputs and `num_constraints`
    /// constraints.
    spec fn quotient_result(
        matrices: ConstraintMatrices,
        num_instance_variables: nat,
        num_constraints: nat,
        instance_witness: Seq<Scalar>,
        r: Result<Vec<Scalar>, SynthesisError>,
    ) -> bool;

    /// Computes a QAP witness corresponding to the R1CS witness defined by
    /// `cs`.
    fn compute_quotient_from_matrices(
        matrices: &ConstraintMatrices,
        num_instance_variables: usize,
        num_constraints: usize,
        instance_witness: &[Scalar],
    ) -> (r: Result<Vec<Scalar>, SynthesisError>)
        requires
            matrices_in_range(*matrices, instance_witness@.len()),
            num_constraints <= matrices.c@.len(),
        ensures
            Self::quotient_result(
                *matrices,
                num_instance_variables as nat,
                num_constraints as nat,
                instance_witness@,
                r,
            ),
    ;

    /// The coefficients of the quotient `(A * B - C) / Z` of the polynomials
    /// that interpolate `a`, `b`, `c` on the subgroup of `domain`, or the
    /// error `UnexpectedIdentity` when `Z` vanishes on the coset.
    fn compute_quotient(
        domain: &GeneralEvaluationDomain,
        a: Vec<Scalar>,
        b: Vec<Scalar>,
        c: Vec<Scalar>,
    ) -> (r: Result<Vec<Scalar>, SynthesisError>)
        ensures
            r is Err <==> !coset_ok(domain.spec_size()),
            r matches Err(e) ==> e == SynthesisError::UnexpectedIdentity,
            r matches Ok(h) ==> models(h@) == quotient_spec(domain.spec_size(), models(a@), models(b@), models(c@)),
    {
        quotient_of(domain, a, b, c)
    }

    /// The subgroup for the constraints of `cs_ref` and the evaluations of
    /// its rows of `A`, `B`, `C` on its assignment, padded to the order of the
    /// subgroup.
    fn lagrange_form_from_cs(cs_ref: &ConstraintSystemRef) -> (r: Result<
        (GeneralEvaluationDomain, Vec<Scalar>, Vec<Scalar>, Vec<Scalar>),
        SynthesisError,
    >)
        requires
            cs_ok(*cs_ref),
        ensures
            r is Err <==> !(cs_ref.num_constraints <= 0x1_0000_0000 && cs_ref.num_constraints <= usize::MAX / 2 + 1),
            r matches Err(e) ==> e == SynthesisError::PolynomialDegreeTooLarge,
            r matches Ok(t) ==> ({
                let z = cs_ref.instance_assignment@ + cs_ref.witness_assignment@;
                let k = cs_ref.num_constraints as nat;
                let n = t.0.spec_size();
                &&& crate::domain::is_next_pow2(n, k)
                &&& models(t.1@) == row_evals(cs_ref.matrices.a@, z, k, n)
                &&& models(t.2@) == row_evals(cs_ref.matrices.b@, z, k, n)
                &&& models(t.3@) == row_evals(cs_ref.matrices.c@, z, k, n)
            }),
    {
        lagrange_form(cs_ref)
    }

    /// Reduces the constraint system and drops the result.
    fn preprocessing(cs_ref: &ConstraintSystemRef)
        requires
            cs_ok(*cs_ref),
            cs_ref.num_constraints <= 0x1_0000_0000,
            cs_ref.num_constraints <= usize::MAX / 2 + 1,
    {
        let r = lagrange_form(cs_ref);
    }

    /// Computes a QAP witness corresponding to the R1CS witness defined by
    /// `cs`.
    fn compute_quotient_optimized(prover: &ConstraintSystemRef) -> (r: Result<Vec<Scalar>, SynthesisError>)
        requires
            cs_ok(*prover),
            prover.num_constraints <= prover.matrices.c@.len(),
        ensures
            rows_quotient_result(
                prover.matrices,
                prover.instance_assignment@ + prover.witness_assignment@,
                prover.num_constraints as nat,
                r,
            ),
    {
        let z = concat_assignment(prover.instance_assignment.as_slice(), prover.witness_assignment.as_slice());
        quotient_from_rows(&prover.matrices, prover.num_constraints, z.as_slice())
    }

    /// Computes a QAP witness corresponding to the R1CS witness defined by
    /// `cs`.
    fn compute_quotient_arkwork(prover: &ConstraintSystemRef) -> (r: Result<Vec<Scalar>, SynthesisError>)
        requires
            cs_ok(*prover),
            prover.num_constraints <= prover.matrices.c@.len(),
        ensures
            Self::quotient_result(
                prover.matrices,
                prover.num_instance_variables as nat,
                prover.num_constraints as nat,
                prover.instance_assignment@ + prover.witness_assignment@,
                r,
            ),
    {
        let z = concat_assignment(prover.instance_assignment.as_slice(), prover.witness_assignment.as_slice());
        Self::compute_quotient_from_matrices(
            &prover.matrices,
            prover.num_instance_variables,
            prover.num_constraints,
            z.as_slice(),
        )
    }
}

/// The result of the reduction of the rows of `m` on `z` for `k`
/// constraints: `PolynomialDegreeTooLarge` when no subgroup holds `k`
/// points, `UnexpectedIdentity` when its vanishing polynomial is zero on
/// the coset `7 * H`, else the quotient.
pub open spec fn rows_quotient_result(m: ConstraintMatrices, z: Seq<Scalar>, k: nat, r: Result<Vec<Scalar>, SynthesisError>) -> bool {
    let n = conv_size(k);
    let sized = k <= 0x1_0000_0000 && k <= usize::MAX / 2 + 1;
    match r {
        Ok(h) => sized && coset_ok(n) && models(h@) == quotient_spec(
            n,
            row_evals(m.a@, z, k, n),
            row_evals(m.b@, z, k, n),
            row_evals(m.c@, z, k, n),
        ),
        Err(e) => if !sized {
            e == SynthesisError::PolynomialDegreeTooLarge
        } else {
            !coset_ok(n) && e == SynthesisError::UnexpectedIdentity
        },
    }
}

/// The row evaluations of a constraint system, over its subgroup.
fn lagrange_form(cs_ref: &ConstraintSystemRef) -> (r: Result<
    (GeneralEvaluationDomain, Vec<Scalar>, Vec<Scalar>, Vec<Scalar>),
    SynthesisError,
>)
    requires
        cs_ok(*cs_ref),
    ensures
        r is Err <==> !(cs_ref.num_constraints <= 0x1_0000_0000 && cs_ref.num_constraints <= usize::MAX / 2 + 1),
        r matches Err(e) ==> e == SynthesisError::PolynomialDegreeTooLarge,
        r matches Ok(t) ==> ({
            let z = cs_ref.instance_assignment@ + cs_ref.witness_assignment@;
            let k = cs_ref.num_constraints as nat;
            let n = t.0.spec_size();
            &&& crate::domain::is_next_pow2(n, k)
            &&& models(t.1@) == row_evals(cs_ref.matrices.a@, z, k, n)
            &&& models(t.2@) == row_evals(cs_ref.matrices.b@, z, k, n)
            &&& models(t.3@) == row_evals(cs_ref.matrices.c@, z, k, n)
        }),
{
    let z = concat_assignment(cs_ref.instance_assignment.as_slice(), cs_ref.witness_assignment.as_slice());
    let num_constraints = cs_ref.num_constraints;
    let domain = match GeneralEvaluationDomain::new(num_constraints) {
        Some(d) => d,
        None => {
            return Err(SynthesisError::PolynomialDegreeTooLarge);
        },
    };
    let domain_size = domain.size();
    let a = eval_rows(&cs_ref.matrices.a, z.as_slice(), num_constraints, domain_size);
    let b = eval_rows(&cs_ref.matrices.b, z.as_slice(), num_constraints, domain_size);
    let c = eval_rows(&cs_ref.matrices.c, z.as_slice(), num_constraints, domain_size);
    Ok((domain, a, b, c))
}

/// The quotient of the rows of the matrices on `instance_witness`, over the
/// subgroup for `num_constraints` constraints.
fn quotient_from_rows(matrices: &ConstraintMatrices, num_constraints: usize, instance_witness: &[Scalar]) -> (r: Result<
    Vec<Scalar>,
    SynthesisError,
>)
    requires
        matrices_in_range(*matrices, instance_witness@.len()),
    ensures
        rows_quotient_result(*matrices, instance_witness@, num_constraints as nat, r),
{
    let domain = match GeneralEvaluationDomain::new(num_constraints) {
        Some(d) => d,
        None => {
            return Err(SynthesisError::PolynomialDegreeTooLarge);
        },
    };
    proof {
        lemma_next_pow2_unique(domain.spec_size(), num_constraints as nat);
    }
    let domain_size = domain.size();
    let a = eval_rows(&matrices.a, instance_witness, num_constraints, domain_size);
    let b = eval_rows(&matrices.b, instance_witness, num_constraints, domain_size);
    let c = eval_rows(&matrices.c, instance_witness, num_constraints, domain_size);
    quotient_of(&domain, a, b, c)
}

/// The quotient through the coset `7 * H`.
fn quotient_of(domain: &GeneralEvaluationDomain, a: Vec<Scalar>, b: Vec<Scalar>, c: Vec<Scalar>) -> (r: Result<
    Vec<Scalar>,
    SynthesisError,
>)
    ensures
        r is Err <==> !coset_ok(domain.spec_size()),
        r matches Err(e) ==> e == SynthesisError::UnexpectedIdentity,
        r matches Ok(h) ==> models(h@) == quotient_spec(domain.spec_size(), models(a@), models(b@), models(c@)),
{
    let ghost n = domain.spec_size();
    let mut a = a;
    let mut b = b;
    let mut c = c;
    let ghost a0 = models(a@);
    let ghost b0 = models(b@);
    let ghost c0 = models(c@);
    let g = fr_generator();
    domain.ifft_in_place(&mut a);
    domain.ifft_in_place(&mut b);
    proof {
        assert(resized(models(a@), n, 0nat) =~= models(a@));
        assert(resized(models(b@), n, 0nat) =~= models(b@));
    }
    domain.coset_fft_in_place(&mut a, &g);
    domain.coset_fft_in_place(&mut b, &g);
    proof {
        assert(models(a@).len() == a@.len());
        assert(models(b@).len() == b@.len());
    }
    let mut ab = mul_polynomials(&a, &b);
    domain.ifft_in_place(&mut c);
    proof {
        assert(resized(models(c@), n, 0nat) =~= models(c@));
    }
    domain.coset_fft_in_place(&mut c, &g);
    proof {
        assert(models(c@).len() == c@.len());
    }
    let z = domain.evaluate_vanishing_polynomial(&g);
    let vinv = match fr_inverse(&z) {
        Some(x) => x,
        None => {
            return Err(SynthesisError::UnexpectedIdentity);
        },
    };
    let ghost ea = models(a@);
    let ghost eb = models(b@);
    let ghost ec = models(c@);
    let mut i: usize = 0;
    while i < ab.len()
        invariant
            i <= ab@.len(),
            ab@.len() == n,
            c@.len() == n,
            ea.len() == n,
            eb.len() == n,
            ec == models(c@),
            forall|j: int| 0 <= j < i ==> (#[trigger] ab@[j])@ == fmul(fsub(fmul(ea[j], eb[j]), ec[j]), vinv@),
            forall|j: int| i <= j < n ==> (#[trigger] ab@[j])@ == fmul(ea[j], eb[j]),
        decreases ab@.len() - i,
    {
        let d = fr_sub(&ab[i], &c[i]);
        let t = fr_mul(&d, &vinv);
        ab.set(i, t);
        i = i + 1;
    }
    proof {
        let h = Seq::new(n, |j: int| fmul(fsub(fmul(ea[j], eb[j]), ec[j]), vinv@));
        assert(models(ab@) =~= h);
        assert(resized(h, n, 0nat) =~= h);
    }
    domain.coset_ifft_in_place(&mut ab, &g);
    Ok(ab)
}

/// `mul_polynomials_in_evaluation_domain`: the products entry by entry.
fn mul_polynomials(a: &Vec<Scalar>, b: &Vec<Scalar>) -> (r: Vec<Scalar>)
    requires
        a@.len() == b@.len(),
    ensures
        r@.len() == a@.len(),
        forall|i: int| 0 <= i < r@.len() ==> (#[trigger] r@[i])@ == fmul(a@[i]@, b@[i]@),
{
    let mut r: Vec<Scalar> = Vec::with_capacity(a.len());
    let mut i: usize = 0;
    while i < a.len()
        invariant
            i <= a@.len(),
            a@.len() == b@.len(),
            r@.len() == i,
            forall|j: int| 0 <= j < i ==> (#[trigger] r@[j])@ == fmul(a@[j]@, b@[j]@),
        decreases a@.len() - i,
    {
        r.push(fr_mul(&a[i], &b[i]));
        i = i + 1;
    }
    r
}

/// Computes the exponents that the generator uses to calculate base
/// elements which the prover later uses to compute `h(x)t(x)/delta`.
pub fn tau_powers_field_lifted(max_power: usize, tau: Scalar, vanish_tau: Scalar, delta_inverse: Scalar) -> (r: Result<
    Vec<Scalar>,
    SynthesisError,
>)
    ensures
        r matches Ok(v) && v@.len() == max_power && forall|i: int|
            0 <= i < max_power ==> (#[trigger] v@[i])@ == fmul(fmul(vanish_tau@, delta_inverse@), fpow(tau@, i as nat)),
{
    let mut scalars: Vec<Scalar> = Vec::with_capacity(max_power);
    let zd = fr_mul(&vanish_tau, &delta_inverse);
    let mut i: usize = 0;
    while i < max_power
        invariant
            i <= max_power,
            zd@ == fmul(vanish_tau@, delta_inverse@),
            scalars@.len() == i,
            forall|j: int| 0 <= j < i ==> (#[trigger] scalars@[j])@ == fmul(fmul(vanish_tau@, delta_inverse@), fpow(tau@, j as nat)),
        decreases max_power - i,
    {
        let p = fr_pow(&tau, i as u64);
        scalars.push(fr_mul(&zd, &p));
        i = i + 1;
    }
    Ok(scalars)
}

/// The powers `tau^i * delta_inverse` for `i < max_power`.
pub fn tau_powers_field(max_power: usize, tau: Scalar, delta_inverse: Scalar) -> (r: Result<Vec<Scalar>, SynthesisError>)
    ensures
        r matches Ok(v) && v@.len() == max_power && forall|i: int|
            0 <= i < max_power ==> (#[trigger] v@[i])@ == fmul(delta_inverse@, fpow(tau@, i as nat)),
{
    let mut scalars: Vec<Scalar> = Vec::with_capacity(max_power);
    let mut i: usize = 0;
    while i < max_power
        invariant
            i <= max_power,
            scalars@.len() == i,
            forall|j: int| 0 <= j < i ==> (#[trigger] scalars@[j])@ == fmul(delta_inverse@, fpow(tau@, j as nat)),
        decreases max_power - i,
    {
        let p = fr_pow(&tau, i as u64);
        scalars.push(fr_mul(&delta_inverse, &p));
        i = i + 1;
    }
    Ok(scalars)
}

/// Computes the R1CS-to-QAP reduction defined in `libsnark`.
pub struct LibsnarkReduction;

impl R1CSToQAP for LibsnarkReduction {
    open spec fn quotient_result(
        matrices: ConstraintMatrices,
        num_instance_variables: nat,
        num_constraints: nat,
        instance_witness: Seq<Scalar>,
        r: Result<Vec<Scalar>, SynthesisError>,
    ) -> bool {
        rows_quotient_result(matrices, instance_witness, num_constraints, r)
    }

    fn compute_quotient_from_matrices(
        matrices: &ConstraintMatrices,
        num_instance_variables: usize,
        num_constraints: usize,
        instance_witness: &[Scalar],
    ) -> (r: Result<Vec<Scalar>, SynthesisError>)
        ensures
            rows_quotient_result(*matrices, instance_witness@, num_constraints as nat, r),
    {
        quotient_from_rows(matrices, num_constraints, instance_witness)
    }
}

} // verus!
