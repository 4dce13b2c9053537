//! The commitment scheme: structured-reference-string setup, commitment,
//! witness generation and pairing-based verification.
use vstd::prelude::*;

use blstrs::{G1Projective, G2Projective, Scalar};

use crate::backend::{
    g1_add, g1_generator, g1_identity, g1_msm, g1_mul, g1_v, g2_add, g2_generator, g2_mul, g2_v,
    gt_eq, gt_v, msm1_v, pair, random_u64, s_from_u64, s_neg, s_sub, scalar_v,
};
use crate::field::{
    add_p, eqp, fp, modp, mul_p, poly_eval, poly_is_zero, poly_wf, pow_p, sub_p,
};
use crate::field::{
    lemma_addp_eqp, lemma_eqp_add, lemma_eqp_mul, lemma_eqp_sub, lemma_eqp_unique,
    lemma_eval_update, lemma_fp_big, lemma_modp_eqp, lemma_modp_range, lemma_modp_shift,
    lemma_modp_small, lemma_mulp_eqp, lemma_subp_eqp,
};
use crate::polynomials::{lemma_linear_division_identity, Polynomial};
use vstd::pervasive::VecAdditionalExecFns;

verus! {

/// The public parameters of the scheme: parallel powers of a secret
/// trapdoor behind the generators of the two groups. The trapdoor itself
/// survives only as the ghost `tau`, which exists for specification alone
/// and is erased from the running program.
#[derive(Clone)]
pub struct GlobalParameters {
    pub gs: Vec<G1Projective>,
    pub hs: Vec<G2Projective>,
    pub tau: Ghost<int>,
}

impl GlobalParameters {
    /// The structural invariant: both sequences have the same length and
    /// hold consecutive powers of the trapdoor behind their generators.
    pub open spec fn wf(&self) -> bool {
        &&& self.gs@.len() == self.hs@.len()
        &&& 0 <= self.tau@ < fp()
        &&& forall|i: int|
            0 <= i < self.gs@.len() ==> g1_v(#[trigger] self.gs@[i]) == pow_p(self.tau@, i as nat)
        &&& forall|i: int|
            0 <= i < self.hs@.len() ==> g2_v(#[trigger] self.hs@[i]) == pow_p(self.tau@, i as nat)
    }

    fn new(gs: Vec<G1Projective>, hs: Vec<G2Projective>, tau: Ghost<int>) -> (r: Self)
        ensures
            r.gs == gs,
            r.hs == hs,
            r.tau == tau,
    {
        GlobalParameters { gs, hs, tau }
    }
}

#[derive(Debug, Eq, PartialEq, Structural)]
pub enum Error {
    IncorrectDegree,
    SetupIncomplete,
}

/// What a commitment scheme offers: one state-mutating setup, then
/// commitment, witness generation and verification against the stored
/// parameters.
pub trait PolynomialCommitment {
    /// The parameters retained by setup, if any.
    spec fn srs(&self) -> Option<GlobalParameters>;

    /// Draws a trapdoor, derives `d` powers of it in both groups, keeps a
    /// copy of the parameters and returns them. The trapdoor is widened
    /// from a single 64-bit draw, so its effective entropy is far below
    /// the field's size — a known weakness, kept for compatibility.
    fn setup(&mut self, d: usize) -> (r: GlobalParameters)
        ensures
            r.wf(),
            r.gs@.len() == d,
            r.hs@.len() == d,
            final(self).srs() matches Some(gp) && gp.wf() && gp.gs@ == r.gs@ && gp.hs@ == r.hs@
                && gp.tau == r.tau,
    ;

    /// The commitment: the multi-scalar multiplication of the polynomial's
    /// coefficients against the first-group powers, that is, the value of
    /// the polynomial at the trapdoor behind the first generator. Fails
    /// exactly when no parameters exist or the degree does not match.
    fn commit(&self, polynomial: &Polynomial) -> (r: Result<G1Projective, Error>)
        ensures
            (r == Result::<G1Projective, Error>::Err(Error::SetupIncomplete)) <==> self.srs()
                is None,
            (r == Result::<G1Projective, Error>::Err(Error::IncorrectDegree)) <==> (self.srs()
                matches Some(gp) && polynomial.0@.len() != gp.gs@.len()),
            (r is Ok) <==> (self.srs() matches Some(gp) && polynomial.0@.len() == gp.gs@.len()),
            r matches Ok(c) ==> (self.srs() matches Some(gp) && 0 <= g1_v(c) < fp() && g1_v(c)
                == msm1_v(gp.gs@, polynomial.0@) && (gp.wf() ==> g1_v(c) == poly_eval(
                polynomial@,
                gp.tau@,
            ))),
    ;

    /// The opening proof for `polynomial` at `point`: the evaluation there,
    /// and the commitment to the quotient of the shifted polynomial by the
    /// monic linear `x - point`. The witness's discrete logarithm `w`
    /// satisfies `w * (tau - point) = p(tau) - p(point)` in the field.
    fn create_witness(&self, polynomial: Polynomial, point: Scalar) -> (r: (G1Projective, Scalar))
        requires
            self.srs() matches Some(gp) && gp.wf() && polynomial.0@.len() <= gp.gs@.len() + 1,
            poly_wf(polynomial@),
            exists|i: int| 1 <= i < polynomial@.len() && polynomial@[i] != 0,
        ensures
            0 <= scalar_v(r.1) < fp(),
            scalar_v(r.1) == poly_eval(polynomial@, scalar_v(point)),
            self.srs() matches Some(gp) ==> eqp(
                g1_v(r.0) * (gp.tau@ - scalar_v(point)),
                poly_eval(polynomial@, gp.tau@) - scalar_v(r.1),
            ),
    ;

    /// The pairing check: accepts exactly when, on discrete logarithms,
    /// `commitment - evaluation` equals `witness * (tau - point)`.
    fn verify_evaluation(
        &self,
        committed_polynomial: G1Projective,
        point: Scalar,
        evaluation: Scalar,
        witness: G1Projective,
    ) -> (r: bool)
        requires
            self.srs() matches Some(gp) && gp.wf() && gp.hs@.len() >= 2,
        ensures
            self.srs() matches Some(gp) ==> r == (sub_p(
                g1_v(committed_polynomial),
                scalar_v(evaluation),
            ) == mul_p(g1_v(witness), sub_p(gp.tau@, scalar_v(point)))),
    ;
}

/// The one concrete scheme: it retains the parameters of the latest setup.
pub struct GenericPolynomialCommitment {
    global_parameters: Option<GlobalParameters>,
}

impl GenericPolynomialCommitment {
    /// A scheme with no parameters yet: `commit` refuses until `setup` ran.
    pub fn new() -> (r: Self)
        ensures
            r.srs() is None,
    {
        GenericPolynomialCommitment { global_parameters: None }
    }
}

/// The consecutive powers of `tau` behind the first group's generator.
fn generate_tau_points_g1(tau: &Scalar, length: usize) -> (r: Vec<G1Projective>)
    ensures
        r@.len() == length,
        forall|i: int|
            0 <= i < length ==> g1_v(#[trigger] r@[i]) == pow_p(scalar_v(*tau), i as nat),
{
    let mut generators: Vec<G1Projective> = Vec::new();
    if length == 0 {
        return generators;
    }
    let mut g = g1_generator();
    generators.push(g);
    let mut i: usize = 1;
    while i < length
        invariant
            1 <= i <= length,
            generators@.len() == i,
            g1_v(g) == pow_p(scalar_v(*tau), (i - 1) as nat),
            forall|j: int|
                0 <= j < i ==> g1_v(#[trigger] generators@[j]) == pow_p(scalar_v(*tau), j as nat),
        decreases length - i,
    {
        let gn = g1_mul(&g, tau);
        proof {
            let t = scalar_v(*tau);
            assert(pow_p(t, i as nat) == mul_p(t, pow_p(t, (i - 1) as nat)));
            assert(pow_p(t, (i - 1) as nat) * t == t * pow_p(t, (i - 1) as nat))
                by (nonlinear_arith);
        }
        g = gn;
        generators.push(g);
        i = i + 1;
    }
    generators
}

/// The consecutive powers of `tau` behind the second group's generator.
fn generate_tau_points_g2(tau: &Scalar, length: usize) -> (r: Vec<G2Projective>)
    ensures
        r@.len() == length,
        forall|i: int|
            0 <= i < length ==> g2_v(#[trigger] r@[i]) == pow_p(scalar_v(*tau), i as nat),
{
    let mut generators: Vec<G2Projective> = Vec::new();
    if length == 0 {
        return generators;
    }
    let mut g = g2_generator();
    generators.push(g);
    let mut i: usize = 1;
    while i < length
        invariant
            1 <= i <= length,
            generators@.len() == i,
            g2_v(g) == pow_p(scalar_v(*tau), (i - 1) as nat),
            forall|j: int|
                0 <= j < i ==> g2_v(#[trigger] generators@[j]) == pow_p(scalar_v(*tau), j as nat),
        decreases length - i,
    {
        let gn = g2_mul(&g, tau);
        proof {
            let t = scalar_v(*tau);
            assert(pow_p(t, i as nat) == mul_p(t, pow_p(t, (i - 1) as nat)));
            assert(pow_p(t, (i - 1) as nat) * t == t * pow_p(t, (i - 1) as nat))
                by (nonlinear_arith);
        }
        g = gn;
        generators.push(g);
        i = i + 1;
    }
    generators
}

fn copy_points_g1(v: &Vec<G1Projective>) -> (r: Vec<G1Projective>)
    ensures
        r@ == v@,
{
    let mut r: Vec<G1Projective> = Vec::new();
    let n = v.len();
    for i in 0..n
        invariant
            n == v@.len(),
            r@.len() == i,
            forall|j: int| 0 <= j < i ==> #[trigger] r@[j] == v@[j],
    {
        r.push(v[i]);
    }
    proof {
        assert(r@ =~= v@);
    }
    r
}

fn copy_points_g2(v: &Vec<G2Projective>) -> (r: Vec<G2Projective>)
    ensures
        r@ == v@,
{
    let mut r: Vec<G2Projective> = Vec::new();
    let n = v.len();
    for i in 0..n
        invariant
            n == v@.len(),
            r@.len() == i,
            forall|j: int| 0 <= j < i ==> #[trigger] r@[j] == v@[j],
    {
        r.push(v[i]);
    }
    proof {
        assert(r@ =~= v@);
    }
    r
}

/// A multi-scalar multiplication against consecutive powers of `t` is the
/// polynomial evaluation of the scalars at `t`.
proof fn lemma_msm_powers(ps: Seq<G1Projective>, ss: Seq<Scalar>, t: int)
    requires
        ps.len() == ss.len(),
        forall|i: int| 0 <= i < ps.len() ==> g1_v(#[trigger] ps[i]) == pow_p(t, i as nat),
    ensures
        msm1_v(ps, ss) == poly_eval(ss.map_values(|s: Scalar| scalar_v(s)), t),
    decreases ps.len(),
{
    lemma_fp_big();
    let sv = ss.map_values(|s: Scalar| scalar_v(s));
    if ps.len() == 0 {
        lemma_modp_small(0);
    } else {
        let n = ps.len() - 1;
        assert(ps.drop_last().len() == ss.drop_last().len());
        assert forall|i: int| 0 <= i < ps.drop_last().len() implies g1_v(
            #[trigger] ps.drop_last()[i],
        ) == pow_p(t, i as nat) by {
            assert(ps.drop_last()[i] == ps[i]);
        }
        lemma_msm_powers(ps.drop_last(), ss.drop_last(), t);
        assert(sv.drop_last() =~= ss.drop_last().map_values(|s: Scalar| scalar_v(s)));
        assert(g1_v(ps.last()) == pow_p(t, n as nat));
        assert(pow_p(t, n as nat) * scalar_v(ss.last()) == scalar_v(ss.last()) * pow_p(
            t,
            n as nat,
        )) by (nonlinear_arith);
        assert(sv.last() == scalar_v(ss.last()));
        assert(sv.len() == ps.len());
        assert(msm1_v(ps, ss) == add_p(
            msm1_v(ps.drop_last(), ss.drop_last()),
            mul_p(g1_v(ps.last()), scalar_v(ss.last())),
        ));
        assert(poly_eval(sv, t) == add_p(
            poly_eval(sv.drop_last(), t),
            mul_p(sv.last(), pow_p(t, n as nat)),
        ));
    }
}

/// Completeness: for any polynomial, point and trapdoor, values computed as
/// the honest prover computes them — the commitment as `p(tau)`, the
/// evaluation as `p(point)`, and a witness whose discrete logarithm
/// satisfies the division identity `w * (tau - point) = p(tau) - p(point)`
/// — always pass the verifier's check.
pub proof fn lemma_completeness(p: Seq<int>, t: int, xv: int, cv: int, wv: int, ev: int)
    requires
        cv == poly_eval(p, t),
        ev == poly_eval(p, xv),
        eqp(wv * (t - xv), poly_eval(p, t) - ev),
    ensures
        sub_p(cv, ev) == mul_p(wv, sub_p(t, xv)),
{
    lemma_fp_big();
    lemma_subp_eqp(t, xv);
    lemma_eqp_mul(wv, wv, sub_p(t, xv), t - xv);
    lemma_mulp_eqp(wv, sub_p(t, xv));
    lemma_subp_eqp(cv, ev);
    lemma_modp_range(cv - ev);
    lemma_modp_range(wv * sub_p(t, xv));
    lemma_eqp_unique(sub_p(cv, ev), mul_p(wv, sub_p(t, xv)));
}

/// Soundness against a shifted claim: if the verifier's check accepts a
/// claimed evaluation, then it rejects that claim perturbed by any non-zero
/// field element, whatever the commitment and witness.
pub proof fn lemma_soundness_perturbed(t: int, xv: int, cv: int, wv: int, ev: int, delta: int)
    requires
        sub_p(cv, ev) == mul_p(wv, sub_p(t, xv)),
        0 < delta < fp(),
    ensures
        sub_p(cv, add_p(ev, delta)) != mul_p(wv, sub_p(t, xv)),
{
    lemma_fp_big();
    let a = sub_p(cv, ev);
    let a2 = sub_p(cv, add_p(ev, delta));
    lemma_addp_eqp(ev, delta);
    lemma_eqp_sub(cv, cv, add_p(ev, delta), ev + delta);
    lemma_subp_eqp(cv, add_p(ev, delta));
    lemma_subp_eqp(cv, ev);
    lemma_eqp_sub(cv - ev, a, delta, delta);
    // so a2 and a - delta reduce alike, and a2 is already reduced
    lemma_modp_range(cv - add_p(ev, delta));
    lemma_modp_small(a2);
    lemma_modp_range(cv - ev);
    lemma_modp_small(a);
    assert(a2 == modp(a - delta));
    if a - delta >= 0 {
        lemma_modp_small(a - delta);
    } else {
        lemma_modp_shift(a - delta);
        lemma_modp_small(a - delta + fp());
    }
}

impl PolynomialCommitment for GenericPolynomialCommitment {
    closed spec fn srs(&self) -> Option<GlobalParameters> {
        self.global_parameters
    }

    fn setup(&mut self, d: usize) -> (r: GlobalParameters) {
        let tau = s_from_u64(random_u64());
        let ghost t = scalar_v(tau);
        let gs = generate_tau_points_g1(&tau, d);
        let hs = generate_tau_points_g2(&tau, d);
        let gs_kept = copy_points_g1(&gs);
        let hs_kept = copy_points_g2(&hs);
        let globalparameters = GlobalParameters::new(gs, hs, Ghost(t));
        let kept = GlobalParameters::new(gs_kept, hs_kept, Ghost(t));
        self.global_parameters = Some(kept);
        globalparameters
    }

    fn commit(&self, polynomial: &Polynomial) -> (r: Result<G1Projective, Error>) {
        match &self.global_parameters {
            None => Err(Error::SetupIncomplete),
            Some(gp) => {
                if polynomial.0.len() != gp.gs.len() {
                    Err(Error::IncorrectDegree)
                } else if polynomial.0.len() == 0 {
                    // the empty sum: the identity element
                    let c = g1_identity();
                    proof {
                        assert(polynomial@.len() == 0);
                    }
                    Ok(c)
                } else {
                    let c = g1_msm(&gp.gs, &polynomial.0);
                    proof {
                        if gp.wf() {
                            lemma_msm_powers(gp.gs@, polynomial.0@, gp.tau@);
                        }
                    }
                    Ok(c)
                }
            },
        }
    }

    #[verifier::rlimit(100)]
    fn create_witness(&self, polynomial: Polynomial, point: Scalar) -> (r: (G1Projective, Scalar))
    {
        let ghost p = polynomial@;
        let ghost xv = scalar_v(point);
        let evaluation = polynomial.evaluate(point);
        let ghost ev = scalar_v(evaluation);
        let mut witness_polynomial = polynomial;
        let c0 = s_sub(&witness_polynomial.0[0], &evaluation);
        witness_polynomial.0.set(0, c0);
        let ghost sh = witness_polynomial@;
        let np = s_neg(&point);
        let one = s_from_u64(1);
        let mut dvv: Vec<Scalar> = Vec::new();
        dvv.push(np);
        dvv.push(one);
        let divisor = Polynomial(dvv);
        let ghost dv2 = divisor@;
        proof {
            lemma_fp_big();
            assert(sh =~= p.update(0, sub_p(p[0], ev)));
            assert(dv2 =~= seq![sub_p(0, xv), 1int]);
            assert(!poly_is_zero(sh)) by {
                let i = choose|i: int| 1 <= i < p.len() && p[i] != 0;
                assert(sh[i] != 0);
            }
            assert(poly_wf(sh));
            assert(dv2.last() == 1);
            assert(poly_wf(dv2));
        }
        let (quot, rem_g) = witness_polynomial.div(divisor);
        let ghost rem = rem_g@;
        let qn = quot.0.len();
        let gp_ref = self.global_parameters.as_ref().unwrap();
        proof {
            assert(self.srs() matches Some(g) && g == *gp_ref);
            assert(qn <= gp_ref.gs@.len());
        }
        let mut bases: Vec<G1Projective> = Vec::new();
        for i in 0..qn
            invariant
                qn == quot.0@.len(),
                qn <= gp_ref.gs@.len(),
                bases@.len() == i,
                forall|j: int| 0 <= j < i ==> #[trigger] bases@[j] == gp_ref.gs@[j],
        {
            bases.push(gp_ref.gs[i]);
        }
        let witness = g1_msm(&bases, &quot.0);
        proof {
            let gp = *gp_ref;
            let t = gp.tau@;
            assert forall|i: int| 0 <= i < bases@.len() implies g1_v(#[trigger] bases@[i])
                == pow_p(t, i as nat) by {
                assert(bases@[i] == gp.gs@[i]);
            }
            lemma_msm_powers(bases@, quot.0@, t);
            assert(g1_v(witness) == poly_eval(quot@, t));
            // the shifted polynomial evaluates to p(y) - ev everywhere
            assert forall|y: int| #![trigger poly_eval(sh, y)]
                eqp(poly_eval(sh, y), poly_eval(p, y) - ev) by {
                lemma_eval_update(p, 0, sub_p(p[0], ev), y);
                assert(pow_p(y, 0) == 1);
                assert(sub_p(p[0], ev) * 1 == sub_p(p[0], ev));
                assert(mul_p(sub_p(p[0], ev), 1) == modp(sub_p(p[0], ev)));
                assert(p[0] * 1 == p[0]);
                assert(mul_p(p[0], 1) == modp(p[0]));
                lemma_modp_eqp(sub_p(p[0], ev));
                lemma_subp_eqp(p[0], ev);
                lemma_modp_eqp(p[0]);
                lemma_eqp_add(poly_eval(p, y), poly_eval(p, y), modp(sub_p(p[0], ev)), p[0] - ev);
                lemma_eqp_sub(
                    poly_eval(p, y) + modp(sub_p(p[0], ev)),
                    poly_eval(p, y) + (p[0] - ev),
                    modp(p[0]),
                    p[0],
                );
            }
            // the shifted polynomial vanishes at the point, so the division
            // identity reconstructs it from the quotient at every argument
            assert(eqp(poly_eval(sh, xv), 0)) by {
                assert(eqp(poly_eval(sh, xv), poly_eval(p, xv) - ev));
                assert(poly_eval(p, xv) - ev == 0);
            }
            lemma_linear_division_identity(quot@, rem, sh, xv);
            // instantiate it at the trapdoor
            let qt = poly_eval(quot@, t);
            assert(eqp(qt * (t - xv), poly_eval(sh, t)));
            assert(eqp(poly_eval(sh, t), poly_eval(p, t) - ev));
            assert(eqp(qt * (t - xv), poly_eval(p, t) - ev));
        }
        (witness, evaluation)
    }

    fn verify_evaluation(
        &self,
        committed_polynomial: G1Projective,
        point: Scalar,
        evaluation: Scalar,
        witness: G1Projective,
    ) -> (r: bool) {
        let g1 = g1_generator();
        let g2 = g2_generator();
        let neg_eval = s_neg(&evaluation);
        let evaluation_inverse = g1_mul(&g1, &neg_eval);
        let left_pairing = g1_add(&committed_polynomial, &evaluation_inverse);
        let lhs = pair(&left_pairing, &g2);
        let neg_point = s_neg(&point);
        let point_commitment_inverted = g2_mul(&g2, &neg_point);
        let gp_ref = self.global_parameters.as_ref().unwrap();
        let right_side = g2_add(&gp_ref.hs[1], &point_commitment_inverted);
        let rhs = pair(&witness, &right_side);
        let accepted = gt_eq(&lhs, &rhs);
        proof {
            lemma_fp_big();
            let gp = *gp_ref;
            let t = gp.tau@;
            let cv = g1_v(committed_polynomial);
            let wv = g1_v(witness);
            let ev = scalar_v(evaluation);
            let xv = scalar_v(point);
            let ne = scalar_v(neg_eval);
            assert(1 * ne == ne);
            assert(mul_p(1, ne) == modp(ne));
            lemma_modp_small(ne);
            assert(g1_v(left_pairing) * 1 == g1_v(left_pairing));
            lemma_modp_small(g1_v(left_pairing));
            assert(gt_v(lhs) == add_p(cv, ne));
            lemma_subp_eqp(0, ev);
            lemma_eqp_add(cv, cv, ne, 0 - ev);
            assert(gt_v(lhs) == sub_p(cv, ev));
            let np2 = scalar_v(neg_point);
            assert(1 * np2 == np2);
            assert(mul_p(1, np2) == modp(np2));
            lemma_modp_small(np2);
            assert(g2_v(gp.hs@[1]) == pow_p(t, 1));
            assert(pow_p(t, 0) == 1);
            assert(pow_p(t, 1) == mul_p(t, pow_p(t, 0)));
            assert(t * 1 == t);
            lemma_modp_small(t);
            assert(g2_v(right_side) == add_p(t, np2));
            lemma_subp_eqp(0, xv);
            lemma_eqp_add(t, t, np2, 0 - xv);
            assert(g2_v(right_side) == sub_p(t, xv));
            assert(gt_v(rhs) == mul_p(wv, sub_p(t, xv)));
        }
        accepted
    }
}

} // verus!
