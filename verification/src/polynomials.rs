//! Dense polynomials over the scalar field, with evaluation and synthetic
//! long division.
use vstd::prelude::*;

use blstrs::Scalar;

use crate::backend::{s_add, s_from_u64, s_invert, s_is_zero, s_mul, s_sub, scalar_v};
use crate::field::{add_p, eqp, fp, modp, mul_p, poly_eval, poly_is_zero, poly_wf, pow_p, sub_p};
use crate::field::{
    lemma_addp_eqp, lemma_eqp_add, lemma_eqp_mul, lemma_eqp_sub, lemma_eqp_unique,
    lemma_eval_bound, lemma_eval_drop_last_zero, lemma_eval_one_coeff, lemma_eval_take_step,
    lemma_eval_two_coeffs, lemma_eval_update, lemma_eval_zero, lemma_fp_big, lemma_modp_range,
    lemma_modp_small, lemma_mulp_eqp, lemma_powp_adds, lemma_subp_eqp,
};
use vstd::pervasive::VecAdditionalExecFns;

verus! {

/// A polynomial as its dense coefficient vector: index `i` holds the
/// coefficient of `x^i`; the empty vector is the zero polynomial.
#[derive(Clone, Debug, Eq, PartialEq)]
pub struct Polynomial(pub Vec<Scalar>);

impl View for Polynomial {
    type V = Seq<int>;

    /// The mathematical value of the polynomial: the sequence of canonical
    /// representatives of its coefficients.
    open spec fn view(&self) -> Seq<int> {
        self.0@.map_values(|s: Scalar| scalar_v(s))
    }
}

impl Polynomial {
    /// A polynomial from an explicit coefficient list.
    pub fn new(scalars: &[Scalar]) -> (r: Self)
        ensures
            r@.len() == scalars@.len(),
            forall|i: int| 0 <= i < scalars@.len() ==> r@[i] == scalar_v(#[trigger] scalars@[i]),
    {
        let v = vstd::slice::slice_to_vec(scalars);
        Polynomial(v)
    }

    /// A polynomial from raw bytes: each byte becomes one coefficient, in
    /// input order, widened into the field.
    pub fn new_from_bytes(bytes: &[u8]) -> (r: Self)
        ensures
            r@.len() == bytes@.len(),
            forall|i: int| 0 <= i < bytes@.len() ==> r@[i] == #[trigger] bytes@[i],
            poly_wf(r@),
    {
        let n = bytes.len();
        let mut v: Vec<Scalar> = Vec::new();
        for i in 0..n
            invariant
                n == bytes@.len(),
                v@.len() == i,
                forall|j: int|
                    0 <= j < i ==> scalar_v(#[trigger] v@[j]) == bytes@[j] && 0 <= scalar_v(
                        v@[j],
                    ) < fp(),
        {
            let b = *vstd::slice::slice_index_get(bytes, i);
            v.push(s_from_u64(b as u64));
        }
        Polynomial(v)
    }

    /// The value of the polynomial at `point`: the sum of
    /// `coefficient[i] * point^i`, kept as a running power accumulator.
    pub fn evaluate(&self, point: Scalar) -> (r: Scalar)
        ensures
            0 <= scalar_v(r) < fp(),
            scalar_v(r) == poly_eval(self@, scalar_v(point)),
    {
        let ghost x = scalar_v(point);
        let mut total = s_from_u64(0);
        let mut cur_p = s_from_u64(1);
        let n = self.0.len();
        proof {
            assert(self@.take(0) =~= Seq::<int>::empty());
        }
        for i in 0..n
            invariant
                n == self.0@.len(),
                x == scalar_v(point),
                0 <= scalar_v(total) < fp(),
                scalar_v(total) == poly_eval(self@.take(i as int), x),
                scalar_v(cur_p) == pow_p(x, i as nat),
        {
            let term = s_mul(&cur_p, &self.0[i]);
            proof {
                lemma_eval_take_step(self@, i as int, x);
                assert(self@[i as int] == scalar_v(self.0@[i as int]));
                assert(scalar_v(cur_p) * scalar_v(self.0@[i as int]) == scalar_v(
                    self.0@[i as int],
                ) * scalar_v(cur_p)) by (nonlinear_arith);
            }
            total = s_add(&total, &term);
            let next_p = s_mul(&cur_p, &point);
            proof {
                assert(pow_p(x, (i + 1) as nat) == mul_p(x, pow_p(x, i as nat)));
                assert(scalar_v(cur_p) * x == x * scalar_v(cur_p)) by (nonlinear_arith);
            }
            cur_p = next_p;
        }
        proof {
            assert(self@.take(n as int) =~= self@);
        }
        total
    }

    /// Whether this is the zero polynomial: empty, or all coefficients zero.
    fn is_zero(&self) -> (r: bool)
        ensures
            r == poly_is_zero(self@),
    {
        let n = self.0.len();
        for i in 0..n
            invariant
                n == self.0@.len(),
                forall|j: int| 0 <= j < i ==> #[trigger] self@[j] == 0,
        {
            if !s_is_zero(&self.0[i]) {
                proof {
                    assert(self@[i as int] != 0);
                }
                return false;
            }
        }
        true
    }

    /// Synthetic long division of `self` by `divisor` over the field.
    ///
    /// The dividend must not be the zero polynomial and the divisor's
    /// leading coefficient must be non-zero (in this library the divisor is
    /// always the monic linear `x - point`). Returns the quotient together
    /// with the mathematical value of the final remainder: quotient times
    /// divisor plus remainder gives back the dividend at every point, and
    /// the remainder is shorter than the divisor.
    #[verifier::rlimit(100)]
    pub fn div(self, divisor: Polynomial) -> (r: (Polynomial, Ghost<Seq<int>>))
        requires
            !poly_is_zero(self@),
            poly_wf(self@),
            poly_wf(divisor@),
            divisor@.len() > 0,
            divisor@.last() != 0,
        ensures
            poly_wf(r.0@),
            r.0@.len() == (if self@.len() < divisor@.len() {
                1int
            } else {
                self@.len() - divisor@.len() + 1
            }),
            poly_wf(r.1@),
            r.1@.len() < divisor@.len(),
            forall|x: int|
                #![trigger poly_eval(r.0@, x)]
                eqp(
                    poly_eval(r.0@, x) * poly_eval(divisor@, x) + poly_eval(r.1@, x),
                    poly_eval(self@, x),
                ),
    {
        let ghost p0 = self@;
        let ghost dv = divisor@;
        let n = self.0.len();
        let m = divisor.0.len();
        if n < m {
            let mut qv: Vec<Scalar> = Vec::new();
            qv.push(s_from_u64(0));
            let q = Polynomial(qv);
            proof {
                lemma_fp_big();
                assert(q@ =~= seq![0int]);
                assert forall|x: int| #![trigger poly_eval(q@, x)]
                    eqp(
                        poly_eval(q@, x) * poly_eval(dv, x) + poly_eval(p0, x),
                        poly_eval(p0, x),
                    ) by {
                    assert(q@.drop_last() =~= Seq::<int>::empty());
                    lemma_modp_small(0);
                    assert(q@.last() == 0);
                    assert(pow_p(x, 0) == 1);
                    assert(mul_p(0, 1) == modp(0));
                    assert(q@.len() == 1);
                    assert(poly_eval(q@.drop_last(), x) == 0);
                    assert(mul_p(q@.last(), pow_p(x, (q@.len() - 1) as nat)) == 0);
                    assert(poly_eval(q@, x) == add_p(0, 0));
                    assert(poly_eval(q@, x) == 0);
                    assert(0 * poly_eval(dv, x) == 0) by (nonlinear_arith);
                }
            }
            (q, Ghost(p0))
        } else {
            let qlen = n - m + 1;
            let mut qv: Vec<Scalar> = Vec::new();
            for qi in 0..qlen
                invariant
                    qv@.len() == qi,
                    forall|j: int|
                        0 <= j < qi ==> scalar_v(#[trigger] qv@[j]) == 0 && 0 <= scalar_v(
                            qv@[j],
                        ) < fp(),
            {
                qv.push(s_from_u64(0));
            }
            let mut quotient = Polynomial(qv);
            let mut remainder = self;
            let divisor_lead = divisor.leading_coefficient().unwrap();
            proof {
                assert(scalar_v(divisor_lead) == dv.last());
            }
            let dinv_opt = s_invert(&divisor_lead);
            let dinv = dinv_opt.unwrap();
            let ghost iv = scalar_v(dinv);
            proof {
                assert forall|x: int| #![trigger poly_eval(quotient@, x)]
                    eqp(
                        poly_eval(quotient@, x) * poly_eval(dv, x) + poly_eval(remainder@, x),
                        poly_eval(p0, x),
                    ) by {
                    assert(poly_is_zero(quotient@));
                    lemma_eval_zero(quotient@, x);
                    assert(0 * poly_eval(dv, x) == 0) by (nonlinear_arith);
                }
            }
            loop
                invariant
                    m == divisor.0@.len(),
                    dv == divisor@,
                    m >= 1,
                    n >= m,
                    qlen == n - m + 1,
                    poly_wf(dv),
                    dv.last() != 0,
                    mul_p(iv, dv.last()) == 1,
                    0 <= iv < fp(),
                    iv == scalar_v(dinv),
                    quotient.0@.len() == qlen,
                    poly_wf(quotient@),
                    poly_wf(remainder@),
                    remainder.0@.len() <= n,
                    forall|j: int|
                        0 <= j && j + m <= remainder@.len() ==> #[trigger] quotient@[j] == 0,
                    forall|x: int|
                        #![trigger poly_eval(quotient@, x)]
                        eqp(
                            poly_eval(quotient@, x) * poly_eval(dv, x) + poly_eval(remainder@, x),
                            poly_eval(p0, x),
                        ),
                ensures
                    remainder.0@.len() < m || poly_is_zero(remainder@),
                    quotient.0@.len() == qlen,
                    poly_wf(quotient@),
                    poly_wf(remainder@),
                    forall|x: int|
                        #![trigger poly_eval(quotient@, x)]
                        eqp(
                            poly_eval(quotient@, x) * poly_eval(dv, x) + poly_eval(remainder@, x),
                            poly_eval(p0, x),
                        ),
                decreases remainder.0@.len(),
            {
                if remainder.0.len() < m {
                    break;
                }
                if remainder.is_zero() {
                    break;
                }
                let ell = remainder.0.len();
                let k = ell - m;
                let ghost r0 = remainder@;
                let ghost qv0 = quotient@;
                let remainder_lead = remainder.leading_coefficient().unwrap();
                let c = s_mul(&remainder_lead, &dinv);
                let ghost cv = scalar_v(c);
                proof {
                    assert(r0[ell - 1] == scalar_v(remainder_lead));
                    assert(cv == mul_p(r0[ell - 1], iv));
                }
                quotient.0.set(k, c);
                proof {
                    assert(quotient@ =~= qv0.update(k as int, cv));
                    assert(dv.take(0) =~= Seq::<int>::empty());
                }
                for i in 0..m
                    invariant
                        m == divisor.0@.len(),
                        dv == divisor@,
                        k + m == ell,
                        ell <= n,
                        remainder.0@.len() == ell,
                        poly_wf(remainder@),
                        poly_wf(r0),
                        r0.len() == ell,
                        cv == scalar_v(c),
                        0 <= cv < fp(),
                        forall|j: int|
                            k + i <= j < ell ==> #[trigger] remainder@[j] == r0[j],
                        forall|j: int|
                            k <= j < k + i ==> #[trigger] remainder@[j] == sub_p(
                                r0[j],
                                mul_p(cv, dv[j - k]),
                            ),
                        forall|x: int|
                            #![trigger poly_eval(remainder@, x)]
                            eqp(
                                poly_eval(remainder@, x),
                                poly_eval(r0, x) - cv * pow_p(x, k as nat) * poly_eval(
                                    dv.take(i as int),
                                    x,
                                ),
                            ),
                {
                    let idx = k + i;
                    let ghost rb = remainder@;
                    let w = s_mul(&c, &divisor.0[i]);
                    let newv = s_sub(&remainder.0[idx], &w);
                    remainder.0.set(idx, newv);
                    proof {
                        assert(remainder@ =~= rb.update(idx as int, scalar_v(newv)));
                        assert(dv[i as int] == scalar_v(divisor.0@[i as int]));
                        assert forall|x: int|
                            #![trigger poly_eval(remainder@, x)]
                            eqp(
                                poly_eval(remainder@, x),
                                poly_eval(r0, x) - cv * pow_p(x, k as nat) * poly_eval(
                                    dv.take(i + 1),
                                    x,
                                ),
                            ) by {
                            let o = rb[idx as int];
                            let v = scalar_v(newv);
                            let wv = mul_p(cv, dv[i as int]);
                            let pidx = pow_p(x, (k + i) as nat);
                            let pk = pow_p(x, k as nat);
                            let pi = pow_p(x, i as nat);
                            let ti = poly_eval(dv.take(i as int), x);
                            let ti1 = poly_eval(dv.take(i + 1), x);
                            let e_b = poly_eval(rb, x);
                            let e_0 = poly_eval(r0, x);
                            assert(eqp(e_b, e_0 - cv * pk * ti));
                            assert(v == sub_p(o, wv));
                            lemma_eval_update(rb, idx as int, v, x);
                            lemma_subp_eqp(o, wv);
                            lemma_mulp_eqp(v, pidx);
                            lemma_eqp_mul(v, o - wv, pidx, pidx);
                            lemma_mulp_eqp(o, pidx);
                            assert((o - wv) * pidx == o * pidx - wv * pidx) by (nonlinear_arith);
                            lemma_eqp_add(e_b, e_b, mul_p(v, pidx), o * pidx - wv * pidx);
                            lemma_eqp_sub(
                                e_b + mul_p(v, pidx),
                                e_b + (o * pidx - wv * pidx),
                                mul_p(o, pidx),
                                o * pidx,
                            );
                            // so far: eval(remainder@, x) ~ e_b - wv * pidx
                            lemma_mulp_eqp(cv, dv[i as int]);
                            lemma_powp_adds(x, k as nat, i as nat);
                            assert((k + i) as nat == k as nat + i as nat);
                            lemma_eqp_mul(wv, cv * dv[i as int], pidx, pk * pi);
                            // wv * pidx ~ (cv * dv[i]) * (pk * pi)
                            lemma_eval_take_step(dv, i as int, x);
                            lemma_addp_eqp(ti, mul_p(dv[i as int], pi));
                            lemma_mulp_eqp(dv[i as int], pi);
                            lemma_eqp_add(ti, ti, mul_p(dv[i as int], pi), dv[i as int] * pi);
                            // ti1 ~ ti + dv[i] * pi
                            lemma_eqp_mul(cv * pk, cv * pk, ti1, ti + dv[i as int] * pi);
                            assert(cv * pk * (ti + dv[i as int] * pi) == cv * pk * ti + (cv
                                * dv[i as int]) * (pk * pi)) by (nonlinear_arith);
                            lemma_eqp_sub(
                                e_b,
                                e_0 - cv * pk * ti,
                                wv * pidx,
                                (cv * dv[i as int]) * (pk * pi),
                            );
                            lemma_eqp_sub(
                                e_0,
                                e_0,
                                cv * pk * ti1,
                                cv * pk * ti + (cv * dv[i as int]) * (pk * pi),
                            );
                        }
                    }
                }
                proof {
                    assert(dv.take(m as int) =~= dv);
                    lemma_fp_big();
                    // the leading coefficient of the remainder was cancelled
                    let lv = r0[ell - 1];
                    let dlv = dv[m - 1];
                    assert(dlv == dv.last());
                    assert(remainder@[ell - 1] == sub_p(lv, mul_p(cv, dlv)));
                    let topv = sub_p(lv, mul_p(cv, dlv));
                    lemma_mulp_eqp(cv, dlv);
                    lemma_mulp_eqp(lv, iv);
                    lemma_eqp_mul(cv, lv * iv, dlv, dlv);
                    assert((lv * iv) * dlv == lv * (iv * dlv)) by (nonlinear_arith);
                    lemma_mulp_eqp(iv, dlv);
                    lemma_eqp_mul(lv, lv, iv * dlv, 1);
                    assert(lv * 1 == lv) by (nonlinear_arith);
                    // so mul_p(cv, dlv) ~ lv, hence topv ~ 0
                    lemma_subp_eqp(lv, mul_p(cv, dlv));
                    lemma_eqp_sub(lv, lv, mul_p(cv, dlv), lv);
                    lemma_modp_range(lv - mul_p(cv, dlv));
                    lemma_modp_small(0);
                    lemma_eqp_unique(topv, 0);
                    assert(remainder@.last() == 0);
                    // re-establish the division invariant for the updated quotient
                    assert forall|x: int|
                        #![trigger poly_eval(quotient@, x)]
                        eqp(
                            poly_eval(quotient@, x) * poly_eval(dv, x) + poly_eval(remainder@, x),
                            poly_eval(p0, x),
                        ) by {
                        let d_ = poly_eval(dv, x);
                        let pk = pow_p(x, k as nat);
                        let e0 = poly_eval(r0, x);
                        let em = poly_eval(remainder@, x);
                        let q0e = poly_eval(qv0, x);
                        let q1e = poly_eval(quotient@, x);
                        assert(eqp(em, e0 - cv * pk * poly_eval(dv.take(m as int), x)));
                        assert(qv0[k as int] == 0);
                        lemma_eval_update(qv0, k as int, cv, x);
                        assert(0 * pk == 0) by (nonlinear_arith);
                        lemma_modp_small(0);
                        lemma_mulp_eqp(cv, pk);
                        lemma_eqp_mul(q1e, q0e + mul_p(cv, pk), d_, d_);
                        assert((q0e + mul_p(cv, pk)) * d_ == q0e * d_ + mul_p(cv, pk) * d_)
                            by (nonlinear_arith);
                        lemma_eqp_mul(mul_p(cv, pk), cv * pk, d_, d_);
                        assert((cv * pk) * d_ == cv * pk * d_) by (nonlinear_arith);
                        lemma_eqp_add(q0e * d_, q0e * d_, mul_p(cv, pk) * d_, cv * pk * d_);
                        lemma_eqp_add(q1e * d_, q0e * d_ + cv * pk * d_, em, e0 - cv * pk * d_);
                        assert(eqp(poly_eval(qv0, x) * poly_eval(dv, x) + poly_eval(r0, x),
                            poly_eval(p0, x)));
                    }
                }
                let ghost rf = remainder@;
                loop
                    invariant
                        dv == divisor@,
                        poly_wf(remainder@),
                        remainder.0@.len() <= ell,
                        ell >= 1,
                        rf.len() == ell,
                        rf.last() == 0,
                        remainder.0@.len() == ell ==> remainder@ == rf,
                        forall|x: int|
                            #![trigger poly_eval(remainder@, x)]
                            eqp(
                                poly_eval(quotient@, x) * poly_eval(dv, x) + poly_eval(
                                    remainder@,
                                    x,
                                ),
                                poly_eval(p0, x),
                            ),
                    ensures
                        poly_wf(remainder@),
                        remainder.0@.len() < ell,
                        forall|x: int|
                            #![trigger poly_eval(remainder@, x)]
                            eqp(
                                poly_eval(quotient@, x) * poly_eval(dv, x) + poly_eval(
                                    remainder@,
                                    x,
                                ),
                                poly_eval(p0, x),
                            ),
                    decreases remainder.0@.len(),
                {
                    let len = remainder.0.len();
                    if len == 0 {
                        break;
                    }
                    if !s_is_zero(&remainder.0[len - 1]) {
                        proof {
                            assert(remainder@.last() != 0);
                            assert(remainder.0@.len() < ell);
                        }
                        break;
                    }
                    let ghost rb = remainder@;
                    remainder.0.pop();
                    proof {
                        assert(remainder@ =~= rb.drop_last());
                        assert forall|x: int|
                            #![trigger poly_eval(remainder@, x)]
                            eqp(
                                poly_eval(quotient@, x) * poly_eval(dv, x) + poly_eval(
                                    remainder@,
                                    x,
                                ),
                                poly_eval(p0, x),
                            ) by {
                            lemma_eval_drop_last_zero(rb, x);
                            assert(eqp(
                                poly_eval(quotient@, x) * poly_eval(dv, x) + poly_eval(rb, x),
                                poly_eval(p0, x),
                            ));
                        }
                    }
                }
            }
            let ghost remv = if remainder@.len() < m {
                remainder@
            } else {
                Seq::<int>::empty()
            };
            proof {
                if remainder@.len() >= m {
                    assert(poly_is_zero(remainder@));
                    assert forall|x: int|
                        #![trigger poly_eval(quotient@, x)]
                        eqp(
                            poly_eval(quotient@, x) * poly_eval(dv, x) + poly_eval(remv, x),
                            poly_eval(p0, x),
                        ) by {
                        lemma_eval_zero(remainder@, x);
                        assert(poly_eval(remv, x) == 0);
                        assert(eqp(
                            poly_eval(quotient@, x) * poly_eval(dv, x) + poly_eval(remainder@, x),
                            poly_eval(p0, x),
                        ));
                    }
                }
            }
            (quotient, Ghost(remv))
        }
    }

    /// The coefficient of the highest power, if any coefficient exists.
    fn leading_coefficient(&self) -> (r: Option<Scalar>)
        ensures
            (r is None) == (self@.len() == 0),
            r matches Some(s) ==> self@.len() > 0 && scalar_v(s) == self@.last(),
    {
        let n = self.0.len();
        if n == 0 {
            None
        } else {
            let s = &self.0[n - 1];
            Some(*s)
        }
    }
}

/// Division identity: when a polynomial vanishes at `point`, the quotient
/// and remainder that `div` returns for the monic linear divisor
/// `x - point` reconstruct it exactly — the remainder is zero, and
/// `quotient(y) * (y - point)` equals the polynomial's value at every `y`.
pub proof fn lemma_linear_division_identity(q: Seq<int>, rem: Seq<int>, p: Seq<int>, xv: int)
    requires
        poly_wf(rem),
        rem.len() < 2,
        forall|x: int|
            #![trigger poly_eval(q, x)]
            eqp(
                poly_eval(q, x) * poly_eval(seq![sub_p(0, xv), 1int], x) + poly_eval(rem, x),
                poly_eval(p, x),
            ),
        eqp(poly_eval(p, xv), 0),
    ensures
        poly_is_zero(rem),
        forall|y: int|
            #![trigger poly_eval(q, y)]
            eqp(poly_eval(q, y) * (y - xv), poly_eval(p, y)),
{
    lemma_fp_big();
    let dv2 = seq![sub_p(0, xv), 1int];
    assert forall|y: int| #![trigger poly_eval(dv2, y)] eqp(poly_eval(dv2, y), y - xv) by {
        lemma_eval_two_coeffs(sub_p(0, xv), 1, y);
        assert(1 * y == y);
        lemma_subp_eqp(0, xv);
        lemma_eqp_add(sub_p(0, xv), 0 - xv, y, y);
    }
    let qxv = poly_eval(q, xv);
    let dxv = poly_eval(dv2, xv);
    let rxv = poly_eval(rem, xv);
    assert(eqp(qxv * dxv + rxv, poly_eval(p, xv)));
    assert(eqp(dxv, 0));
    lemma_eqp_mul(qxv, qxv, dxv, 0);
    assert(qxv * 0 == 0);
    lemma_eqp_sub(qxv * dxv + rxv, poly_eval(p, xv), qxv * dxv, 0);
    assert(eqp(rxv, 0)) by {
        lemma_eval_bound(p, xv);
        lemma_modp_small(poly_eval(p, xv));
    }
    assert(poly_is_zero(rem)) by {
        if rem.len() == 1 {
            lemma_eval_one_coeff(rem[0], xv);
            assert(rem =~= seq![rem[0]]);
            assert(rxv == modp(rem[0]));
            lemma_modp_small(rem[0]);
            lemma_modp_small(0);
            lemma_eqp_unique(rem[0], 0);
        }
    }
    assert forall|y: int| #![trigger poly_eval(q, y)]
        eqp(poly_eval(q, y) * (y - xv), poly_eval(p, y)) by {
        let qy = poly_eval(q, y);
        let dy = poly_eval(dv2, y);
        lemma_eval_zero(rem, y);
        assert(eqp(qy * dy + poly_eval(rem, y), poly_eval(p, y)));
        assert(eqp(dy, y - xv));
        lemma_eqp_mul(qy, qy, dy, y - xv);
    }
}

} // verus!
