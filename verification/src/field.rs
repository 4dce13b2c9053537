//! Mathematical model of the scalar field: integers modulo the prime order
//! of the pairing-friendly curve's scalar group, together with a dense
//! polynomial evaluation function over that field and the modular-arithmetic
//! lemmas the rest of the crate builds on.
use vstd::prelude::*;

verus! {

use vstd::arithmetic::div_mod::{
    lemma_small_mod, lemma_mod_twice, lemma_mod_bound, lemma_add_mod_noop, lemma_sub_mod_noop,
    lemma_mul_mod_noop_general, lemma_mod_add_multiples_vanish,
};

/// The order of the scalar field: a 255-bit prime, written as
/// `hi * 2^64 * 2^64 + lo` so each literal fits a machine word pair.
pub open spec fn fp() -> int {
    0x73eda753299d7d483339d80809a1d805int * 0x10000000000000000int * 0x10000000000000000int
        + 0x53bda402fffe5bfeffffffff00000001int
}

pub proof fn lemma_fp_big()
    ensures
        fp() > 0xffffffffffffffff,
{
    assert(0x73eda753299d7d483339d80809a1d805int * 0x10000000000000000int * 0x10000000000000000int
        + 0x53bda402fffe5bfeffffffff00000001int > 0xffffffffffffffff) by (nonlinear_arith);
}

/// Reduction of an integer into the field's canonical range `[0, fp())`.
pub open spec fn modp(x: int) -> int {
    x % fp()
}

/// Field addition, multiplication and subtraction on representatives.
pub open spec fn add_p(a: int, b: int) -> int {
    modp(a + b)
}

pub open spec fn mul_p(a: int, b: int) -> int {
    modp(a * b)
}

pub open spec fn sub_p(a: int, b: int) -> int {
    modp(a - b)
}

/// Congruence modulo the field order.
pub open spec fn eqp(a: int, b: int) -> bool {
    modp(a) == modp(b)
}

/// `x^n` reduced into the field.
pub open spec fn pow_p(x: int, n: nat) -> int
    decreases n,
{
    if n == 0 {
        1
    } else {
        mul_p(x, pow_p(x, (n - 1) as nat))
    }
}

/// Evaluation of a dense coefficient sequence (index `i` holds the
/// coefficient of `x^i`) at the point `x`, reduced into the field.
pub open spec fn poly_eval(s: Seq<int>, x: int) -> int
    decreases s.len(),
{
    if s.len() == 0 {
        0
    } else {
        add_p(poly_eval(s.drop_last(), x), mul_p(s.last(), pow_p(x, (s.len() - 1) as nat)))
    }
}

/// Every coefficient lies in the canonical range.
pub open spec fn poly_wf(s: Seq<int>) -> bool {
    forall|i: int| 0 <= i < s.len() ==> 0 <= #[trigger] s[i] < fp()
}

/// The zero polynomial: no coefficient, or all coefficients zero.
pub open spec fn poly_is_zero(s: Seq<int>) -> bool {
    forall|i: int| 0 <= i < s.len() ==> #[trigger] s[i] == 0
}

pub proof fn lemma_modp_range(a: int)
    ensures
        0 <= modp(a) < fp(),
{
    lemma_fp_big();
    lemma_mod_bound(a, fp());
}

pub proof fn lemma_modp_small(a: int)
    requires
        0 <= a < fp(),
    ensures
        modp(a) == a,
{
    lemma_fp_big();
    lemma_small_mod(a as nat, fp() as nat);
}

pub proof fn lemma_modp_eqp(a: int)
    ensures
        eqp(modp(a), a),
{
    lemma_fp_big();
    lemma_mod_twice(a, fp());
}

/// Shifting by the field order does not change the reduction.
pub proof fn lemma_modp_shift(a: int)
    ensures
        modp(a + fp()) == modp(a),
{
    lemma_fp_big();
    lemma_mod_add_multiples_vanish(a, fp());
}

/// Congruence is respected by addition.
pub proof fn lemma_eqp_add(a1: int, b1: int, a2: int, b2: int)
    requires
        eqp(a1, b1),
        eqp(a2, b2),
    ensures
        eqp(a1 + a2, b1 + b2),
{
    lemma_fp_big();
    lemma_add_mod_noop(a1, a2, fp());
    lemma_add_mod_noop(b1, b2, fp());
}

/// Congruence is respected by subtraction.
pub proof fn lemma_eqp_sub(a1: int, b1: int, a2: int, b2: int)
    requires
        eqp(a1, b1),
        eqp(a2, b2),
    ensures
        eqp(a1 - a2, b1 - b2),
{
    lemma_fp_big();
    lemma_sub_mod_noop(a1, a2, fp());
    lemma_sub_mod_noop(b1, b2, fp());
}

/// Congruence is respected by multiplication.
pub proof fn lemma_eqp_mul(a1: int, b1: int, a2: int, b2: int)
    requires
        eqp(a1, b1),
        eqp(a2, b2),
    ensures
        eqp(a1 * a2, b1 * b2),
{
    lemma_fp_big();
    lemma_mul_mod_noop_general(a1, a2, fp());
    lemma_mul_mod_noop_general(b1, b2, fp());
}

/// Two canonical representatives are equal exactly when they are congruent.
pub proof fn lemma_eqp_unique(a: int, b: int)
    requires
        0 <= a < fp(),
        0 <= b < fp(),
        eqp(a, b),
    ensures
        a == b,
{
    lemma_modp_small(a);
    lemma_modp_small(b);
}

/// `add_p`, `sub_p`, `mul_p` are congruent to the raw integer expressions
/// they reduce.
pub proof fn lemma_addp_eqp(a: int, b: int)
    ensures
        eqp(add_p(a, b), a + b),
{
    lemma_modp_eqp(a + b);
}

pub proof fn lemma_subp_eqp(a: int, b: int)
    ensures
        eqp(sub_p(a, b), a - b),
{
    lemma_modp_eqp(a - b);
}

pub proof fn lemma_mulp_eqp(a: int, b: int)
    ensures
        eqp(mul_p(a, b), a * b),
{
    lemma_modp_eqp(a * b);
}

/// `x^(m+n) = x^m * x^n` in the field.
pub proof fn lemma_powp_adds(x: int, m: nat, n: nat)
    ensures
        eqp(pow_p(x, m + n), pow_p(x, m) * pow_p(x, n)),
    decreases m,
{
    if m == 0 {
        assert(1 * pow_p(x, n) == pow_p(x, n)) by (nonlinear_arith);
    } else {
        lemma_powp_adds(x, (m - 1) as nat, n);
        assert(pow_p(x, m + n) == mul_p(x, pow_p(x, (m + n - 1) as nat)));
        lemma_mulp_eqp(x, pow_p(x, (m + n - 1) as nat));
        lemma_eqp_mul(
            x,
            x,
            pow_p(x, (m + n - 1) as nat),
            pow_p(x, (m - 1) as nat) * pow_p(x, n),
        );
        assert(x * (pow_p(x, (m - 1) as nat) * pow_p(x, n)) == (x * pow_p(x, (m - 1) as nat))
            * pow_p(x, n)) by (nonlinear_arith);
        lemma_mulp_eqp(x, pow_p(x, (m - 1) as nat));
        lemma_eqp_mul(
            x * pow_p(x, (m - 1) as nat),
            mul_p(x, pow_p(x, (m - 1) as nat)),
            pow_p(x, n),
            pow_p(x, n),
        );
        assert(mul_p(x, pow_p(x, (m - 1) as nat)) == pow_p(x, m));
    }
}

/// Evaluation lands in the canonical range.
pub proof fn lemma_eval_bound(s: Seq<int>, x: int)
    ensures
        0 <= poly_eval(s, x) < fp(),
{
    lemma_fp_big();
    if s.len() == 0 {
    } else {
        lemma_modp_range(
            poly_eval(s.drop_last(), x) + mul_p(s.last(), pow_p(x, (s.len() - 1) as nat)),
        );
    }
}

/// The zero polynomial evaluates to zero everywhere.
pub proof fn lemma_eval_zero(s: Seq<int>, x: int)
    requires
        poly_is_zero(s),
    ensures
        poly_eval(s, x) == 0,
    decreases s.len(),
{
    lemma_fp_big();
    if s.len() == 0 {
    } else {
        assert(poly_is_zero(s.drop_last()));
        lemma_eval_zero(s.drop_last(), x);
        assert(s.last() == 0);
        assert(0 * pow_p(x, (s.len() - 1) as nat) == 0) by (nonlinear_arith);
        lemma_modp_small(0);
        assert(poly_eval(s, x) == add_p(0, modp(0)));
    }
}

/// Appending a coefficient adds one more monomial to the evaluation.
pub proof fn lemma_eval_take_step(s: Seq<int>, i: int, x: int)
    requires
        0 <= i < s.len(),
    ensures
        poly_eval(s.take(i + 1), x) == add_p(
            poly_eval(s.take(i), x),
            mul_p(s[i], pow_p(x, i as nat)),
        ),
{
    let t = s.take(i + 1);
    assert(t.drop_last() =~= s.take(i));
    assert(t.last() == s[i]);
}

/// A trailing zero coefficient does not change the evaluation.
pub proof fn lemma_eval_drop_last_zero(s: Seq<int>, x: int)
    requires
        s.len() > 0,
        s.last() == 0,
    ensures
        poly_eval(s, x) == poly_eval(s.drop_last(), x),
{
    lemma_fp_big();
    let e = poly_eval(s.drop_last(), x);
    assert(0 * pow_p(x, (s.len() - 1) as nat) == 0) by (nonlinear_arith);
    assert(mul_p(0, pow_p(x, (s.len() - 1) as nat)) == modp(0));
    lemma_modp_small(0);
    lemma_eval_bound(s.drop_last(), x);
    lemma_modp_small(e);
    assert(poly_eval(s, x) == add_p(e, 0));
}

/// A single-coefficient polynomial evaluates to that constant, reduced.
pub proof fn lemma_eval_one_coeff(a: int, x: int)
    ensures
        poly_eval(seq![a], x) == modp(a),
{
    lemma_fp_big();
    let s = seq![a];
    assert(s.len() == 1);
    assert(s.last() == a);
    assert(s.drop_last() =~= Seq::<int>::empty());
    assert(poly_eval(s.drop_last(), x) == 0);
    assert(pow_p(x, 0) == 1);
    assert(mul_p(a, 1) == modp(a)) by {
        assert(a * 1 == a) by (nonlinear_arith);
    }
    lemma_mod_twice(a, fp());
    assert(poly_eval(s, x) == add_p(0, modp(a)));
}

/// A two-coefficient polynomial `[a, b]` evaluates to `a + b*x`.
pub proof fn lemma_eval_two_coeffs(a: int, b: int, x: int)
    ensures
        eqp(poly_eval(seq![a, b], x), a + b * x),
{
    lemma_fp_big();
    let s = seq![a, b];
    assert(s.drop_last() =~= seq![a]);
    lemma_eval_one_coeff(a, x);
    assert(pow_p(x, 1) == mul_p(x, 1));
    assert(mul_p(x, 1) == modp(x)) by {
        assert(x * 1 == x) by (nonlinear_arith);
    }
    lemma_modp_eqp(x);
    lemma_eqp_mul(b, b, modp(x), x);
    lemma_mulp_eqp(b, modp(x));
    lemma_modp_eqp(a);
    lemma_eqp_add(modp(a), a, mul_p(b, modp(x)), b * x);
    lemma_addp_eqp(modp(a), mul_p(b, modp(x)));
    assert(poly_eval(s, x) == add_p(modp(a), mul_p(b, pow_p(x, 1))));
}

/// The plain sum of a coefficient sequence.
pub open spec fn seq_sum(s: Seq<int>) -> int
    decreases s.len(),
{
    if s.len() == 0 {
        0
    } else {
        seq_sum(s.drop_last()) + s.last()
    }
}

/// Powers of one are one in the field.
pub proof fn lemma_pow_one(n: nat)
    ensures
        pow_p(1, n) == 1,
    decreases n,
{
    lemma_fp_big();
    if n == 0 {
    } else {
        lemma_pow_one((n - 1) as nat);
        assert(1 * 1 == 1) by (nonlinear_arith);
        lemma_modp_small(1);
    }
}

/// Evaluating at one sums the coefficients, reduced into the field; in
/// particular a polynomial built from bytes evaluates at one to the sum of
/// its bytes.
pub proof fn lemma_eval_at_one(s: Seq<int>)
    ensures
        poly_eval(s, 1) == modp(seq_sum(s)),
    decreases s.len(),
{
    lemma_fp_big();
    if s.len() == 0 {
        lemma_modp_small(0);
    } else {
        lemma_eval_at_one(s.drop_last());
        lemma_pow_one((s.len() - 1) as nat);
        let e = poly_eval(s.drop_last(), 1);
        let a = s.last();
        assert(a * 1 == a) by (nonlinear_arith);
        assert(mul_p(a, 1) == modp(a));
        assert(poly_eval(s, 1) == add_p(e, modp(a)));
        lemma_modp_eqp(seq_sum(s.drop_last()));
        lemma_modp_eqp(a);
        lemma_eqp_add(e, seq_sum(s.drop_last()), modp(a), a);
        assert(poly_eval(s, 1) == modp(e + modp(a)));
    }
}

/// Replacing the coefficient of `x^j` shifts the evaluation by the
/// difference of the two monomials.
pub proof fn lemma_eval_update(s: Seq<int>, j: int, v: int, x: int)
    requires
        0 <= j < s.len(),
    ensures
        eqp(
            poly_eval(s.update(j, v), x),
            poly_eval(s, x) + mul_p(v, pow_p(x, j as nat)) - mul_p(s[j], pow_p(x, j as nat)),
        ),
    decreases s.len(),
{
    lemma_fp_big();
    let u = s.update(j, v);
    let mv = mul_p(v, pow_p(x, j as nat));
    let ms = mul_p(s[j], pow_p(x, j as nat));
    if j == s.len() - 1 {
        assert(u.drop_last() =~= s.drop_last());
        assert(u.last() == v);
        let e = poly_eval(s.drop_last(), x);
        lemma_addp_eqp(e, mv);
        lemma_addp_eqp(e, ms);
        // add_p(e, mv) ~ e + mv == (e + ms) + mv - ms ~ add_p(e, ms) + mv - ms
        lemma_eqp_sub(add_p(e, ms), e + ms, ms, ms);
        lemma_eqp_add(add_p(e, ms) - ms, e, mv, mv);
    } else {
        assert(u.drop_last() =~= s.drop_last().update(j, v));
        assert(u.last() == s.last());
        lemma_eval_update(s.drop_last(), j, v, x);
        let ed = poly_eval(s.drop_last(), x);
        let eu = poly_eval(u.drop_last(), x);
        let top = mul_p(s.last(), pow_p(x, (s.len() - 1) as nat));
        // eu ~ ed + mv - ms, hence
        // poly_eval(u,x) = add_p(eu, top) ~ eu + top ~ ed + mv - ms + top
        lemma_addp_eqp(eu, top);
        lemma_eqp_add(eu, ed + mv - ms, top, top);
        // poly_eval(s,x) + mv - ms = add_p(ed, top) + mv - ms ~ ed + top + mv - ms
        lemma_addp_eqp(ed, top);
        lemma_eqp_add(add_p(ed, top), ed + top, mv - ms, mv - ms);
    }
}

} // verus!
