//! Trusted boundary to the elliptic-curve backend.
//!
//! The curve groups and their pairing are modelled through discrete
//! logarithms: `scalar_v` gives the canonical representative of a field
//! element, and `g1_v`, `g2_v`, `gt_v` give the exponent of a group element
//! with respect to the fixed generator of its (prime-order, cyclic) group.
//! Every contract in this file states, over those views, what the backend's
//! documented field and group laws guarantee; nothing here is proved.
use vstd::prelude::*;

use blstrs::{pairing, G1Projective, G2Projective, Gt, Scalar};
use group::ff::Field;
use group::{Curve, Group};

use crate::field::{add_p, fp, mul_p, sub_p};

verus! {

#[verifier::external_type_specification]
#[verifier::external_body]
pub struct ExScalar(Scalar);

#[verifier::external_type_specification]
#[verifier::external_body]
pub struct ExG1Projective(G1Projective);

#[verifier::external_type_specification]
#[verifier::external_body]
pub struct ExG2Projective(G2Projective);

#[verifier::external_type_specification]
#[verifier::external_body]
pub struct ExGt(Gt);

/// The canonical representative of a scalar field element, in `[0, fp())`.
pub uninterp spec fn scalar_v(s: Scalar) -> int;

/// The discrete logarithm of a first-group element with respect to the
/// group's fixed generator, in `[0, fp())`.
pub uninterp spec fn g1_v(g: G1Projective) -> int;

/// The discrete logarithm of a second-group element with respect to the
/// group's fixed generator, in `[0, fp())`.
pub uninterp spec fn g2_v(h: G2Projective) -> int;

/// The discrete logarithm of a target-group element with respect to the
/// pairing of the two fixed generators, in `[0, fp())`.
pub uninterp spec fn gt_v(t: Gt) -> int;

/// The multi-scalar multiplication `sum points[i] * scalars[i]`, expressed
/// on the discrete logarithms.
pub open spec fn msm1_v(ps: Seq<G1Projective>, ss: Seq<Scalar>) -> int
    decreases ps.len(),
{
    if ps.len() == 0 || ss.len() == 0 {
        0
    } else {
        add_p(msm1_v(ps.drop_last(), ss.drop_last()), mul_p(g1_v(ps.last()), scalar_v(ss.last())))
    }
}

/// Relies on `blstrs::Scalar::from(u64)`: the canonical embedding of a
/// 64-bit integer into the field, which is smaller than the field order.
#[verifier::external_body]
pub(crate) fn s_from_u64(x: u64) -> (r: Scalar)
    ensures
        0 <= scalar_v(r) < fp(),
        scalar_v(r) == x,
{
    Scalar::from(x)
}

/// Relies on `Add for &Scalar` (blstrs): field addition modulo the order.
#[verifier::external_body]
pub(crate) fn s_add(a: &Scalar, b: &Scalar) -> (r: Scalar)
    ensures
        0 <= scalar_v(r) < fp(),
        scalar_v(r) == add_p(scalar_v(*a), scalar_v(*b)),
{
    a + b
}

/// Relies on `Sub for &Scalar` (blstrs): field subtraction modulo the order.
#[verifier::external_body]
pub(crate) fn s_sub(a: &Scalar, b: &Scalar) -> (r: Scalar)
    ensures
        0 <= scalar_v(r) < fp(),
        scalar_v(r) == sub_p(scalar_v(*a), scalar_v(*b)),
{
    a - b
}

/// Relies on `Mul for &Scalar` (blstrs): field multiplication modulo the
/// order.
#[verifier::external_body]
pub(crate) fn s_mul(a: &Scalar, b: &Scalar) -> (r: Scalar)
    ensures
        0 <= scalar_v(r) < fp(),
        scalar_v(r) == mul_p(scalar_v(*a), scalar_v(*b)),
{
    a * b
}

/// Relies on `Neg for &Scalar` (blstrs): the additive inverse in the field.
#[verifier::external_body]
pub(crate) fn s_neg(a: &Scalar) -> (r: Scalar)
    ensures
        0 <= scalar_v(r) < fp(),
        scalar_v(r) == sub_p(0, scalar_v(*a)),
{
    -a
}

/// Relies on `ff::Field::invert` for `blstrs::Scalar`: the multiplicative
/// inverse, which exists exactly for non-zero field elements.
#[verifier::external_body]
pub(crate) fn s_invert(a: &Scalar) -> (r: Option<Scalar>)
    ensures
        (r is None) == (scalar_v(*a) == 0),
        r matches Some(inv) ==> 0 <= scalar_v(inv) < fp() && mul_p(scalar_v(inv), scalar_v(*a))
            == 1,
{
    Option::from(a.invert())
}

/// Relies on `ff::Field::is_zero` for `blstrs::Scalar`: the test against the
/// field's zero element.
#[verifier::external_body]
pub(crate) fn s_is_zero(a: &Scalar) -> (r: bool)
    ensures
        r == (scalar_v(*a) == 0),
{
    bool::from(a.is_zero())
}

/// Relies on `group::Group::generator` for `G1Projective`: the fixed
/// generator, whose discrete logarithm with respect to itself is one.
#[verifier::external_body]
pub(crate) fn g1_generator() -> (r: G1Projective)
    ensures
        g1_v(r) == 1,
{
    G1Projective::generator()
}

/// Relies on `Add for &G1Projective` (blstrs): the group law, which adds
/// discrete logarithms.
#[verifier::external_body]
pub(crate) fn g1_add(a: &G1Projective, b: &G1Projective) -> (r: G1Projective)
    ensures
        0 <= g1_v(r) < fp(),
        g1_v(r) == add_p(g1_v(*a), g1_v(*b)),
{
    a + b
}

/// Relies on `Mul<&Scalar> for &G1Projective` (blstrs): scalar
/// multiplication, which multiplies the discrete logarithm.
#[verifier::external_body]
pub(crate) fn g1_mul(g: &G1Projective, s: &Scalar) -> (r: G1Projective)
    ensures
        0 <= g1_v(r) < fp(),
        g1_v(r) == mul_p(g1_v(*g), scalar_v(*s)),
{
    g * s
}

/// Relies on `group::Group::identity` for `G1Projective`: the neutral
/// element, whose discrete logarithm is zero.
#[verifier::external_body]
pub(crate) fn g1_identity() -> (r: G1Projective)
    ensures
        g1_v(r) == 0,
{
    G1Projective::identity()
}

/// Relies on `G1Projective::multi_exp` (blstrs): Pippenger
/// multi-scalar-multiplication computing `sum points[i] * scalars[i]`.
/// The slices must not be empty: the underlying routine indexes the first
/// point unconditionally.
#[verifier::external_body]
pub(crate) fn g1_msm(points: &Vec<G1Projective>, scalars: &Vec<Scalar>) -> (r: G1Projective)
    requires
        points@.len() == scalars@.len(),
        points@.len() > 0,
    ensures
        0 <= g1_v(r) < fp(),
        g1_v(r) == msm1_v(points@, scalars@),
{
    G1Projective::multi_exp(points.as_slice(), scalars.as_slice())
}

/// Relies on `group::Group::generator` for `G2Projective`: the fixed
/// generator of the second group.
#[verifier::external_body]
pub(crate) fn g2_generator() -> (r: G2Projective)
    ensures
        g2_v(r) == 1,
{
    G2Projective::generator()
}

/// Relies on `Add for &G2Projective` (blstrs): the group law, which adds
/// discrete logarithms.
#[verifier::external_body]
pub(crate) fn g2_add(a: &G2Projective, b: &G2Projective) -> (r: G2Projective)
    ensures
        0 <= g2_v(r) < fp(),
        g2_v(r) == add_p(g2_v(*a), g2_v(*b)),
{
    a + b
}

/// Relies on `Mul<&Scalar> for &G2Projective` (blstrs): scalar
/// multiplication, which multiplies the discrete logarithm.
#[verifier::external_body]
pub(crate) fn g2_mul(h: &G2Projective, s: &Scalar) -> (r: G2Projective)
    ensures
        0 <= g2_v(r) < fp(),
        g2_v(r) == mul_p(g2_v(*h), scalar_v(*s)),
{
    h * s
}

/// Relies on `blstrs::pairing` being bilinear and non-degenerate: the
/// pairing of two elements is the pairing of the generators raised to the
/// product of the discrete logarithms. `Curve::to_affine` only changes the
/// point's representation.
#[verifier::external_body]
pub(crate) fn pair(p: &G1Projective, q: &G2Projective) -> (r: Gt)
    ensures
        0 <= gt_v(r) < fp(),
        gt_v(r) == mul_p(g1_v(*p), g2_v(*q)),
{
    pairing(&p.to_affine(), &q.to_affine())
}

/// Relies on `PartialEq for Gt` (blstrs) and on the target group being
/// cyclic of prime order: two elements are equal exactly when their
/// discrete logarithms agree.
#[verifier::external_body]
pub(crate) fn gt_eq(a: &Gt, b: &Gt) -> (r: bool)
    ensures
        r == (gt_v(*a) == gt_v(*b)),
{
    a == b
}

/// Relies on `rand::random`: a sample from the thread-local secure
/// generator. Nothing is promised of the value.
#[verifier::external_body]
pub(crate) fn random_u64() -> u64 {
    rand::random::<u64>()
}

} // verus!
