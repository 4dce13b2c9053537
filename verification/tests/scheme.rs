use blstrs::Scalar;

use pcs::pcs::{Error, GenericPolynomialCommitment, PolynomialCommitment};
use pcs::polynomials::Polynomial;

fn scalars(values: &[u64]) -> Vec<Scalar> {
    values.iter().map(|v| Scalar::from(*v)).collect()
}

#[test]
fn commit_before_setup_is_refused() {
    let scheme = GenericPolynomialCommitment::new();
    let p = Polynomial::new(&scalars(&[1, 2, 3]));
    assert_eq!(scheme.commit(&p), Err(Error::SetupIncomplete));
}

#[test]
fn commit_with_wrong_degree_is_refused() {
    let mut scheme = GenericPolynomialCommitment::new();
    let params = scheme.setup(4);
    assert_eq!(params.gs.len(), 4);
    assert_eq!(params.hs.len(), 4);
    let too_short = Polynomial::new(&scalars(&[1, 2, 3]));
    assert_eq!(scheme.commit(&too_short), Err(Error::IncorrectDegree));
    let too_long = Polynomial::new(&scalars(&[1, 2, 3, 4, 5]));
    assert_eq!(scheme.commit(&too_long), Err(Error::IncorrectDegree));
    let exact = Polynomial::new(&scalars(&[1, 2, 3, 4]));
    assert!(scheme.commit(&exact).is_ok());
}

#[test]
fn evaluate_small_polynomial() {
    // p(x) = 3 + x, so p(2) = 5
    let p = Polynomial::new(&scalars(&[3, 1]));
    assert_eq!(p.evaluate(Scalar::from(2)), Scalar::from(5));
    // p(x) = 1 + 2x + 3x^2, so p(2) = 17
    let q = Polynomial::new(&scalars(&[1, 2, 3]));
    assert_eq!(q.evaluate(Scalar::from(2)), Scalar::from(17));
}

#[test]
fn evaluate_empty_polynomial_is_zero() {
    let p = Polynomial::new(&[]);
    assert_eq!(p.evaluate(Scalar::from(7)), Scalar::from(0));
}

#[test]
fn bytes_evaluated_at_one_sum_up() {
    let bytes = [1u8, 2, 3, 250, 0, 17];
    let p = Polynomial::new_from_bytes(&bytes);
    let expected: u64 = bytes.iter().map(|b| *b as u64).sum();
    assert_eq!(p.evaluate(Scalar::from(1)), Scalar::from(expected));
}

#[test]
fn bytes_keep_their_order() {
    // p(x) = 1 + 2x, so p(2) = 5
    let p = Polynomial::new_from_bytes(&[1u8, 2]);
    assert_eq!(p.evaluate(Scalar::from(2)), Scalar::from(5));
}

#[test]
fn division_identity_for_vanishing_polynomial() {
    // p(x) = (x - 5)(x + 2) = x^2 - 3x - 10 vanishes at 5
    let p = Polynomial::new(&[
        -Scalar::from(10),
        -Scalar::from(3),
        Scalar::from(1),
    ]);
    assert_eq!(p.evaluate(Scalar::from(5)), Scalar::from(0));
    let divisor = Polynomial::new(&[-Scalar::from(5), Scalar::from(1)]);
    let (quotient, _remainder) = p.clone().div(divisor);
    assert_eq!(quotient.0.len(), 2);
    for y in [0u64, 1, 2, 7, 11, 12345] {
        let ys = Scalar::from(y);
        let lhs = quotient.evaluate(ys) * (ys - Scalar::from(5));
        assert_eq!(lhs, p.evaluate(ys));
    }
}

#[test]
fn division_by_longer_divisor_gives_zero_quotient() {
    let p = Polynomial::new(&scalars(&[4, 7]));
    let divisor = Polynomial::new(&scalars(&[1, 2, 3]));
    let (quotient, _remainder) = p.div(divisor);
    assert_eq!(quotient.0.len(), 1);
    assert_eq!(quotient.0[0], Scalar::from(0));
}

#[test]
fn concrete_commit_open_verify_scenario() {
    let mut scheme = GenericPolynomialCommitment::new();
    let params = scheme.setup(4);
    assert_eq!(params.gs.len(), 4);
    // p(x) = 3 + x, padded to the degree bound
    let p = Polynomial::new(&scalars(&[3, 1, 0, 0]));
    let commitment = scheme.commit(&p).unwrap();
    let (witness, evaluation) = scheme.create_witness(p, Scalar::from(2));
    assert_eq!(evaluation, Scalar::from(5));
    assert!(scheme.verify_evaluation(commitment, Scalar::from(2), Scalar::from(5), witness));
    assert!(!scheme.verify_evaluation(commitment, Scalar::from(2), Scalar::from(6), witness));
}

#[test]
fn completeness_for_several_polynomials_and_points() {
    let mut scheme = GenericPolynomialCommitment::new();
    scheme.setup(5);
    let polys = [
        scalars(&[0, 1, 0, 0, 0]),
        scalars(&[9, 8, 7, 6, 5]),
        scalars(&[1, 0, 0, 0, 2]),
    ];
    for coeffs in polys {
        let p = Polynomial::new(&coeffs);
        let commitment = scheme.commit(&p).unwrap();
        for x in [0u64, 1, 3, 1u64 << 40] {
            let xs = Scalar::from(x);
            let (witness, evaluation) = scheme.create_witness(p.clone(), xs);
            assert_eq!(evaluation, p.evaluate(xs));
            assert!(scheme.verify_evaluation(commitment, xs, evaluation, witness));
        }
    }
}

#[test]
fn perturbed_evaluation_is_rejected() {
    let mut scheme = GenericPolynomialCommitment::new();
    scheme.setup(3);
    let p = Polynomial::new(&scalars(&[2, 0, 1]));
    let commitment = scheme.commit(&p).unwrap();
    let x = Scalar::from(9);
    let (witness, evaluation) = scheme.create_witness(p, x);
    assert!(scheme.verify_evaluation(commitment, x, evaluation, witness));
    for delta in [1u64, 2, 17, u64::MAX] {
        let wrong = evaluation + Scalar::from(delta);
        assert!(!scheme.verify_evaluation(commitment, x, wrong, witness));
    }
    let wrong_by_one_negative = evaluation - Scalar::from(1);
    assert!(!scheme.verify_evaluation(commitment, x, wrong_by_one_negative, witness));
}

#[test]
fn commit_to_empty_polynomial_under_empty_parameters() {
    let mut scheme = GenericPolynomialCommitment::new();
    let params = scheme.setup(0);
    assert_eq!(params.gs.len(), 0);
    assert_eq!(params.hs.len(), 0);
    let p = Polynomial::new(&[]);
    assert!(scheme.commit(&p).is_ok());
}

#[test]
fn setup_replaces_previous_parameters() {
    let mut scheme = GenericPolynomialCommitment::new();
    scheme.setup(2);
    let p3 = Polynomial::new(&scalars(&[1, 2, 3]));
    assert_eq!(scheme.commit(&p3), Err(Error::IncorrectDegree));
    scheme.setup(3);
    assert!(scheme.commit(&p3).is_ok());
}
