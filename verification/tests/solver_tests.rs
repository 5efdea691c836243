use unblind::domain::{construct, evaluate_vanishing};
use unblind::field::{fe_equal, fe_from_u64, FieldElement};
use unblind::poly::{build_blinded, domain_element, evaluate};
use unblind::solver::solve_blinding_factors;
use unblind::Error;

fn coeffs(vals: &[u64]) -> Vec<FieldElement> {
    vals.iter().map(|&v| fe_from_u64(v)).collect()
}

#[test]
fn round_trip_recovers_blinding() {
    // Blind a candidate with a known degree-one polynomial, open the blinded
    // polynomial at two distinct off-domain challenges, and solve: exactly
    // the known pair comes back.
    let dom = construct(4).unwrap();
    let p = coeffs(&[1, 2, 3]);
    let b0 = fe_from_u64(5);
    let b1 = fe_from_u64(9);
    let blinded = build_blinded(&p, &b0, &b1, dom.size as usize);
    let c1 = fe_from_u64(7);
    let c2 = fe_from_u64(11);
    let o1 = evaluate(&blinded, &c1);
    let o2 = evaluate(&blinded, &c2);
    let z1 = evaluate_vanishing(&dom, &c1);
    let z2 = evaluate_vanishing(&dom, &c2);
    let (r0, r1) = solve_blinding_factors(&c1, &c2, &o1, &o2, &p, &z1, &z2).unwrap();
    assert!(fe_equal(&r0, &b0));
    assert!(fe_equal(&r1, &b1));
}

#[test]
fn challenge_on_domain_rejected() {
    // A challenge that is a domain element makes the vanishing value zero,
    // which the solver must refuse rather than divide by.
    let dom = construct(4).unwrap();
    let on_domain = domain_element(&dom, 1);
    let z1 = evaluate_vanishing(&dom, &on_domain);
    assert!(fe_equal(&z1, &fe_from_u64(0)));
    let c2 = fe_from_u64(11);
    let z2 = evaluate_vanishing(&dom, &c2);
    let p = coeffs(&[1, 2, 3]);
    let r = solve_blinding_factors(
        &on_domain,
        &c2,
        &fe_from_u64(1),
        &fe_from_u64(2),
        &p,
        &z1,
        &z2,
    );
    assert_eq!(r.unwrap_err(), Error::DegenerateChallenge);
}

#[test]
fn equal_challenges_rejected() {
    let dom = construct(4).unwrap();
    let c = fe_from_u64(7);
    let z = evaluate_vanishing(&dom, &c);
    let p = coeffs(&[1, 2, 3]);
    let r = solve_blinding_factors(&c, &c, &fe_from_u64(1), &fe_from_u64(2), &p, &z, &z);
    assert_eq!(r.unwrap_err(), Error::DivisionByZero);
}

#[test]
fn solver_is_deterministic() {
    let dom = construct(4).unwrap();
    let p = coeffs(&[4, 4, 4, 4]);
    let c1 = fe_from_u64(6);
    let c2 = fe_from_u64(13);
    let z1 = evaluate_vanishing(&dom, &c1);
    let z2 = evaluate_vanishing(&dom, &c2);
    let o1 = fe_from_u64(100);
    let o2 = fe_from_u64(200);
    let (a0, a1) = solve_blinding_factors(&c1, &c2, &o1, &o2, &p, &z1, &z2).unwrap();
    let (b0, b1) = solve_blinding_factors(&c1, &c2, &o1, &o2, &p, &z1, &z2).unwrap();
    assert!(fe_equal(&a0, &b0));
    assert!(fe_equal(&a1, &b1));
}
