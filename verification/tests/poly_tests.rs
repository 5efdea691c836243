use unblind::domain::{construct, evaluate_vanishing};
use unblind::field::{fe_equal, fe_from_u64, FieldElement};
use unblind::poly::{build_blinded, domain_element, evaluate, interpolate, mul_by_vanishing, poly_add};

fn fes(vals: &[u64]) -> Vec<FieldElement> {
    vals.iter().map(|&v| fe_from_u64(v)).collect()
}

#[test]
fn evaluate_horner_exact() {
    // 2 + 3 x at x = 5 is 17.
    let p = fes(&[2, 3]);
    let r = evaluate(&p, &fe_from_u64(5));
    assert!(fe_equal(&r, &fe_from_u64(17)));
}

#[test]
fn evaluate_empty_is_zero() {
    let p: Vec<FieldElement> = Vec::new();
    let r = evaluate(&p, &fe_from_u64(5));
    assert!(fe_equal(&r, &fe_from_u64(0)));
}

#[test]
fn poly_add_pads_shorter() {
    // (1 + 2 x) + 3 = 4 + 2 x, worth 24 at x = 10.
    let r = poly_add(&fes(&[1, 2]), &fes(&[3]));
    assert_eq!(r.len(), 2);
    let v = evaluate(&r, &fe_from_u64(10));
    assert!(fe_equal(&v, &fe_from_u64(24)));
}

#[test]
fn mul_by_vanishing_is_vanishing_times_poly() {
    // 1 * (x^2 - 1) at x = 3 is 8.
    let r = mul_by_vanishing(&fes(&[1]), 2);
    assert_eq!(r.len(), 3);
    let v = evaluate(&r, &fe_from_u64(3));
    assert!(fe_equal(&v, &fe_from_u64(8)));
}

#[test]
fn vanishing_exact_value() {
    // x^4 - 1 at x = 2 is 15.
    let dom = construct(4).unwrap();
    assert_eq!(dom.size, 4);
    let v = evaluate_vanishing(&dom, &fe_from_u64(2));
    assert!(fe_equal(&v, &fe_from_u64(15)));
}

#[test]
fn vanishing_zero_on_domain() {
    let dom = construct(4).unwrap();
    for i in 0..4u64 {
        let x = domain_element(&dom, i);
        let v = evaluate_vanishing(&dom, &x);
        assert!(fe_equal(&v, &fe_from_u64(0)));
    }
}

#[test]
fn blinded_agrees_with_account_on_domain() {
    // On-domain invariance: the blinded polynomial reproduces the account
    // vector at every domain element, whatever blinding pair is used.
    let dom = construct(4).unwrap();
    let acct = fes(&[10, 20, 30, 40]);
    let coeffs = interpolate(&dom, &acct);
    let blinded = build_blinded(&coeffs, &fe_from_u64(3), &fe_from_u64(4), 4);
    assert_eq!(blinded.len(), 6);
    for i in 0..4u64 {
        let x = domain_element(&dom, i);
        let v = evaluate(&blinded, &x);
        assert!(fe_equal(&v, &acct[i as usize]));
    }
    // Off the domain the blinding shows: at x = 2 the blinded value differs
    // from the bare candidate's value there.
    let x = fe_from_u64(2);
    let on_candidate = evaluate(&coeffs, &x);
    let on_blinded = evaluate(&blinded, &x);
    assert!(!fe_equal(&on_candidate, &on_blinded));
}

#[test]
fn construct_rounds_up_to_power_of_two() {
    assert_eq!(construct(1).unwrap().size, 1);
    assert_eq!(construct(12).unwrap().size, 16);
    assert_eq!(construct(1000).unwrap().size, 1024);
    assert_eq!(construct(1 << 32).unwrap().size, 1 << 32);
    assert!(construct((1u64 << 32) + 1).is_err());
}
