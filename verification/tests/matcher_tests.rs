use ark_bls12_381::Fr;
use ark_ec::{AffineCurve, ProjectiveCurve};
use ark_ff::PrimeField;
use ark_serialize::CanonicalSerialize;

use unblind::domain::{construct, evaluate_vanishing, Domain};
use unblind::field::{bytes_equal, fe_from_u64, FieldElement};
use unblind::kzg::{commit, GroupElement};
use unblind::matcher::{find_account, find_account_bytes, Outcome};
use unblind::poly::{build_blinded, evaluate, interpolate};
use unblind::Error;

fn setup_points(count: usize) -> Vec<GroupElement> {
    let g = ark_bls12_381::G1Affine::prime_subgroup_generator();
    let mut points = Vec::new();
    for i in 0..count {
        let p = g.mul(Fr::from((i as u64) + 2).into_repr()).into_affine();
        let mut bytes: Vec<u8> = Vec::new();
        p.serialize_uncompressed(&mut bytes).unwrap();
        points.push(GroupElement { bytes });
    }
    points
}

fn accounts(n: usize) -> Vec<Vec<FieldElement>> {
    let mut accts = Vec::new();
    for k in 0..10u64 {
        let mut a = Vec::new();
        for j in 0..n as u64 {
            a.push(fe_from_u64(1000 * k + j + 1));
        }
        accts.push(a);
    }
    accts
}

struct Scenario {
    dom: Domain,
    accts: Vec<Vec<FieldElement>>,
    setup: Vec<GroupElement>,
    c1: FieldElement,
    c2: FieldElement,
    o1: FieldElement,
    o2: FieldElement,
    target: GroupElement,
}

// Ten synthetic accounts; index 7 is blinded with a known pair and committed
// to produce the target.
fn scenario() -> Scenario {
    let dom = construct(12).unwrap();
    let n = dom.size as usize;
    let accts = accounts(n);
    let setup = setup_points(n + 2);
    let c1 = fe_from_u64(7);
    let c2 = fe_from_u64(11);
    let coeffs7 = interpolate(&dom, &accts[7]);
    let blinded7 = build_blinded(&coeffs7, &fe_from_u64(5), &fe_from_u64(9), n);
    let o1 = evaluate(&blinded7, &c1);
    let o2 = evaluate(&blinded7, &c2);
    let target = commit(&blinded7, &setup);
    Scenario { dom, accts, setup, c1, c2, o1, o2, target }
}

#[test]
fn matcher_finds_index_seven() {
    let s = scenario();
    let r = find_account(&s.accts, &s.setup, &s.c1, &s.c2, &s.o1, &s.o2, &s.target, &s.dom);
    match r.unwrap() {
        Outcome::Found(i, c) => {
            assert_eq!(i, 7);
            assert!(bytes_equal(&c.bytes, &s.target.bytes));
        }
        Outcome::NotFound => panic!("expected a match at index 7"),
    }
}

#[test]
fn matcher_is_deterministic() {
    let s = scenario();
    let r1 = find_account(&s.accts, &s.setup, &s.c1, &s.c2, &s.o1, &s.o2, &s.target, &s.dom);
    let r2 = find_account(&s.accts, &s.setup, &s.c1, &s.c2, &s.o1, &s.o2, &s.target, &s.dom);
    match (r1.unwrap(), r2.unwrap()) {
        (Outcome::Found(i1, g1), Outcome::Found(i2, g2)) => {
            assert_eq!(i1, i2);
            assert_eq!(g1.bytes, g2.bytes);
        }
        _ => panic!("both runs must find the same index"),
    }
}

#[test]
fn matcher_reports_not_found() {
    // A target not derivable from any candidate's blinding: the commitment
    // of an unrelated polynomial.
    let s = scenario();
    let unrelated = vec![fe_from_u64(1), fe_from_u64(1), fe_from_u64(1)];
    let bogus = commit(&unrelated, &s.setup);
    let r = find_account(&s.accts, &s.setup, &s.c1, &s.c2, &s.o1, &s.o2, &bogus, &s.dom);
    match r.unwrap() {
        Outcome::NotFound => {}
        Outcome::Found(i, _) => panic!("false positive at index {}", i),
    }
}

#[test]
fn matcher_rejects_on_domain_challenge() {
    let s = scenario();
    let on_domain = unblind::poly::domain_element(&s.dom, 3);
    let z = evaluate_vanishing(&s.dom, &on_domain);
    assert!(bytes_equal(&z.bytes, &fe_from_u64(0).bytes));
    let r = find_account(
        &s.accts, &s.setup, &on_domain, &s.c2, &s.o1, &s.o2, &s.target, &s.dom,
    );
    assert_eq!(r.unwrap_err(), Error::DegenerateChallenge);
}

#[test]
fn matcher_rejects_equal_challenges() {
    let s = scenario();
    let r = find_account(&s.accts, &s.setup, &s.c1, &s.c1, &s.o1, &s.o2, &s.target, &s.dom);
    assert_eq!(r.unwrap_err(), Error::DivisionByZero);
}

#[test]
fn matcher_rejects_short_setup() {
    let s = scenario();
    let short = setup_points(s.dom.size as usize + 1);
    let r = find_account(&s.accts, &short, &s.c1, &s.c2, &s.o1, &s.o2, &s.target, &s.dom);
    assert_eq!(r.unwrap_err(), Error::DegreeTooLarge);
}

#[test]
fn bytes_entry_finds_index_seven() {
    let s = scenario();
    let setup: Vec<Vec<u8>> = s.setup.iter().map(|g| g.bytes.clone()).collect();
    let accts: Vec<Vec<Vec<u8>>> = s
        .accts
        .iter()
        .map(|a| a.iter().map(|f| f.bytes.clone()).collect())
        .collect();
    let r = find_account_bytes(
        &s.dom,
        &setup,
        &accts,
        &s.c1.bytes,
        &s.c2.bytes,
        &s.o1.bytes,
        &s.o2.bytes,
        &s.target.bytes,
    );
    match r.unwrap() {
        Outcome::Found(i, c) => {
            assert_eq!(i, 7);
            assert_eq!(c.bytes, s.target.bytes);
        }
        Outcome::NotFound => panic!("expected a match at index 7"),
    }
}

#[test]
fn bytes_entry_rejects_short_field_encoding() {
    let s = scenario();
    let setup: Vec<Vec<u8>> = s.setup.iter().map(|g| g.bytes.clone()).collect();
    let accts: Vec<Vec<Vec<u8>>> = Vec::new();
    let short = vec![0u8; 31];
    let r = find_account_bytes(
        &s.dom, &setup, &accts, &short, &s.c2.bytes, &s.o1.bytes, &s.o2.bytes, &s.target.bytes,
    );
    assert_eq!(r.unwrap_err(), Error::LoadError);
}

#[test]
fn bytes_entry_rejects_non_canonical_field() {
    let s = scenario();
    let setup: Vec<Vec<u8>> = s.setup.iter().map(|g| g.bytes.clone()).collect();
    let accts: Vec<Vec<Vec<u8>>> = Vec::new();
    let too_big = vec![0xffu8; 32];
    let r = find_account_bytes(
        &s.dom, &setup, &accts, &too_big, &s.c2.bytes, &s.o1.bytes, &s.o2.bytes, &s.target.bytes,
    );
    assert_eq!(r.unwrap_err(), Error::LoadError);
}

#[test]
fn bytes_entry_rejects_bad_setup_point() {
    let s = scenario();
    let mut setup: Vec<Vec<u8>> = s.setup.iter().map(|g| g.bytes.clone()).collect();
    setup[0] = vec![0xffu8; 96];
    let accts: Vec<Vec<Vec<u8>>> = Vec::new();
    let r = find_account_bytes(
        &s.dom,
        &setup,
        &accts,
        &s.c1.bytes,
        &s.c2.bytes,
        &s.o1.bytes,
        &s.o2.bytes,
        &s.target.bytes,
    );
    assert_eq!(r.unwrap_err(), Error::LoadError);
}

#[test]
fn bytes_entry_rejects_oversized_account() {
    let s = scenario();
    let setup: Vec<Vec<u8>> = s.setup.iter().map(|g| g.bytes.clone()).collect();
    let oversized: Vec<Vec<u8>> = (0..s.dom.size + 1).map(|_| fe_from_u64(1).bytes).collect();
    let accts = vec![oversized];
    let r = find_account_bytes(
        &s.dom,
        &setup,
        &accts,
        &s.c1.bytes,
        &s.c2.bytes,
        &s.o1.bytes,
        &s.o2.bytes,
        &s.target.bytes,
    );
    assert_eq!(r.unwrap_err(), Error::LoadError);
}

#[test]
fn commitment_is_deterministic() {
    let s = scenario();
    let coeffs = interpolate(&s.dom, &s.accts[3]);
    let c1 = commit(&coeffs, &s.setup);
    let c2 = commit(&coeffs, &s.setup);
    assert_eq!(c1.bytes, c2.bytes);
    assert_eq!(c1.bytes.len(), 96);
}
