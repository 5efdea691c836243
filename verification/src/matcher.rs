//! The candidate matcher: for each account in index order, interpolate its
//! evaluation vector, recover the blinding polynomial consistent with the
//! shared challenges and openings, re-blind, commit, and compare against the
//! target commitment; the first (lowest-index) match is the answer.
use vstd::prelude::*;

use crate::domain::{evaluate_vanishing, Domain};
use crate::field::{
    bytes_equal, bytes_val, copy_bytes, fe_equal, fe_zero, fpow, fr_from_bytes, fr_order, fsub,
    lemma_fsub_zero_iff, FieldElement,
};
use crate::kzg::{
    all_points_wf, commit, commit_of, decodes_to_point, group_bytes, point_from_bytes, GroupElement,
};
use crate::poly::{
    all_reduced, all_wf, build_blinded, element_of, fe_vals, interpolate, interpolation_of,
    lemma_blinded_on_domain, poly_eval,
};
use crate::solver::{solution_b0, solution_b1, solve_blinding_factors};
use crate::Error;

verus! {

/// The result of the exhaustive search: the lowest matching index together
/// with its recomputed commitment, or the report that no candidate matches.
#[derive(Debug)]
pub enum Outcome {
    Found(usize, GroupElement),
    NotFound,
}

/// The coefficients of the blinded polynomial derived for one candidate:
/// interpolate the account vector, solve for the blinding pair against the
/// vanishing values at the challenges, and add the scaled blinding.
pub open spec fn blinded_coeffs_of(
    acct: Seq<nat>,
    n: nat,
    c1: nat,
    c2: nat,
    o1: nat,
    o2: nat,
) -> Seq<nat> {
    let p = interpolation_of(acct, n);
    let z1 = fsub(fpow(c1, n), 1);
    let z2 = fsub(fpow(c2, n), 1);
    crate::poly::blinded_vals(
        p,
        solution_b0(p, c1, c2, o1, o2, z1, z2),
        solution_b1(p, c1, c2, o1, o2, z1, z2),
        n,
    )
}

/// The commitment that one candidate's blinded polynomial produces.
pub open spec fn cand_commit(
    acct: Seq<nat>,
    n: nat,
    c1: nat,
    c2: nat,
    o1: nat,
    o2: nat,
    setup: Seq<Seq<u8>>,
) -> Seq<u8> {
    commit_of(blinded_coeffs_of(acct, n, c1, c2, o1, o2), setup)
}

/// The commitments of all candidates, in index order.
pub open spec fn all_commitments(
    accts: Seq<Vec<FieldElement>>,
    n: nat,
    c1: nat,
    c2: nat,
    o1: nat,
    o2: nat,
    setup: Seq<Seq<u8>>,
) -> Seq<Seq<u8>> {
    Seq::new(accts.len(), |j: int| cand_commit(fe_vals(accts[j]@), n, c1, c2, o1, o2, setup))
}

/// The outcome is correct for the given candidate commitments and target: a
/// found index carries the first commitment equal to the target, and
/// `NotFound` means no commitment equals it.
pub open spec fn search_outcome_ok(r: Outcome, comms: Seq<Seq<u8>>, target: Seq<u8>) -> bool {
    match r {
        Outcome::Found(i, g) => i < comms.len() && g.bytes@ == comms[i as int] && comms[i as int]
            == target && (forall|j: int| 0 <= j < i ==> comms[j] != target),
        Outcome::NotFound => forall|j: int| 0 <= j < comms.len() ==> comms[j] != target,
    }
}

/// The search outcome is a function of the candidate commitments and the
/// target alone: any two correct outcomes carry the same index and the same
/// commitment, and a found match excludes `NotFound`.
pub proof fn lemma_search_deterministic(
    r1: Outcome,
    r2: Outcome,
    comms: Seq<Seq<u8>>,
    target: Seq<u8>,
)
    requires
        search_outcome_ok(r1, comms, target),
        search_outcome_ok(r2, comms, target),
    ensures
        match (r1, r2) {
            (Outcome::Found(i1, g1), Outcome::Found(i2, g2)) => i1 == i2 && g1.bytes@ == g2.bytes@,
            (Outcome::NotFound, Outcome::NotFound) => true,
            _ => false,
        },
{
    match (r1, r2) {
        (Outcome::Found(i1, g1), Outcome::Found(i2, g2)) => {
            if i1 < i2 {
                assert(comms[i1 as int] != target);
            }
            if i2 < i1 {
                assert(comms[i2 as int] != target);
            }
        },
        (Outcome::Found(i1, g1), Outcome::NotFound) => {
            assert(comms[i1 as int] == target);
        },
        (Outcome::NotFound, Outcome::Found(i2, g2)) => {
            assert(comms[i2 as int] == target);
        },
        (Outcome::NotFound, Outcome::NotFound) => {},
    }
}

/// Interpolates one account vector and re-blinds it with the recovered
/// blinding polynomial. On every domain element the result evaluates to the
/// account's original entry.
pub fn blinded_account_poly(
    dom: &Domain,
    acct: &Vec<FieldElement>,
    cha1: &FieldElement,
    cha2: &FieldElement,
    opn1: &FieldElement,
    opn2: &FieldElement,
    van1: &FieldElement,
    van2: &FieldElement,
) -> (r: Result<Vec<FieldElement>, Error>)
    requires
        dom.wf(),
        2 <= dom.size,
        dom.size + 2 <= usize::MAX,
        acct@.len() == dom.size,
        all_wf(acct@),
        cha1.wf(),
        cha2.wf(),
        opn1.wf(),
        opn2.wf(),
        van1.wf(),
        van2.wf(),
        van1.val() == fsub(fpow(cha1.val(), dom.size as nat), 1),
        van2.val() == fsub(fpow(cha2.val(), dom.size as nat), 1),
    ensures
        r is Err <==> van1.val() == 0 || van2.val() == 0 || cha1.val() == cha2.val(),
        r == Err::<Vec<FieldElement>, Error>(Error::DegenerateChallenge) <==> (van1.val() == 0
            || van2.val() == 0),
        r == Err::<Vec<FieldElement>, Error>(Error::DivisionByZero) <==> (van1.val() != 0
            && van2.val() != 0 && cha1.val() == cha2.val()),
        r matches Ok(b) ==> all_wf(b@) && b@.len() == dom.size + 2 && fe_vals(b@)
            == blinded_coeffs_of(
            fe_vals(acct@),
            dom.size as nat,
            cha1.val(),
            cha2.val(),
            opn1.val(),
            opn2.val(),
        ),
        r matches Ok(b) ==> forall|i: int|
            0 <= i < dom.size ==> poly_eval(
                fe_vals(b@),
                #[trigger] element_of(dom.size as nat, i as nat),
            ) == fe_vals(acct@)[i],
{
    let n: usize = dom.size as usize;
    let coeffs = interpolate(dom, acct);
    let sol = solve_blinding_factors(cha1, cha2, opn1, opn2, &coeffs, van1, van2);
    match sol {
        Ok((b0, b1)) => {
            let blinded = build_blinded(&coeffs, &b0, &b1, n);
            proof {
                let nn = dom.size as nat;
                assert(all_reduced(fe_vals(coeffs@)));
                assert forall|i: int|
                    0 <= i < dom.size implies poly_eval(
                    fe_vals(blinded@),
                    #[trigger] element_of(nn, i as nat),
                ) == fe_vals(acct@)[i] by {
                    let x = element_of(nn, i as nat);
                    lemma_fsub_zero_iff(1, 1);
                    lemma_blinded_on_domain(fe_vals(coeffs@), b0.val(), b1.val(), nn, x);
                }
            }
            Ok(blinded)
        },
        Err(e) => Err(e),
    }
}

/// Searches the candidates in strictly ascending index order for the one
/// whose re-blinded polynomial commits to the target, and reports the first
/// match with its commitment, or `NotFound` after exhausting them all.
pub fn find_account(
    accts: &Vec<Vec<FieldElement>>,
    setup: &Vec<GroupElement>,
    cha1: &FieldElement,
    cha2: &FieldElement,
    opn1: &FieldElement,
    opn2: &FieldElement,
    target: &GroupElement,
    dom: &Domain,
) -> (r: Result<Outcome, Error>)
    requires
        dom.wf(),
        2 <= dom.size,
        dom.size + 2 <= usize::MAX,
        cha1.wf(),
        cha2.wf(),
        opn1.wf(),
        opn2.wf(),
        forall|i: int| 0 <= i < accts@.len() ==> all_wf(#[trigger] accts@[i]@) && accts@[i]@.len() == dom.size,
        all_points_wf(setup@),
    ensures
        ({
            let n = dom.size as nat;
            let z1 = fsub(fpow(cha1.val(), n), 1);
            let z2 = fsub(fpow(cha2.val(), n), 1);
            &&& (r == Err::<Outcome, Error>(Error::DegenerateChallenge) <==> (z1 == 0 || z2 == 0))
            &&& (r == Err::<Outcome, Error>(Error::DivisionByZero) <==> (z1 != 0 && z2 != 0
                && cha1.val() == cha2.val()))
            &&& (r == Err::<Outcome, Error>(Error::DegreeTooLarge) <==> (z1 != 0 && z2 != 0
                && cha1.val() != cha2.val() && setup@.len() < n + 2))
            &&& (r is Ok <==> (z1 != 0 && z2 != 0 && cha1.val() != cha2.val() && setup@.len() >= n
                + 2))
            &&& (r matches Ok(out) ==> search_outcome_ok(
                out,
                all_commitments(
                    accts@,
                    n,
                    cha1.val(),
                    cha2.val(),
                    opn1.val(),
                    opn2.val(),
                    group_bytes(setup@),
                ),
                target.bytes@,
            ))
        }),
{
    let n: usize = dom.size as usize;
    let z1 = evaluate_vanishing(dom, cha1);
    let z2 = evaluate_vanishing(dom, cha2);
    let zero = fe_zero();
    if fe_equal(&z1, &zero) || fe_equal(&z2, &zero) {
        return Err(Error::DegenerateChallenge);
    }
    if fe_equal(cha1, cha2) {
        return Err(Error::DivisionByZero);
    }
    if setup.len() < n + 2 {
        return Err(Error::DegreeTooLarge);
    }
    let ghost comms = all_commitments(
        accts@,
        dom.size as nat,
        cha1.val(),
        cha2.val(),
        opn1.val(),
        opn2.val(),
        group_bytes(setup@),
    );
    let mut idx: usize = 0;
    while idx < accts.len()
        invariant
            idx <= accts@.len(),
            dom.wf(),
            2 <= dom.size,
            dom.size + 2 <= usize::MAX,
            n == dom.size,
            cha1.wf(),
            cha2.wf(),
            opn1.wf(),
            opn2.wf(),
            forall|i: int|
                0 <= i < accts@.len() ==> all_wf(#[trigger] accts@[i]@) && accts@[i]@.len()
                    == dom.size,
            all_points_wf(setup@),
            setup@.len() >= n + 2,
            z1.wf(),
            z2.wf(),
            z1.val() == fsub(fpow(cha1.val(), dom.size as nat), 1),
            z2.val() == fsub(fpow(cha2.val(), dom.size as nat), 1),
            z1.val() != 0,
            z2.val() != 0,
            cha1.val() != cha2.val(),
            comms == all_commitments(
                accts@,
                dom.size as nat,
                cha1.val(),
                cha2.val(),
                opn1.val(),
                opn2.val(),
                group_bytes(setup@),
            ),
            forall|j: int| 0 <= j < idx ==> comms[j] != target.bytes@,
        decreases accts@.len() - idx,
    {
        let blinded = match blinded_account_poly(
            dom,
            &accts[idx],
            cha1,
            cha2,
            opn1,
            opn2,
            &z1,
            &z2,
        ) {
            Ok(b) => b,
            Err(_) => {
                proof {
                    assert(false);
                }
                return Err(Error::DivisionByZero);
            },
        };
        let c = commit(&blinded, setup);
        proof {
            assert(c.bytes@ == comms[idx as int]);
        }
        if bytes_equal(&c.bytes, &target.bytes) {
            return Ok(Outcome::Found(idx, c));
        }
        idx = idx + 1;
    }
    Ok(Outcome::NotFound)
}

/// Byte-level well-formedness of one field-element input: 32 bytes whose
/// little-endian value lies below the field order.
pub open spec fn field_bytes_ok(b: Seq<u8>) -> bool {
    b.len() == 32 && bytes_val(b) < fr_order()
}

/// The views of a sequence of byte vectors.
pub open spec fn raw_views(s: Seq<Vec<u8>>) -> Seq<Seq<u8>> {
    s.map_values(|v: Vec<u8>| v@)
}

/// Byte-level well-formedness of one account vector: at most `n` entries,
/// each a canonical field-element encoding.
pub open spec fn account_bytes_ok(a: Seq<Vec<u8>>, n: nat) -> bool {
    a.len() <= n && (forall|j: int| 0 <= j < a.len() ==> field_bytes_ok((#[trigger] a[j])@))
}

/// Byte-level well-formedness of the whole input.
pub open spec fn inputs_ok(
    setup: Seq<Vec<u8>>,
    accts: Seq<Vec<Vec<u8>>>,
    c1: Seq<u8>,
    c2: Seq<u8>,
    o1: Seq<u8>,
    o2: Seq<u8>,
    target: Seq<u8>,
    n: nat,
) -> bool {
    &&& field_bytes_ok(c1)
    &&& field_bytes_ok(c2)
    &&& field_bytes_ok(o1)
    &&& field_bytes_ok(o2)
    &&& target.len() == 96
    &&& forall|i: int|
        0 <= i < setup.len() ==> (#[trigger] setup[i])@.len() == 96 && decodes_to_point(setup[i]@)
    &&& forall|i: int| 0 <= i < accts.len() ==> account_bytes_ok((#[trigger] accts[i])@, n)
}

/// The values of an account vector, zero-padded to the domain size.
pub open spec fn padded_vals(a: Seq<Vec<u8>>, n: nat) -> Seq<nat> {
    Seq::new(
        n,
        |i: int|
            if i < a.len() {
                bytes_val(a[i]@)
            } else {
                0
            },
    )
}

/// The commitments of all candidates, computed from the raw byte inputs.
pub open spec fn padded_commitments(
    accts: Seq<Vec<Vec<u8>>>,
    n: nat,
    c1: nat,
    c2: nat,
    o1: nat,
    o2: nat,
    setup: Seq<Seq<u8>>,
) -> Seq<Seq<u8>> {
    Seq::new(accts.len(), |j: int| cand_commit(padded_vals(accts[j]@, n), n, c1, c2, o1, o2, setup))
}

/// Converts one raw account vector, zero-padding it to the domain size.
fn convert_account(a: &Vec<Vec<u8>>, n: usize) -> (r: Result<Vec<FieldElement>, Error>)
    ensures
        r is Ok <==> account_bytes_ok(a@, n as nat),
        r matches Err(e) ==> e == Error::LoadError,
        r matches Ok(v) ==> v@.len() == n && all_wf(v@) && fe_vals(v@) == padded_vals(
            a@,
            n as nat,
        ),
{
    if a.len() > n {
        return Err(Error::LoadError);
    }
    let mut v: Vec<FieldElement> = Vec::new();
    let mut j: usize = 0;
    while j < a.len()
        invariant
            j <= a@.len(),
            a@.len() <= n,
            v@.len() == j,
            all_wf(v@),
            forall|k: int| 0 <= k < j ==> field_bytes_ok((#[trigger] a@[k])@),
            forall|k: int| 0 <= k < j ==> v@[k].val() == bytes_val(a@[k]@),
        decreases a@.len() - j,
    {
        if a[j].len() != 32 {
            return Err(Error::LoadError);
        }
        match fr_from_bytes(copy_bytes(&a[j])) {
            Some(f) => {
                v.push(f);
            },
            None => {
                return Err(Error::LoadError);
            },
        }
        j = j + 1;
    }
    while j < n
        invariant
            a@.len() <= j <= n,
            v@.len() == j,
            all_wf(v@),
            forall|k: int| 0 <= k < a@.len() ==> field_bytes_ok((#[trigger] a@[k])@),
            forall|k: int| 0 <= k < a@.len() ==> v@[k].val() == bytes_val(a@[k]@),
            forall|k: int| a@.len() <= k < j ==> v@[k].val() == 0,
        decreases n - j,
    {
        v.push(fe_zero());
        j = j + 1;
    }
    proof {
        assert(fe_vals(v@) =~= padded_vals(a@, n as nat));
    }
    Ok(v)
}

/// Converts one raw 32-byte field-element input.
fn convert_field(b: &Vec<u8>) -> (r: Result<FieldElement, Error>)
    ensures
        r is Ok <==> field_bytes_ok(b@),
        r matches Err(e) ==> e == Error::LoadError,
        r matches Ok(f) ==> f.wf() && f.val() == bytes_val(b@),
{
    if b.len() != 32 {
        return Err(Error::LoadError);
    }
    match fr_from_bytes(copy_bytes(b)) {
        Some(f) => Ok(f),
        None => Err(Error::LoadError),
    }
}

/// Runs the matcher on raw byte inputs: validates and decodes every field
/// and group element, zero-pads each account vector to the domain size, and
/// searches for the candidate whose blinded commitment equals the target.
pub fn find_account_bytes(
    dom: &Domain,
    setup: &Vec<Vec<u8>>,
    accts: &Vec<Vec<Vec<u8>>>,
    cha1: &Vec<u8>,
    cha2: &Vec<u8>,
    opn1: &Vec<u8>,
    opn2: &Vec<u8>,
    target: &Vec<u8>,
) -> (r: Result<Outcome, Error>)
    requires
        dom.wf(),
        2 <= dom.size,
        dom.size + 2 <= usize::MAX,
    ensures
        ({
            let n = dom.size as nat;
            let ok = inputs_ok(setup@, accts@, cha1@, cha2@, opn1@, opn2@, target@, n);
            let z1 = fsub(fpow(bytes_val(cha1@), n), 1);
            let z2 = fsub(fpow(bytes_val(cha2@), n), 1);
            &&& (r == Err::<Outcome, Error>(Error::LoadError) <==> !ok)
            &&& (ok ==> (r == Err::<Outcome, Error>(Error::DegenerateChallenge) <==> (z1 == 0 || z2
                == 0)))
            &&& (ok ==> (r == Err::<Outcome, Error>(Error::DivisionByZero) <==> (z1 != 0 && z2 != 0
                && bytes_val(cha1@) == bytes_val(cha2@))))
            &&& (ok ==> (r == Err::<Outcome, Error>(Error::DegreeTooLarge) <==> (z1 != 0 && z2 != 0
                && bytes_val(cha1@) != bytes_val(cha2@) && setup@.len() < n + 2)))
            &&& (ok ==> (r is Ok <==> (z1 != 0 && z2 != 0 && bytes_val(cha1@) != bytes_val(cha2@)
                && setup@.len() >= n + 2)))
            &&& (r matches Ok(out) ==> search_outcome_ok(
                out,
                padded_commitments(
                    accts@,
                    n,
                    bytes_val(cha1@),
                    bytes_val(cha2@),
                    bytes_val(opn1@),
                    bytes_val(opn2@),
                    raw_views(setup@),
                ),
                target@,
            ))
        }),
{
    let c1 = match convert_field(cha1) {
        Ok(f) => f,
        Err(e) => {
            return Err(e);
        },
    };
    let c2 = match convert_field(cha2) {
        Ok(f) => f,
        Err(e) => {
            return Err(e);
        },
    };
    let o1 = match convert_field(opn1) {
        Ok(f) => f,
        Err(e) => {
            return Err(e);
        },
    };
    let o2 = match convert_field(opn2) {
        Ok(f) => f,
        Err(e) => {
            return Err(e);
        },
    };
    if target.len() != 96 {
        return Err(Error::LoadError);
    }
    let mut points: Vec<GroupElement> = Vec::new();
    let mut i: usize = 0;
    while i < setup.len()
        invariant
            i <= setup@.len(),
            points@.len() == i,
            all_points_wf(points@),
            forall|k: int|
                0 <= k < i ==> (#[trigger] setup@[k])@.len() == 96 && decodes_to_point(
                    setup@[k]@,
                ),
            forall|k: int| 0 <= k < i ==> points@[k].bytes@ == setup@[k]@,
        decreases setup@.len() - i,
    {
        if setup[i].len() != 96 {
            return Err(Error::LoadError);
        }
        match point_from_bytes(copy_bytes(&setup[i])) {
            Some(g) => {
                points.push(g);
            },
            None => {
                return Err(Error::LoadError);
            },
        }
        i = i + 1;
    }
    let n: usize = dom.size as usize;
    let mut converted: Vec<Vec<FieldElement>> = Vec::new();
    let mut j: usize = 0;
    while j < accts.len()
        invariant
            j <= accts@.len(),
            n == dom.size,
            converted@.len() == j,
            forall|k: int| 0 <= k < j ==> account_bytes_ok((#[trigger] accts@[k])@, n as nat),
            forall|k: int|
                0 <= k < j ==> all_wf(#[trigger] converted@[k]@) && converted@[k]@.len() == n,
            forall|k: int|
                0 <= k < j ==> fe_vals(#[trigger] converted@[k]@) == padded_vals(
                    accts@[k]@,
                    n as nat,
                ),
        decreases accts@.len() - j,
    {
        match convert_account(&accts[j], n) {
            Ok(v) => {
                converted.push(v);
            },
            Err(e) => {
                return Err(e);
            },
        }
        j = j + 1;
    }
    let tgt = GroupElement { bytes: copy_bytes(target) };
    let res = find_account(&converted, &points, &c1, &c2, &o1, &o2, &tgt, dom);
    proof {
        assert(group_bytes(points@) =~= raw_views(setup@));
        assert(all_commitments(
            converted@,
            dom.size as nat,
            c1.val(),
            c2.val(),
            o1.val(),
            o2.val(),
            group_bytes(points@),
        ) =~= padded_commitments(
            accts@,
            dom.size as nat,
            bytes_val(cha1@),
            bytes_val(cha2@),
            bytes_val(opn1@),
            bytes_val(opn2@),
            raw_views(setup@),
        ));
    }
    res
}

} // verus!
