//! Recovery of the two blinding coefficients: given two distinct challenges,
//! the claimed openings of the target polynomial, a candidate polynomial and
//! the vanishing-polynomial values at the challenges, there is exactly one
//! degree-one polynomial consistent with both openings.
use vstd::prelude::*;

use crate::field::{
    fadd, fdiv, fe_equal, fe_zero, fmul, fr_div, fr_mul, fr_order, fr_sub, fsub, lemma_f_bounds,
    lemma_fadd_cancel, lemma_fadd_fsub_cancel, lemma_fadd_fsub_swap, lemma_fmul_cancel,
    lemma_fmul_distrib_fsub, lemma_fmul_unit, lemma_fsub_fadd_both, lemma_fsub_fsub,
    lemma_fsub_of_fadd, lemma_fsub_zero_iff, FieldElement,
};
use vstd::arithmetic::div_mod::lemma_small_mod;
use crate::poly::{all_wf, fe_vals, poly_eval, lemma_poly_eval_bound};
use crate::Error;

verus! {

/// The opening of the blinding polynomial at a challenge: the difference
/// between the claimed opening and the candidate's value, divided by the
/// vanishing-polynomial value.
pub open spec fn blind_opening(o: nat, pe: nat, z: nat) -> nat {
    fdiv(fsub(o, pe), z)
}

/// The leading blinding coefficient: the slope of the line through the two
/// blinding openings.
pub open spec fn solution_b1(p: Seq<nat>, c1: nat, c2: nat, o1: nat, o2: nat, z1: nat, z2: nat) -> nat {
    fdiv(
        fsub(
            blind_opening(o1, poly_eval(p, c1), z1),
            blind_opening(o2, poly_eval(p, c2), z2),
        ),
        fsub(c1, c2),
    )
}

/// The constant blinding coefficient.
pub open spec fn solution_b0(p: Seq<nat>, c1: nat, c2: nat, o1: nat, o2: nat, z1: nat, z2: nat) -> nat {
    fsub(
        blind_opening(o1, poly_eval(p, c1), z1),
        fmul(solution_b1(p, c1, c2, o1, o2, z1, z2), c1),
    )
}

/// The pair `(b0, b1)` is consistent with the opening `o` at challenge `c`:
/// the blinding line evaluated at `c`, scaled by the vanishing value `z`,
/// accounts exactly for the gap between the claimed opening and the
/// candidate's value there.
pub open spec fn consistent_at(b0: nat, b1: nat, c: nat, o: nat, pe: nat, z: nat) -> bool {
    fmul(fadd(b0, fmul(b1, c)), z) == fsub(o, pe)
}

/// Solves for the unique degree-one blinding polynomial `b0 + b1 x`
/// consistent with both claimed openings of the blinded candidate.
#[verifier::rlimit(100)]
pub fn solve_blinding_factors(
    cha1: &FieldElement,
    cha2: &FieldElement,
    opn1: &FieldElement,
    opn2: &FieldElement,
    acct_poly: &Vec<FieldElement>,
    van1: &FieldElement,
    van2: &FieldElement,
) -> (r: Result<(FieldElement, FieldElement), Error>)
    requires
        cha1.wf(),
        cha2.wf(),
        opn1.wf(),
        opn2.wf(),
        all_wf(acct_poly@),
        van1.wf(),
        van2.wf(),
    ensures
        r is Err <==> van1.val() == 0 || van2.val() == 0 || cha1.val() == cha2.val(),
        r == Err::<(FieldElement, FieldElement), Error>(Error::DegenerateChallenge) <==> (
        van1.val() == 0 || van2.val() == 0),
        r == Err::<(FieldElement, FieldElement), Error>(Error::DivisionByZero) <==> (van1.val()
            != 0 && van2.val() != 0 && cha1.val() == cha2.val()),
        r matches Ok(b) ==> b.0.wf() && b.1.wf() && b.0.val() == solution_b0(
            fe_vals(acct_poly@),
            cha1.val(),
            cha2.val(),
            opn1.val(),
            opn2.val(),
            van1.val(),
            van2.val(),
        ) && b.1.val() == solution_b1(
            fe_vals(acct_poly@),
            cha1.val(),
            cha2.val(),
            opn1.val(),
            opn2.val(),
            van1.val(),
            van2.val(),
        ) && consistent_at(
            b.0.val(),
            b.1.val(),
            cha1.val(),
            opn1.val(),
            poly_eval(fe_vals(acct_poly@), cha1.val()),
            van1.val(),
        ) && consistent_at(
            b.0.val(),
            b.1.val(),
            cha2.val(),
            opn2.val(),
            poly_eval(fe_vals(acct_poly@), cha2.val()),
            van2.val(),
        ),
{
    let zero = fe_zero();
    if fe_equal(van1, &zero) || fe_equal(van2, &zero) {
        return Err(Error::DegenerateChallenge);
    }
    if fe_equal(cha1, cha2) {
        return Err(Error::DivisionByZero);
    }
    let pe1 = crate::poly::evaluate(acct_poly, cha1);
    let pe2 = crate::poly::evaluate(acct_poly, cha2);
    let num1 = fr_sub(opn1, &pe1);
    let bl1 = fr_div(&num1, van1);
    let num2 = fr_sub(opn2, &pe2);
    let bl2 = fr_div(&num2, van2);
    let dbl = fr_sub(&bl1, &bl2);
    let dc = fr_sub(cha1, cha2);
    proof {
        lemma_fsub_zero_iff(cha1.val(), cha2.val());
    }
    let b1 = fr_div(&dbl, &dc);
    let t = fr_mul(&b1, cha1);
    let b0 = fr_sub(&bl1, &t);
    proof {
        let c1 = cha1.val();
        let c2 = cha2.val();
        let z1 = van1.val();
        let z2 = van2.val();
        let w1 = crate::field::fr_inverse(z1);
        let w2 = crate::field::fr_inverse(z2);
        let wc = crate::field::fr_inverse(dc.val());
        // The first consistency equation: b0 + b1 c1 telescopes back to the
        // first blinding opening, and multiplying by z1 undoes the division.
        lemma_fadd_fsub_cancel(bl1.val(), t.val());
        assert(fadd(b0.val(), fmul(b1.val(), c1)) == bl1.val());
        assert(z1 * w1 == w1 * z1) by (nonlinear_arith);
        lemma_fmul_unit(num1.val(), w1, z1);
        lemma_small_mod(num1.val(), fr_order());
        assert(fmul(bl1.val(), z1) == num1.val());
        // The second: b0 + b1 c2 equals b1 (c2 - c1) past the first opening,
        // which collapses to the second blinding opening.
        lemma_fadd_fsub_swap(bl1.val(), t.val(), fmul(b1.val(), c2));
        lemma_fmul_distrib_fsub(b1.val(), c1, c2);
        assert(dc.val() * wc == wc * dc.val()) by (nonlinear_arith);
        lemma_fmul_unit(dbl.val(), wc, dc.val());
        lemma_small_mod(dbl.val(), fr_order());
        assert(fmul(b1.val(), dc.val()) == dbl.val());
        lemma_fsub_fsub(bl1.val(), bl2.val());
        assert(fadd(b0.val(), fmul(b1.val(), c2)) == bl2.val());
        assert(z2 * w2 == w2 * z2) by (nonlinear_arith);
        lemma_fmul_unit(num2.val(), w2, z2);
        lemma_small_mod(num2.val(), fr_order());
        assert(fmul(bl2.val(), z2) == num2.val());
    }
    Ok((b0, b1))
}

/// Recovering the blinding from openings that were themselves produced by a
/// degree-one blinding polynomial gives back exactly that polynomial: any
/// pair consistent with both openings equals the pair that produced them,
/// provided the two challenges differ and the vanishing values and the
/// challenge difference are invertible (which holds in the scalar field
/// whenever they are nonzero).
pub proof fn lemma_solver_round_trip(
    p: Seq<nat>,
    b0: nat,
    b1: nat,
    b0r: nat,
    b1r: nat,
    c1: nat,
    c2: nat,
    z1: nat,
    z2: nat,
    o1: nat,
    o2: nat,
    w1: nat,
    w2: nat,
    wc: nat,
)
    requires
        b0 < fr_order(),
        b1 < fr_order(),
        b0r < fr_order(),
        b1r < fr_order(),
        c1 < fr_order(),
        c2 < fr_order(),
        c1 != c2,
        (w1 * z1) % fr_order() == 1,
        (w2 * z2) % fr_order() == 1,
        (wc * fsub(c1, c2)) % fr_order() == 1,
        o1 == fadd(poly_eval(p, c1), fmul(fadd(b0, fmul(b1, c1)), z1)),
        o2 == fadd(poly_eval(p, c2), fmul(fadd(b0, fmul(b1, c2)), z2)),
        consistent_at(b0r, b1r, c1, o1, poly_eval(p, c1), z1),
        consistent_at(b0r, b1r, c2, o2, poly_eval(p, c2), z2),
    ensures
        b0r == b0,
        b1r == b1,
{
    let pe1 = poly_eval(p, c1);
    let pe2 = poly_eval(p, c2);
    let be1 = fadd(b0, fmul(b1, c1));
    let be2 = fadd(b0, fmul(b1, c2));
    let ber1 = fadd(b0r, fmul(b1r, c1));
    let ber2 = fadd(b0r, fmul(b1r, c2));
    lemma_poly_eval_bound(p, c1);
    lemma_poly_eval_bound(p, c2);
    lemma_f_bounds(b0, fmul(b1, c1));
    lemma_f_bounds(b0, fmul(b1, c2));
    lemma_f_bounds(b0r, fmul(b1r, c1));
    lemma_f_bounds(b0r, fmul(b1r, c2));
    // The constructed openings put the original pair's line through both
    // blinding openings.
    lemma_fsub_of_fadd(pe1, fmul(be1, z1));
    lemma_fsub_of_fadd(pe2, fmul(be2, z2));
    lemma_f_bounds(be1, z1);
    lemma_f_bounds(be2, z2);
    // Cancel the (invertible) vanishing values: the two lines agree at both
    // challenges.
    lemma_fmul_cancel(ber1, be1, z1, w1);
    lemma_fmul_cancel(ber2, be2, z2, w2);
    // Two lines that agree at two distinct points are equal coefficient by
    // coefficient.
    lemma_fsub_fadd_both(b0, fmul(b1, c1), fmul(b1, c2));
    lemma_fsub_fadd_both(b0r, fmul(b1r, c1), fmul(b1r, c2));
    lemma_fmul_distrib_fsub(b1, c1, c2);
    lemma_fmul_distrib_fsub(b1r, c1, c2);
    assert(fmul(b1r, fsub(c1, c2)) == fmul(b1, fsub(c1, c2)));
    lemma_fmul_cancel(b1r, b1, fsub(c1, c2), wc);
    lemma_fadd_cancel(b0r, b0, fmul(b1, c1));
}

} // verus!
