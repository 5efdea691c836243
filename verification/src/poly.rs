//! Polynomials in coefficient form over the scalar field: Horner evaluation,
//! addition, multiplication by the vanishing polynomial, and interpolation
//! from evaluations over a domain.
use vstd::prelude::*;

use ark_bls12_381::Fr;
use ark_poly::{EvaluationDomain, GeneralEvaluationDomain};
use ark_serialize::{CanonicalDeserialize, CanonicalSerialize};

use crate::domain::Domain;
use crate::field::{
    fadd, fe_zero, fmul, fpow, fr_add, fr_order, fr_sub, fsub, lemma_f_bounds, lemma_fadd_rearrange,
    lemma_fadd_zero, lemma_fmul_assoc, lemma_fmul_distrib_fadd, lemma_fmul_distrib_fsub,
    lemma_fmul_one, lemma_fmul_zero, lemma_fneg_add, lemma_fneg_swap, lemma_fpow_bound,
    FieldElement,
};

verus! {

/// The residues of a sequence of field elements.
pub open spec fn fe_vals(s: Seq<FieldElement>) -> Seq<nat> {
    s.map_values(|f: FieldElement| f.val())
}

/// Every element of the sequence is well-formed.
pub open spec fn all_wf(s: Seq<FieldElement>) -> bool {
    forall|i: int| 0 <= i < s.len() ==> s[i].wf()
}

/// Every residue of the sequence is below the field order.
pub open spec fn all_reduced(c: Seq<nat>) -> bool {
    forall|i: int| 0 <= i < c.len() ==> c[i] < fr_order()
}

/// Evaluation of a coefficient-form polynomial at a point, by Horner's rule.
pub open spec fn poly_eval(c: Seq<nat>, x: nat) -> nat
    decreases c.len(),
{
    if c.len() == 0 {
        0
    } else {
        fadd(c[0], fmul(x, poly_eval(c.skip(1), x)))
    }
}

/// The coefficient at `i`, taking absent positions as zero.
pub open spec fn coeff_at(c: Seq<nat>, i: int) -> nat {
    if 0 <= i < c.len() {
        c[i]
    } else {
        0
    }
}

/// Coefficient-wise sum of two polynomials.
pub open spec fn padd(a: Seq<nat>, b: Seq<nat>) -> Seq<nat> {
    Seq::new(
        if a.len() >= b.len() {
            a.len()
        } else {
            b.len()
        },
        |i: int| fadd(coeff_at(a, i), coeff_at(b, i)),
    )
}

/// Coefficients of `b(x) * (x^n - 1)`: the coefficients of `b` shifted up by
/// `n` positions, minus the original coefficients.
pub open spec fn mul_van(b: Seq<nat>, n: nat) -> Seq<nat>
    recommends
        b.len() <= n,
{
    Seq::new(
        n + b.len(),
        |i: int|
            if i < b.len() {
                fsub(0, b[i])
            } else if i < n {
                0
            } else {
                b[i - n]
            },
    )
}

/// Coefficients of the blinded polynomial: the candidate plus the degree-one
/// blinding polynomial `b0 + b1 x` times the vanishing polynomial.
pub open spec fn blinded_vals(p: Seq<nat>, b0: nat, b1: nat, n: nat) -> Seq<nat> {
    padd(p, mul_van(seq![b0, b1], n))
}

pub proof fn lemma_poly_eval_bound(c: Seq<nat>, x: nat)
    ensures
        poly_eval(c, x) < fr_order(),
    decreases c.len(),
{
    if c.len() == 0 {
    } else {
        lemma_f_bounds(c[0], fmul(x, poly_eval(c.skip(1), x)));
    }
}

/// Evaluates a polynomial at a point by Horner's rule.
pub fn evaluate(p: &Vec<FieldElement>, x: &FieldElement) -> (r: FieldElement)
    requires
        all_wf(p@),
        x.wf(),
    ensures
        r.wf(),
        r.val() == poly_eval(fe_vals(p@), x.val()),
{
    let mut acc = fe_zero();
    let mut i: usize = p.len();
    proof {
        assert(fe_vals(p@).skip(i as int) =~= Seq::<nat>::empty());
    }
    while i > 0
        invariant
            i <= p@.len(),
            all_wf(p@),
            x.wf(),
            acc.wf(),
            acc.val() == poly_eval(fe_vals(p@).skip(i as int), x.val()),
        decreases i,
    {
        i = i - 1;
        let t = crate::field::fr_mul(x, &acc);
        acc = fr_add(&p[i], &t);
        proof {
            assert(fe_vals(p@).skip(i as int).skip(1) =~= fe_vals(p@).skip(i + 1));
            assert(fe_vals(p@).skip(i as int)[0] == p@[i as int].val());
        }
    }
    proof {
        assert(fe_vals(p@).skip(0) =~= fe_vals(p@));
    }
    acc
}

/// Coefficient-wise sum of two polynomials.
pub fn poly_add(p: &Vec<FieldElement>, q: &Vec<FieldElement>) -> (r: Vec<FieldElement>)
    requires
        all_wf(p@),
        all_wf(q@),
    ensures
        all_wf(r@),
        fe_vals(r@) == padd(fe_vals(p@), fe_vals(q@)),
{
    let zero = fe_zero();
    let n: usize = if p.len() >= q.len() {
        p.len()
    } else {
        q.len()
    };
    let mut r: Vec<FieldElement> = Vec::new();
    let mut i: usize = 0;
    while i < n
        invariant
            i <= n,
            n == if p@.len() >= q@.len() {
                p@.len()
            } else {
                q@.len()
            },
            all_wf(p@),
            all_wf(q@),
            zero.wf(),
            zero.val() == 0,
            r@.len() == i,
            all_wf(r@),
            forall|j: int|
                0 <= j < i ==> r@[j].val() == fadd(
                    coeff_at(fe_vals(p@), j),
                    coeff_at(fe_vals(q@), j),
                ),
        decreases n - i,
    {
        let s = if i < p.len() {
            if i < q.len() {
                fr_add(&p[i], &q[i])
            } else {
                fr_add(&p[i], &zero)
            }
        } else {
            fr_add(&zero, &q[i])
        };
        r.push(s);
        i = i + 1;
    }
    proof {
        assert(fe_vals(r@) =~= padd(fe_vals(p@), fe_vals(q@)));
    }
    r
}

/// Multiplies a polynomial by the vanishing polynomial `x^n - 1` of a domain
/// of size `n`, by shifting the coefficients up `n` places and subtracting
/// the originals.
pub fn mul_by_vanishing(b: &Vec<FieldElement>, n: usize) -> (r: Vec<FieldElement>)
    requires
        all_wf(b@),
        b@.len() <= n,
        n + b@.len() <= usize::MAX,
    ensures
        all_wf(r@),
        fe_vals(r@) == mul_van(fe_vals(b@), n as nat),
{
    let zero = fe_zero();
    let total: usize = n + b.len();
    let mut r: Vec<FieldElement> = Vec::new();
    let mut i: usize = 0;
    while i < total
        invariant
            i <= total,
            total == n + b@.len(),
            b@.len() <= n,
            all_wf(b@),
            zero.wf(),
            zero.val() == 0,
            r@.len() == i,
            all_wf(r@),
            forall|j: int| 0 <= j < i ==> r@[j].val() == mul_van(fe_vals(b@), n as nat)[j],
        decreases total - i,
    {
        let s = if i < b.len() {
            fr_sub(&zero, &b[i])
        } else if i < n {
            fe_zero()
        } else {
            fr_add(&b[i - n], &zero)
        };
        proof {
            if i >= n {
                lemma_fadd_zero(b@[i - n].val());
            }
        }
        r.push(s);
        i = i + 1;
    }
    proof {
        assert(fe_vals(r@) =~= mul_van(fe_vals(b@), n as nat));
    }
    r
}

/// Adds the blinding polynomial `b0 + b1 x`, scaled by the vanishing
/// polynomial of a size-`n` domain, to a candidate polynomial.
pub fn build_blinded(p: &Vec<FieldElement>, b0: &FieldElement, b1: &FieldElement, n: usize) -> (r:
    Vec<FieldElement>)
    requires
        all_wf(p@),
        b0.wf(),
        b1.wf(),
        2 <= n,
        n + 2 <= usize::MAX,
    ensures
        all_wf(r@),
        fe_vals(r@) == blinded_vals(fe_vals(p@), b0.val(), b1.val(), n as nat),
        r@.len() == if p@.len() >= n + 2 {
            p@.len() as int
        } else {
            n + 2
        },
{
    let mut blinding: Vec<FieldElement> = Vec::new();
    blinding.push(FieldElement { bytes: crate::field::copy_bytes(&b0.bytes) });
    blinding.push(FieldElement { bytes: crate::field::copy_bytes(&b1.bytes) });
    proof {
        assert(fe_vals(blinding@) =~= seq![b0.val(), b1.val()]);
    }
    let shifted = mul_by_vanishing(&blinding, n);
    let r = poly_add(p, &shifted);
    proof {
        assert(mul_van(fe_vals(blinding@), n as nat).len() == n + 2);
    }
    r
}

/// The all-zero coefficient vector of length `k`.
pub open spec fn zseq(k: nat) -> Seq<nat> {
    Seq::new(k, |i: int| 0nat)
}

pub proof fn lemma_poly_eval_padd(a: Seq<nat>, b: Seq<nat>, x: nat)
    requires
        all_reduced(a),
        all_reduced(b),
    ensures
        poly_eval(padd(a, b), x) == fadd(poly_eval(a, x), poly_eval(b, x)),
    decreases a.len() + b.len(),
{
    let pa = padd(a, b);
    if a.len() == 0 && b.len() == 0 {
        lemma_fadd_zero(0);
    } else if a.len() == 0 {
        assert forall|i: int| 0 <= i < pa.len() implies pa[i] == b[i] by {
            lemma_fadd_zero(b[i]);
        }
        assert(pa =~= b);
        lemma_poly_eval_bound(b, x);
        lemma_fadd_zero(poly_eval(b, x));
    } else if b.len() == 0 {
        assert forall|i: int| 0 <= i < pa.len() implies pa[i] == a[i] by {
            lemma_fadd_zero(a[i]);
        }
        assert(pa =~= a);
        lemma_poly_eval_bound(a, x);
        lemma_fadd_zero(poly_eval(a, x));
    } else {
        let a1 = a.skip(1);
        let b1 = b.skip(1);
        assert forall|i: int| 0 <= i < pa.len() - 1 implies pa.skip(1)[i] == padd(a1, b1)[i] by {
            assert(pa.skip(1)[i] == pa[i + 1]);
            assert(coeff_at(a1, i) == coeff_at(a, i + 1));
            assert(coeff_at(b1, i) == coeff_at(b, i + 1));
        }
        assert(pa.skip(1) =~= padd(a1, b1));
        assert(all_reduced(a1)) by {
            assert(forall|i: int| 0 <= i < a1.len() ==> a1[i] == a[i + 1]);
        }
        assert(all_reduced(b1)) by {
            assert(forall|i: int| 0 <= i < b1.len() ==> b1[i] == b[i + 1]);
        }
        lemma_poly_eval_padd(a1, b1, x);
        let ea = poly_eval(a1, x);
        let eb = poly_eval(b1, x);
        lemma_fmul_distrib_fadd(x, ea, eb);
        lemma_fadd_rearrange(a[0], b[0], fmul(x, ea), fmul(x, eb));
        assert(pa[0] == fadd(a[0], b[0]));
    }
}

pub proof fn lemma_poly_eval_zero_prefix(k: nat, t: Seq<nat>, x: nat)
    ensures
        poly_eval(zseq(k) + t, x) == fmul(fpow(x, k), poly_eval(t, x)),
    decreases k,
{
    if k == 0 {
        assert(zseq(0) + t =~= t);
        lemma_poly_eval_bound(t, x);
        lemma_fmul_one(poly_eval(t, x));
    } else {
        let s = zseq(k) + t;
        assert(s.len() > 0);
        assert(s[0] == 0);
        assert(s.skip(1) =~= zseq((k - 1) as nat) + t);
        lemma_poly_eval_zero_prefix((k - 1) as nat, t, x);
        let et = poly_eval(t, x);
        let p1 = fpow(x, (k - 1) as nat);
        lemma_f_bounds(x, fmul(p1, et));
        lemma_fadd_zero(fmul(x, fmul(p1, et)));
        lemma_fmul_assoc(x, p1, et);
        assert(x * p1 == p1 * x) by (nonlinear_arith);
        assert(fpow(x, k) == fmul(x, p1));
    }
}

pub proof fn lemma_poly_eval_trailing_zeros(s: Seq<nat>, k: nat, x: nat)
    ensures
        poly_eval(s + zseq(k), x) == poly_eval(s, x),
    decreases s.len(),
{
    if s.len() == 0 {
        assert(s + zseq(k) =~= zseq(k) + Seq::<nat>::empty());
        lemma_poly_eval_zero_prefix(k, Seq::<nat>::empty(), x);
        lemma_fmul_zero(fpow(x, k));
    } else {
        assert((s + zseq(k))[0] == s[0]);
        assert((s + zseq(k)).skip(1) =~= s.skip(1) + zseq(k));
        lemma_poly_eval_trailing_zeros(s.skip(1), k, x);
    }
}

proof fn lemma_poly_eval_pair(u: nat, v: nat, x: nat)
    requires
        v < fr_order(),
    ensures
        poly_eval(seq![u, v], x) == fadd(u, fmul(x, v)),
{
    assert(seq![u, v].skip(1) =~= seq![v]);
    assert(seq![v].skip(1) =~= Seq::<nat>::empty());
    assert(poly_eval(Seq::<nat>::empty(), x) == 0);
    lemma_fmul_zero(x);
    lemma_fadd_zero(v);
    assert(poly_eval(seq![v], x) == fadd(v, fmul(x, 0)));
}

#[verifier::rlimit(50)]
pub proof fn lemma_eval_mul_van2(b0: nat, b1: nat, n: nat, x: nat)
    requires
        b0 < fr_order(),
        b1 < fr_order(),
        x < fr_order(),
        2 <= n,
    ensures
        poly_eval(mul_van(seq![b0, b1], n), x) == fmul(
            fadd(b0, fmul(x, b1)),
            fsub(fpow(x, n), 1),
        ),
{
    let m = mul_van(seq![b0, b1], n);
    let aa = seq![fsub(0, b0), fsub(0, b1)] + zseq(n);
    let bb = zseq(n) + seq![b0, b1];
    assert forall|i: int| 0 <= i < m.len() implies m[i] == padd(aa, bb)[i] by {
        lemma_f_bounds(0, b0);
        lemma_f_bounds(0, b1);
        if i < 2 {
            assert(bb[i] == 0);
            lemma_fadd_zero(fsub(0, seq![b0, b1][i]));
        } else if i < n {
            assert(aa[i] == 0);
            assert(bb[i] == 0);
            lemma_fadd_zero(0);
        } else {
            assert(aa[i] == 0);
            assert(bb[i] == seq![b0, b1][i - n]);
            lemma_fadd_zero(seq![b0, b1][i - n]);
        }
    }
    assert(m =~= padd(aa, bb));
    assert(all_reduced(aa)) by {
        lemma_f_bounds(0, b0);
        lemma_f_bounds(0, b1);
    }
    assert(all_reduced(bb));
    lemma_poly_eval_padd(aa, bb, x);
    // The low part: the negated blinding coefficients, then zeros.
    let neg2 = seq![fsub(0, b0), fsub(0, b1)];
    lemma_poly_eval_trailing_zeros(neg2, n, x);
    lemma_f_bounds(0, b1);
    lemma_poly_eval_pair(fsub(0, b0), fsub(0, b1), x);
    assert(poly_eval(neg2, x) == fadd(fsub(0, b0), fmul(x, fsub(0, b1))));
    lemma_fmul_distrib_fsub(x, 0, b1);
    lemma_fmul_zero(x);
    assert(poly_eval(neg2, x) == fadd(fsub(0, b0), fsub(0, fmul(x, b1))));
    lemma_fneg_add(b0, fmul(x, b1));
    let e2 = fadd(b0, fmul(x, b1));
    assert(poly_eval(neg2, x) == fsub(0, e2));
    // The high part: the blinding coefficients shifted up by n.
    let two = seq![b0, b1];
    lemma_poly_eval_zero_prefix(n, two, x);
    lemma_f_bounds(x, b1);
    lemma_poly_eval_pair(b0, b1, x);
    assert(poly_eval(two, x) == e2);
    // Combine the parts.
    let z = fpow(x, n);
    lemma_fpow_bound(x, n);
    lemma_f_bounds(e2, z);
    assert(z * e2 == e2 * z) by (nonlinear_arith);
    assert(fmul(z, e2) == fmul(e2, z));
    lemma_fneg_swap(e2, fmul(e2, z));
    lemma_fmul_distrib_fsub(e2, z, 1);
    lemma_fmul_one(e2);
}

/// On every point of the domain, the blinded polynomial agrees with the
/// candidate polynomial: the added blinding term carries the vanishing
/// polynomial as a factor, and the vanishing polynomial is zero exactly on
/// the domain.
pub proof fn lemma_blinded_on_domain(p: Seq<nat>, b0: nat, b1: nat, n: nat, x: nat)
    requires
        all_reduced(p),
        b0 < fr_order(),
        b1 < fr_order(),
        x < fr_order(),
        2 <= n,
        fsub(fpow(x, n), 1) == 0,
    ensures
        poly_eval(blinded_vals(p, b0, b1, n), x) == poly_eval(p, x),
{
    let mv = mul_van(seq![b0, b1], n);
    assert(all_reduced(mv)) by {
        lemma_f_bounds(0, b0);
        lemma_f_bounds(0, b1);
    }
    lemma_poly_eval_padd(p, mv, x);
    lemma_eval_mul_van2(b0, b1, n, x);
    lemma_fmul_zero(fadd(b0, fmul(x, b1)));
    lemma_poly_eval_bound(p, x);
    lemma_fadd_zero(poly_eval(p, x));
}

/// What ark_poly's inverse transform returns on a domain of size `n`: the
/// unique coefficient vector of length `n` interpolating the given
/// evaluations over the domain, as a pure function of the evaluations and
/// the size.
pub uninterp spec fn interpolation_of(evals: Seq<nat>, n: nat) -> Seq<nat>;

/// What ark_poly's `EvaluationDomain::element` returns: the `i`-th power of
/// the fixed generator of the size-`n` multiplicative subgroup.
pub uninterp spec fn element_of(n: nat, i: nat) -> nat;

/// The coefficient vector `c` interpolates `evals` over the size-`n`
/// domain: evaluating it at the `i`-th domain element gives the `i`-th
/// evaluation, and every domain element is an `n`-th root of unity.
pub open spec fn is_interpolation(c: Seq<nat>, evals: Seq<nat>, n: nat) -> bool {
    c.len() == n && c == interpolation_of(evals, n) && (forall|i: int|
        0 <= i < n ==> poly_eval(c, #[trigger] element_of(n, i as nat)) == evals[i]) && (forall|
        i: int,
    |
        0 <= i < n ==> (#[trigger] element_of(n, i as nat)) < fr_order() && fpow(
            element_of(n, i as nat),
            n,
        ) == 1)
}

/// Relies on ark_poly's `GeneralEvaluationDomain::ifft`: the inverse
/// transform of the evaluations over the size-`n` subgroup of the scalar
/// field, i.e. the coefficients of the polynomial of degree below `n` whose
/// value at the `i`-th domain element is the `i`-th evaluation; every domain
/// element is an `n`-th root of unity.
#[verifier::external_body]
pub fn interpolate(dom: &Domain, evals: &Vec<FieldElement>) -> (r: Vec<FieldElement>)
    requires
        dom.wf(),
        dom.size <= usize::MAX,
        evals@.len() == dom.size,
        all_wf(evals@),
    ensures
        r@.len() == dom.size,
        all_wf(r@),
        fe_vals(r@) == interpolation_of(fe_vals(evals@), dom.size as nat),
        is_interpolation(fe_vals(r@), fe_vals(evals@), dom.size as nat),
{
    let d = GeneralEvaluationDomain::<Fr>::new(dom.size as usize).unwrap();
    let evs: Vec<Fr> = evals.iter().map(|e| Fr::deserialize(&e.bytes[..]).unwrap()).collect();
    let coeffs = d.ifft(&evs);
    coeffs.into_iter().map(
        |c: Fr|
            {
                let mut out: Vec<u8> = Vec::new();
                c.serialize(&mut out).unwrap();
                FieldElement { bytes: out }
            },
    ).collect()
}

/// Relies on ark_poly's `EvaluationDomain::element`: the `i`-th element of
/// the size-`n` multiplicative subgroup, an `n`-th root of unity.
#[verifier::external_body]
pub fn domain_element(dom: &Domain, i: u64) -> (r: FieldElement)
    requires
        dom.wf(),
        dom.size <= usize::MAX,
        i < dom.size,
    ensures
        r.wf(),
        r.val() == element_of(dom.size as nat, i as nat),
        fpow(r.val(), dom.size as nat) == 1,
{
    let d = GeneralEvaluationDomain::<Fr>::new(dom.size as usize).unwrap();
    let e = d.element(i as usize);
    let mut out: Vec<u8> = Vec::new();
    e.serialize(&mut out).unwrap();
    FieldElement { bytes: out }
}

} // verus!
