//! Elements of the BLS12-381 scalar field, carried as canonical 32-byte
//! little-endian encodings, together with the modular-arithmetic model that
//! all contracts of this crate are stated over.
use vstd::prelude::*;
use vstd::arithmetic::div_mod::{
    lemma_add_mod_noop, lemma_mod_add_multiples_vanish, lemma_mod_bound, lemma_mod_multiples_vanish,
    lemma_mod_self_0, lemma_mul_mod_noop_general, lemma_small_mod, lemma_sub_mod_noop,
    lemma_sub_mod_noop_right,
};
use vstd::arithmetic::mul::lemma_mul_is_associative;

use ark_bls12_381::Fr;
use ark_serialize::{CanonicalDeserialize, CanonicalSerialize};

verus! {

/// The order of the BLS12-381 scalar field.
pub open spec fn fr_order() -> nat {
    52435875175126190479447740508185965837690552500527637822603658699938581184513nat
}

/// Addition in the scalar field.
pub open spec fn fadd(a: nat, b: nat) -> nat {
    (a + b) % fr_order()
}

/// Subtraction in the scalar field, for residues below the order.
pub open spec fn fsub(a: nat, b: nat) -> nat
    recommends
        b <= fr_order(),
{
    (((a + fr_order()) - b) % (fr_order() as int)) as nat
}

/// Multiplication in the scalar field.
pub open spec fn fmul(a: nat, b: nat) -> nat {
    (a * b) % fr_order()
}

/// The multiplicative inverse as ark's `Field::inverse` computes it: a pure
/// function of the residue, characterized (for nonzero arguments) by the
/// ensures clauses of `fr_div`.
pub uninterp spec fn fr_inverse(a: nat) -> nat;

/// Division in the scalar field: multiplication by the inverse.
pub open spec fn fdiv(a: nat, b: nat) -> nat {
    fmul(a, fr_inverse(b))
}

/// Exponentiation in the scalar field.
pub open spec fn fpow(x: nat, k: nat) -> nat
    decreases k,
{
    if k == 0 {
        1
    } else {
        fmul(x, fpow(x, (k - 1) as nat))
    }
}

/// 256 raised to the power `k`.
pub open spec fn pow256(k: nat) -> nat
    decreases k,
{
    if k == 0 {
        1
    } else {
        256 * pow256((k - 1) as nat)
    }
}

/// The little-endian value of a byte string.
pub open spec fn bytes_val(s: Seq<u8>) -> nat
    decreases s.len(),
{
    if s.len() == 0 {
        0
    } else {
        s[0] as nat + 256 * bytes_val(s.skip(1))
    }
}

/// An element of the scalar field, held as its canonical 32-byte
/// little-endian encoding.
#[derive(Debug)]
pub struct FieldElement {
    pub bytes: Vec<u8>,
}

impl FieldElement {
    /// The residue this element stands for.
    pub open spec fn val(&self) -> nat {
        bytes_val(self.bytes@)
    }

    /// The encoding is exactly 32 bytes and canonical (below the field
    /// order).
    pub open spec fn wf(&self) -> bool {
        self.bytes@.len() == 32 && self.val() < fr_order()
    }
}

pub proof fn lemma_bytes_val_zero(s: Seq<u8>)
    requires
        forall|i: int| 0 <= i < s.len() ==> s[i] == 0,
    ensures
        bytes_val(s) == 0,
    decreases s.len(),
{
    if s.len() > 0 {
        lemma_bytes_val_zero(s.skip(1));
    }
}

pub proof fn lemma_bytes_val_push(s: Seq<u8>, b: u8)
    ensures
        bytes_val(s.push(b)) == bytes_val(s) + (b as nat) * pow256(s.len()),
    decreases s.len(),
{
    if s.len() == 0 {
        assert(s.push(b).skip(1) =~= Seq::<u8>::empty());
        assert(bytes_val(Seq::<u8>::empty()) == 0);
        assert(bytes_val(s) == 0);
        assert(s.push(b)[0] == b);
        assert(pow256(0) == 1);
        assert(bytes_val(s.push(b)) == b as nat + 256 * 0);
    } else {
        assert(s.push(b).skip(1) =~= s.skip(1).push(b));
        lemma_bytes_val_push(s.skip(1), b);
        let v = bytes_val(s.skip(1));
        let p = pow256(s.skip(1).len());
        assert(pow256(s.len()) == 256 * p);
        assert(bytes_val(s.push(b)) == s[0] as nat + 256 * (v + (b as nat) * p));
        assert(s[0] as nat + 256 * (v + (b as nat) * p) == (s[0] as nat + 256 * v) + (b as nat) * (
        256 * p)) by (nonlinear_arith);
    }
}

proof fn lemma_bytes_val_head(s: Seq<u8>)
    requires
        s.len() > 0,
    ensures
        bytes_val(s) % 256 == s[0] as nat,
{
    lemma_mod_multiples_vanish(bytes_val(s.skip(1)) as int, s[0] as int, 256);
    lemma_small_mod(s[0] as nat, 256);
}

pub proof fn lemma_bytes_val_injective(s: Seq<u8>, t: Seq<u8>)
    requires
        s.len() == t.len(),
        bytes_val(s) == bytes_val(t),
    ensures
        s == t,
    decreases s.len(),
{
    if s.len() == 0 {
        assert(s =~= t);
    } else {
        lemma_bytes_val_head(s);
        lemma_bytes_val_head(t);
        assert(s[0] == t[0]);
        lemma_bytes_val_injective(s.skip(1), t.skip(1));
        assert forall|i: int| 0 <= i < s.len() implies s[i] == t[i] by {
            if i > 0 {
                assert(s[i] == s.skip(1)[i - 1]);
                assert(t[i] == t.skip(1)[i - 1]);
            }
        }
        assert(s =~= t);
    }
}

pub proof fn lemma_f_bounds(a: nat, b: nat)
    ensures
        fadd(a, b) < fr_order(),
        fsub(a, b) < fr_order(),
        fmul(a, b) < fr_order(),
{
    lemma_mod_bound((a + b) as int, fr_order() as int);
    lemma_mod_bound((a + fr_order()) - b, fr_order() as int);
    lemma_mod_bound((a * b) as int, fr_order() as int);
}

pub proof fn lemma_fpow_bound(x: nat, k: nat)
    ensures
        fpow(x, k) < fr_order(),
    decreases k,
{
    if k == 0 {
    } else {
        lemma_f_bounds(x, fpow(x, (k - 1) as nat));
    }
}

pub proof fn lemma_fadd_zero(a: nat)
    requires
        a < fr_order(),
    ensures
        fadd(a, 0) == a,
        fadd(0, a) == a,
{
    lemma_small_mod(a, fr_order());
}

pub proof fn lemma_fmul_zero(a: nat)
    ensures
        fmul(a, 0) == 0,
        fmul(0, a) == 0,
{
    lemma_small_mod(0, fr_order());
}

pub proof fn lemma_fmul_one(a: nat)
    requires
        a < fr_order(),
    ensures
        fmul(a, 1) == a,
        fmul(1, a) == a,
{
    lemma_small_mod(a, fr_order());
}

/// Subtraction in the field is plain integer subtraction followed by the
/// Euclidean remainder.
pub proof fn lemma_fsub_int(a: nat, b: nat)
    ensures
        fsub(a, b) == ((a - b) % (fr_order() as int)) as nat,
{
    lemma_mod_add_multiples_vanish(a - b, fr_order() as int);
}

pub proof fn lemma_fsub_zero_iff(a: nat, b: nat)
    requires
        a < fr_order(),
        b < fr_order(),
    ensures
        fsub(a, b) == 0 <==> a == b,
{
    let q = fr_order() as int;
    lemma_fsub_int(a, b);
    if a == b {
        lemma_small_mod(0, fr_order());
    } else if a > b {
        lemma_small_mod((a - b) as nat, fr_order());
    } else {
        lemma_mod_add_multiples_vanish(a - b, q);
        lemma_small_mod((a - b + q) as nat, fr_order());
    }
}

pub proof fn lemma_fadd_fsub_cancel(x: nat, y: nat)
    requires
        x < fr_order(),
        y < fr_order(),
    ensures
        fadd(fsub(x, y), y) == x,
{
    let q = fr_order() as int;
    lemma_fsub_int(x, y);
    lemma_small_mod(y, fr_order());
    lemma_add_mod_noop(x - y, y as int, q);
    lemma_small_mod(x, fr_order());
}

pub proof fn lemma_fsub_of_fadd(a: nat, m: nat)
    requires
        a < fr_order(),
        m < fr_order(),
    ensures
        fsub(fadd(a, m), a) == m,
{
    let q = fr_order() as int;
    lemma_fsub_int(fadd(a, m), a);
    lemma_small_mod(a, fr_order());
    lemma_sub_mod_noop((a + m) as int, a as int, q);
    lemma_small_mod(m, fr_order());
}

pub proof fn lemma_fsub_fsub(x: nat, y: nat)
    requires
        x < fr_order(),
        y < fr_order(),
    ensures
        fsub(x, fsub(x, y)) == y,
{
    let q = fr_order() as int;
    lemma_fsub_int(x, y);
    lemma_fsub_int(x, fsub(x, y));
    lemma_sub_mod_noop_right(x as int, x - y, q);
    lemma_small_mod(y, fr_order());
}

pub proof fn lemma_fadd_fsub_swap(a: nat, x: nat, y: nat)
    requires
        a < fr_order(),
        x < fr_order(),
        y < fr_order(),
    ensures
        fadd(fsub(a, x), y) == fsub(a, fsub(x, y)),
{
    let q = fr_order() as int;
    lemma_fsub_int(a, x);
    lemma_fsub_int(x, y);
    lemma_fsub_int(a, fsub(x, y));
    lemma_small_mod(y, fr_order());
    lemma_add_mod_noop(a - x, y as int, q);
    lemma_sub_mod_noop_right(a as int, x - y, q);
}

pub proof fn lemma_fsub_fadd_both(a: nat, x: nat, y: nat)
    ensures
        fsub(fadd(a, x), fadd(a, y)) == fsub(x, y),
{
    let q = fr_order() as int;
    lemma_fsub_int(fadd(a, x), fadd(a, y));
    lemma_fsub_int(x, y);
    lemma_sub_mod_noop((a + x) as int, (a + y) as int, q);
}

pub proof fn lemma_fadd_cancel(a: nat, b: nat, x: nat)
    requires
        a < fr_order(),
        b < fr_order(),
        fadd(a, x) == fadd(b, x),
    ensures
        a == b,
{
    let q = fr_order() as int;
    lemma_sub_mod_noop((a + x) as int, (b + x) as int, q);
    lemma_fsub_int(a, b);
    lemma_mod_self_0(q);
    lemma_fsub_zero_iff(a, b);
}

pub proof fn lemma_fmul_assoc(a: nat, b: nat, c: nat)
    ensures
        fmul(fmul(a, b), c) == fmul(a, fmul(b, c)),
{
    let q = fr_order() as int;
    lemma_mul_mod_noop_general((a * b) as int, c as int, q);
    lemma_mul_is_associative(a as int, b as int, c as int);
    lemma_mul_mod_noop_general(a as int, (b * c) as int, q);
}

pub proof fn lemma_fmul_distrib_fadd(x: nat, u: nat, v: nat)
    ensures
        fmul(x, fadd(u, v)) == fadd(fmul(x, u), fmul(x, v)),
{
    let q = fr_order() as int;
    lemma_mul_mod_noop_general(x as int, (u + v) as int, q);
    vstd::arithmetic::mul::lemma_mul_is_distributive_add(x as int, u as int, v as int);
    lemma_add_mod_noop((x * u) as int, (x * v) as int, q);
}

pub proof fn lemma_fmul_distrib_fsub(x: nat, u: nat, v: nat)
    ensures
        fmul(x, fsub(u, v)) == fsub(fmul(x, u), fmul(x, v)),
{
    let q = fr_order() as int;
    lemma_fsub_int(u, v);
    lemma_fsub_int(fmul(x, u), fmul(x, v));
    lemma_mul_mod_noop_general(x as int, u - v, q);
    vstd::arithmetic::mul::lemma_mul_is_distributive_sub(x as int, u as int, v as int);
    lemma_sub_mod_noop((x * u) as int, (x * v) as int, q);
}

pub proof fn lemma_fmul_unit(a: nat, z: nat, w: nat)
    requires
        (w * z) % fr_order() == 1,
    ensures
        fmul(fmul(a, z), w) == a % fr_order(),
{
    let q = fr_order() as int;
    lemma_mul_mod_noop_general((a * z) as int, w as int, q);
    lemma_mul_is_associative(a as int, z as int, w as int);
    lemma_mul_mod_noop_general(a as int, (z * w) as int, q);
    assert(z * w == w * z) by (nonlinear_arith);
    lemma_small_mod(1, fr_order());
}

pub proof fn lemma_fmul_cancel(a: nat, b: nat, z: nat, w: nat)
    requires
        a < fr_order(),
        b < fr_order(),
        (w * z) % fr_order() == 1,
        fmul(a, z) == fmul(b, z),
    ensures
        a == b,
{
    lemma_fmul_unit(a, z, w);
    lemma_fmul_unit(b, z, w);
    lemma_small_mod(a, fr_order());
    lemma_small_mod(b, fr_order());
}

pub proof fn lemma_fneg_add(u: nat, v: nat)
    ensures
        fadd(fsub(0, u), fsub(0, v)) == fsub(0, fadd(u, v)),
{
    let q = fr_order() as int;
    lemma_fsub_int(0, u);
    lemma_fsub_int(0, v);
    lemma_add_mod_noop(0 - u, 0 - v, q);
    lemma_fsub_int(0, fadd(u, v));
    lemma_sub_mod_noop_right(0, (u + v) as int, q);
}

pub proof fn lemma_fneg_swap(a: nat, b: nat)
    requires
        a < fr_order(),
        b < fr_order(),
    ensures
        fadd(fsub(0, a), b) == fsub(b, a),
{
    let q = fr_order() as int;
    lemma_fsub_int(0, a);
    lemma_small_mod(b, fr_order());
    lemma_add_mod_noop(0 - a, b as int, q);
    lemma_fsub_int(b, a);
}

pub proof fn lemma_fadd_rearrange(a: nat, b: nat, c: nat, d: nat)
    ensures
        fadd(fadd(a, b), fadd(c, d)) == fadd(fadd(a, c), fadd(b, d)),
{
    let q = fr_order() as int;
    lemma_add_mod_noop((a + b) as int, (c + d) as int, q);
    lemma_add_mod_noop((a + c) as int, (b + d) as int, q);
}

/// The zero element of the field.
pub fn fe_zero() -> (r: FieldElement)
    ensures
        r.wf(),
        r.val() == 0,
{
    let mut bytes: Vec<u8> = Vec::new();
    let mut i: usize = 0;
    while i < 32
        invariant
            bytes@.len() == i,
            i <= 32,
            forall|j: int| 0 <= j < i ==> bytes@[j] == 0,
        decreases 32 - i,
    {
        bytes.push(0u8);
        i = i + 1;
    }
    proof {
        lemma_bytes_val_zero(bytes@);
    }
    FieldElement { bytes }
}

/// Embeds a machine integer into the field.
pub fn fe_from_u64(u: u64) -> (r: FieldElement)
    ensures
        r.wf(),
        r.val() == u as nat,
{
    let mut bytes: Vec<u8> = Vec::new();
    let mut x: u64 = u;
    let mut i: usize = 0;
    proof {
        assert(pow256(0) == 1);
        assert(bytes_val(bytes@) == 0);
    }
    while i < 8
        invariant
            bytes@.len() == i,
            i <= 8,
            u as nat == bytes_val(bytes@) + (x as nat) * pow256(i as nat),
        decreases 8 - i,
    {
        let b: u8 = (x % 256) as u8;
        proof {
            lemma_bytes_val_push(bytes@, b);
            vstd::arithmetic::div_mod::lemma_fundamental_div_mod(x as int, 256);
            let v = bytes_val(bytes@);
            let p = pow256(i as nat);
            let x2 = (x / 256) as nat;
            assert(pow256((i + 1) as nat) == 256 * p);
            assert(v + (b as nat) * p + x2 * (256 * p) == v + (x as nat) * p) by (nonlinear_arith)
                requires
                    x as nat == 256 * x2 + (b as nat),
            ;
        }
        bytes.push(b);
        x = x / 256;
        i = i + 1;
    }
    proof {
        if x >= 1 {
            assert(pow256(8) == 0x10000000000000000) by {
                assert(pow256(0) == 1);
                assert(pow256(1) == 256);
                assert(pow256(2) == 0x10000);
                assert(pow256(3) == 0x1000000);
                assert(pow256(4) == 0x100000000);
                assert(pow256(5) == 0x10000000000);
                assert(pow256(6) == 0x1000000000000);
                assert(pow256(7) == 0x100000000000000);
            }
            assert((x as nat) * pow256(8) >= 0x10000000000000000) by (nonlinear_arith)
                requires
                    x >= 1,
                    pow256(8) == 0x10000000000000000,
            ;
        }
        assert(x == 0);
    }
    while i < 32
        invariant
            bytes@.len() == i,
            8 <= i <= 32,
            u as nat == bytes_val(bytes@),
        decreases 32 - i,
    {
        proof {
            lemma_bytes_val_push(bytes@, 0u8);
        }
        bytes.push(0u8);
        i = i + 1;
    }
    FieldElement { bytes }
}

/// An exact copy of a byte string.
pub fn copy_bytes(v: &Vec<u8>) -> (r: Vec<u8>)
    ensures
        r@ == v@,
{
    let mut r: Vec<u8> = Vec::new();
    let mut i: usize = 0;
    while i < v.len()
        invariant
            i <= v@.len(),
            r@.len() == i,
            forall|j: int| 0 <= j < i ==> r@[j] == v@[j],
        decreases v@.len() - i,
    {
        r.push(v[i]);
        i = i + 1;
    }
    proof {
        assert(r@ =~= v@);
    }
    r
}

/// Exact comparison of two byte strings.
pub fn bytes_equal(a: &Vec<u8>, b: &Vec<u8>) -> (r: bool)
    ensures
        r <==> a@ == b@,
{
    if a.len() != b.len() {
        return false;
    }
    let mut i: usize = 0;
    while i < a.len()
        invariant
            a@.len() == b@.len(),
            i <= a@.len(),
            forall|j: int| 0 <= j < i ==> a@[j] == b@[j],
        decreases a@.len() - i,
    {
        if a[i] != b[i] {
            return false;
        }
        i = i + 1;
    }
    proof {
        assert(a@ =~= b@);
    }
    true
}

/// Exact equality of field elements, decided on the canonical encodings.
pub fn fe_equal(a: &FieldElement, b: &FieldElement) -> (r: bool)
    requires
        a.wf(),
        b.wf(),
    ensures
        r <==> a.val() == b.val(),
{
    let r = bytes_equal(&a.bytes, &b.bytes);
    proof {
        if a.val() == b.val() {
            lemma_bytes_val_injective(a.bytes@, b.bytes@);
        }
    }
    r
}

/// Relies on ark_ff's `Add` for `Fr`: addition of residues modulo the field
/// order, on canonical 32-byte little-endian encodings.
#[verifier::external_body]
pub(crate) fn fr_add(a: &FieldElement, b: &FieldElement) -> (r: FieldElement)
    requires
        a.wf(),
        b.wf(),
    ensures
        r.wf(),
        r.val() == fadd(a.val(), b.val()),
{
    let x = Fr::deserialize(&a.bytes[..]).unwrap();
    let y = Fr::deserialize(&b.bytes[..]).unwrap();
    let mut out: Vec<u8> = Vec::new();
    (x + y).serialize(&mut out).unwrap();
    FieldElement { bytes: out }
}

/// Relies on ark_ff's `Sub` for `Fr`: subtraction of residues modulo the
/// field order, on canonical 32-byte little-endian encodings.
#[verifier::external_body]
pub(crate) fn fr_sub(a: &FieldElement, b: &FieldElement) -> (r: FieldElement)
    requires
        a.wf(),
        b.wf(),
    ensures
        r.wf(),
        r.val() == fsub(a.val(), b.val()),
{
    let x = Fr::deserialize(&a.bytes[..]).unwrap();
    let y = Fr::deserialize(&b.bytes[..]).unwrap();
    let mut out: Vec<u8> = Vec::new();
    (x - y).serialize(&mut out).unwrap();
    FieldElement { bytes: out }
}

/// Relies on ark_ff's `Mul` for `Fr`: multiplication of residues modulo the
/// field order, on canonical 32-byte little-endian encodings.
#[verifier::external_body]
pub(crate) fn fr_mul(a: &FieldElement, b: &FieldElement) -> (r: FieldElement)
    requires
        a.wf(),
        b.wf(),
    ensures
        r.wf(),
        r.val() == fmul(a.val(), b.val()),
{
    let x = Fr::deserialize(&a.bytes[..]).unwrap();
    let y = Fr::deserialize(&b.bytes[..]).unwrap();
    let mut out: Vec<u8> = Vec::new();
    (x * y).serialize(&mut out).unwrap();
    FieldElement { bytes: out }
}

/// What ark_ff's division hands back: the product of the numerator with the
/// inverse of the (nonzero) divisor, the inverse being below the field order
/// and multiplying with the divisor to one.
pub open spec fn is_quotient(r: FieldElement, nv: nat, dv: nat) -> bool {
    r.val() == fmul(nv, fr_inverse(dv)) && (fr_inverse(dv) * dv) % fr_order() == 1 && fr_inverse(
        dv,
    ) < fr_order()
}

/// Relies on ark_ff's `Div` for `Fr`: multiplication by the multiplicative
/// inverse of the (nonzero) divisor, which ark computes as a pure function of
/// the residue and which satisfies `inverse(d) * d == 1` modulo the order.
#[verifier::external_body]
pub(crate) fn fr_div(n: &FieldElement, d: &FieldElement) -> (r: FieldElement)
    requires
        n.wf(),
        d.wf(),
        d.val() != 0,
    ensures
        r.wf(),
        r.val() == fmul(n.val(), fr_inverse(d.val())),
        is_quotient(r, n.val(), d.val()),
{
    let x = Fr::deserialize(&n.bytes[..]).unwrap();
    let y = Fr::deserialize(&d.bytes[..]).unwrap();
    let mut out: Vec<u8> = Vec::new();
    (x / y).serialize(&mut out).unwrap();
    FieldElement { bytes: out }
}

/// Relies on ark_ff's `CanonicalDeserialize` for `Fr`: reading 32
/// little-endian bytes succeeds exactly when their value is below the field
/// order.
#[verifier::external_body]
pub(crate) fn fr_from_bytes(b: Vec<u8>) -> (r: Option<FieldElement>)
    requires
        b@.len() == 32,
    ensures
        r is Some <==> bytes_val(b@) < fr_order(),
        r matches Some(f) ==> f.bytes@ == b@ && f.wf(),
{
    match Fr::deserialize(&b[..]) {
        Ok(_) => Some(FieldElement { bytes: b }),
        Err(_) => None,
    }
}

} // verus!
