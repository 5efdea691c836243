//! The commitment primitive: an opaque, deterministic multi-scalar
//! combination of a polynomial's coefficients against the structured
//! reference string, computed by the external curve arithmetic.
use vstd::prelude::*;

use ark_bls12_381::{Fr, G1Affine};
use ark_ec::{AffineCurve, ProjectiveCurve};
use ark_ff::PrimeField;
use ark_serialize::{CanonicalDeserialize, CanonicalSerialize};

use crate::field::FieldElement;
use crate::poly::{all_wf, fe_vals};

verus! {

/// Whether 96 bytes decode to an affine point under ark's unchecked
/// uncompressed decoding: a pure function of the bytes.
pub uninterp spec fn decodes_to_point(bytes: Seq<u8>) -> bool;

/// What the multi-scalar combination returns: the canonical uncompressed
/// encoding of the group element committing the given coefficients against
/// the given setup, a pure function of both.
pub uninterp spec fn commit_of(coeffs: Seq<nat>, setup: Seq<Seq<u8>>) -> Seq<u8>;

/// A point of the curve's affine group, held as its canonical 96-byte
/// uncompressed encoding.
#[derive(Debug)]
pub struct GroupElement {
    pub bytes: Vec<u8>,
}

impl GroupElement {
    /// The encoding is 96 bytes and decodes to a point.
    pub open spec fn wf(&self) -> bool {
        self.bytes@.len() == 96 && decodes_to_point(self.bytes@)
    }
}

/// The encodings of a sequence of group elements.
pub open spec fn group_bytes(s: Seq<GroupElement>) -> Seq<Seq<u8>> {
    s.map_values(|g: GroupElement| g.bytes@)
}

/// Every element of the setup is well-formed.
pub open spec fn all_points_wf(s: Seq<GroupElement>) -> bool {
    forall|i: int| 0 <= i < s.len() ==> s[i].wf()
}

/// Relies on ark_ec's `CanonicalDeserialize` for `G1Affine`: unchecked
/// uncompressed decoding succeeds or fails as a pure function of the 96
/// bytes alone.
#[verifier::external_body]
pub(crate) fn point_from_bytes(b: Vec<u8>) -> (r: Option<GroupElement>)
    requires
        b@.len() == 96,
    ensures
        r is Some <==> decodes_to_point(b@),
        r matches Some(g) ==> g.bytes@ == b@ && g.wf(),
{
    match G1Affine::deserialize_unchecked(&b[..]) {
        Ok(_) => Some(GroupElement { bytes: b }),
        Err(_) => None,
    }
}

/// Relies on ark_ec's `VariableBaseMSM::multi_scalar_mul` and the canonical
/// (de)serialization of `G1Affine` and `Fr`: the commitment is the
/// multi-scalar combination of the coefficients against the setup points, a
/// deterministic function of both, and its canonical uncompressed encoding
/// is 96 bytes that decode back to the same point.
#[verifier::external_body]
pub fn commit(coeffs: &Vec<FieldElement>, setup: &Vec<GroupElement>) -> (r: GroupElement)
    requires
        all_wf(coeffs@),
        all_points_wf(setup@),
        coeffs@.len() <= setup@.len(),
    ensures
        r.wf(),
        r.bytes@ == commit_of(fe_vals(coeffs@), group_bytes(setup@)),
{
    let bases: Vec<G1Affine> = setup.iter().map(
        |g: &GroupElement| G1Affine::deserialize_unchecked(&g.bytes[..]).unwrap(),
    ).collect();
    let scalars: Vec<<Fr as PrimeField>::BigInt> = coeffs.iter().map(
        |c: &FieldElement| Fr::deserialize(&c.bytes[..]).unwrap().into_repr(),
    ).collect();
    let p = ark_ec::msm::VariableBaseMSM::multi_scalar_mul(&bases, &scalars).into_affine();
    let mut out: Vec<u8> = Vec::new();
    p.serialize_uncompressed(&mut out).unwrap();
    GroupElement { bytes: out }
}

} // verus!
