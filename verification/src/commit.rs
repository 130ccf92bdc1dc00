//! Reference Pedersen commitment over the Pallas curve.
//!
//! The commitment `C = [v]·V + [r]·R` is computed off-circuit, directly over
//! curve arithmetic, to produce and validate the public values the circuit
//! exposes. Field elements and scalars travel as their canonical 32-byte
//! little-endian representations; curve points travel as their 32-byte
//! compressed encodings. The curve arithmetic itself is done by
//! `pasta_curves` behind small trusted wrappers; everything around the calls
//! — generator tags, the base-to-scalar reuse of a representation, the
//! composition of the two multiplications and the addition — is verified.

use vstd::prelude::*;
use halo2_proofs::arithmetic::{CurveAffine, CurveExt};
use halo2_proofs::pasta::group::{Curve, GroupEncoding};
use halo2_proofs::pasta::group::ff::PrimeField;
use halo2_proofs::pasta::pallas;
use crate::constants::{
    BOARD_COMMITMENT_R_BYTE, BOARD_COMMITMENT_V_BYTE, pallas_base_modulus,
    pallas_scalar_modulus,
};
use crate::decompose::le_value;

verus! {

/// The compressed encoding of the generator derived for personalization
/// byte `tag` under the protocol's domain-separation string. Hash-to-curve
/// is deterministic: the point depends on the tag alone.
pub uninterp spec fn generator_of(tag: u8) -> Seq<u8>;

/// The compressed encoding of `[s]·P`, for a point encoding `point` and the
/// canonical representation `scalar` of a scalar.
pub uninterp spec fn mul_of(point: Seq<u8>, scalar: Seq<u8>) -> Seq<u8>;

/// The compressed encoding of `P + Q`, for point encodings `p` and `q`.
pub uninterp spec fn add_of(p: Seq<u8>, q: Seq<u8>) -> Seq<u8>;

/// The canonical representation of the affine x-coordinate of the point
/// encoded by `point`.
pub uninterp spec fn x_coord_of(point: Seq<u8>) -> Seq<u8>;

/// The canonical representation of the affine y-coordinate of the point
/// encoded by `point`.
pub uninterp spec fn y_coord_of(point: Seq<u8>) -> Seq<u8>;

/// Whether the point encoded by `point` has affine coordinates, which is
/// the case exactly when it is not the identity.
pub uninterp spec fn has_coords(point: Seq<u8>) -> bool;

/// Whether `point` is a valid 32-byte compressed encoding of a Pallas
/// point.
pub uninterp spec fn point_decodable(point: Seq<u8>) -> bool;

/// Relies on `pallas::Point::hash_to_curve`: a deterministic,
/// domain-separated map from a message to a curve point, so the result is a
/// function of the personalization tag alone; and on
/// `GroupEncoding::to_bytes`, whose 32-byte output `from_bytes` accepts.
#[verifier::external_body]
fn generator_point(tag: u8) -> (r: Vec<u8>)
    ensures
        r@ == generator_of(tag),
        r@.len() == 32,
        point_decodable(r@),
{
    let hasher = pallas::Point::hash_to_curve("battlezips:hash2curve");
    let point = hasher(&[tag]);
    point.to_bytes().to_vec()
}

/// Relies on the scalar multiplication `Ep * Fq` of `pasta_curves`, a
/// function of its two operands; on `GroupEncoding::from_bytes`, which
/// accepts the encodings this module passes around; and on
/// `PrimeField::from_repr`, which accepts exactly the canonical
/// representations, those below the scalar modulus.
#[verifier::external_body]
fn point_mul(point: &Vec<u8>, scalar: &Vec<u8>) -> (r: Vec<u8>)
    requires
        point@.len() == 32,
        scalar@.len() == 32,
        point_decodable(point@),
        le_value(scalar@) < pallas_scalar_modulus(),
    ensures
        r@ == mul_of(point@, scalar@),
        r@.len() == 32,
        point_decodable(r@),
{
    let pbytes: [u8; 32] = point.as_slice().try_into().unwrap();
    let p = pallas::Point::from_bytes(&pbytes).unwrap();
    let sbytes: [u8; 32] = scalar.as_slice().try_into().unwrap();
    let s = pallas::Scalar::from_repr(sbytes).unwrap();
    (p * s).to_bytes().to_vec()
}

/// Relies on the point addition `Ep + Ep` of `pasta_curves`, a function of
/// its two operands, and on the group encoding as in `point_mul`.
#[verifier::external_body]
fn point_add(p: &Vec<u8>, q: &Vec<u8>) -> (r: Vec<u8>)
    requires
        p@.len() == 32,
        q@.len() == 32,
        point_decodable(p@),
        point_decodable(q@),
    ensures
        r@ == add_of(p@, q@),
        r@.len() == 32,
        point_decodable(r@),
{
    let pbytes: [u8; 32] = p.as_slice().try_into().unwrap();
    let qbytes: [u8; 32] = q.as_slice().try_into().unwrap();
    let pp = pallas::Point::from_bytes(&pbytes).unwrap();
    let qq = pallas::Point::from_bytes(&qbytes).unwrap();
    (pp + qq).to_bytes().to_vec()
}

/// Relies on `CurveAffine::coordinates`, which returns the affine
/// coordinates of a point and fails exactly on the identity, and on
/// `PrimeField::to_repr`, whose output is the canonical representation of
/// a base field element, an integer below the base modulus.
#[verifier::external_body]
fn point_coords(point: &Vec<u8>) -> (r: Option<(Vec<u8>, Vec<u8>)>)
    requires
        point@.len() == 32,
        point_decodable(point@),
    ensures
        (r is Some) == has_coords(point@),
        r matches Some(c) ==> {
            &&& c.0@ == x_coord_of(point@)
            &&& c.1@ == y_coord_of(point@)
            &&& c.0@.len() == 32
            &&& c.1@.len() == 32
            &&& le_value(c.0@) < pallas_base_modulus()
            &&& le_value(c.1@) < pallas_base_modulus()
        },
{
    let bytes: [u8; 32] = point.as_slice().try_into().unwrap();
    let affine = pallas::Point::from_bytes(&bytes).unwrap().to_affine();
    let coords: Option<_> = affine.coordinates().into();
    coords.map(|c: halo2_proofs::arithmetic::Coordinates<pallas::Affine>| {
        (c.x().to_repr().to_vec(), c.y().to_repr().to_vec())
    })
}

/// Relies on `GroupEncoding::from_bytes`, which reports through `CtOption`
/// whether 32 bytes are a valid compressed point encoding.
#[verifier::external_body]
fn point_repr_check(point: &Vec<u8>) -> (r: bool)
    requires
        point@.len() == 32,
    ensures
        r == point_decodable(point@),
{
    let bytes: [u8; 32] = point.as_slice().try_into().unwrap();
    bool::from(pallas::Point::from_bytes(&bytes).is_some())
}

/// Derives a commitment generator: the hash-to-curve image of the
/// one-byte personalization tag under the protocol's domain-separation
/// string. Deterministic — with the same tag it returns the same point,
/// however often it is called — and total for every tag byte.
pub fn derive_generator(tag: u8) -> (r: Vec<u8>)
    ensures
        r@ == generator_of(tag),
        r@.len() == 32,
        point_decodable(r@),
{
    generator_point(tag)
}

/// The commitment to `value` under trapdoor `trapdoor`:
/// `[value]·V + [trapdoor]·R`, with `V` and `R` the generators derived
/// for the two personalization tags.
pub open spec fn commitment_of(value: Seq<u8>, trapdoor: Seq<u8>) -> Seq<u8> {
    add_of(
        mul_of(generator_of(BOARD_COMMITMENT_V_BYTE), value),
        mul_of(generator_of(BOARD_COMMITMENT_R_BYTE), trapdoor),
    )
}

/// Computes the Pedersen commitment `[value]·V + [trapdoor]·R` directly
/// over curve arithmetic, outside any circuit. `value` is the canonical
/// representation of a base field element; because the base modulus is
/// smaller than the scalar modulus, the same bytes canonically represent
/// the scalar the curve is multiplied by, exactly as a base field element
/// is reused as a scalar in the circuit.
pub fn derive_commitment(value: &Vec<u8>, trapdoor: &Vec<u8>) -> (r: Vec<u8>)
    requires
        value@.len() == 32,
        trapdoor@.len() == 32,
        le_value(value@) < pallas_base_modulus(),
        le_value(trapdoor@) < pallas_scalar_modulus(),
    ensures
        r@ == commitment_of(value@, trapdoor@),
        r@.len() == 32,
        point_decodable(r@),
{
    proof {
        assert(pallas_base_modulus() < pallas_scalar_modulus());
    }
    let v_generator = generator_point(BOARD_COMMITMENT_V_BYTE);
    let r_generator = generator_point(BOARD_COMMITMENT_R_BYTE);
    let committed = point_mul(&v_generator, value);
    let blind = point_mul(&r_generator, trapdoor);
    point_add(&committed, &blind)
}

/// Given the compressed encoding of a point that is not the identity,
/// returns the canonical representations of its affine x and y
/// coordinates — the two values the circuit exposes publicly, in this
/// order.
pub fn get_coordinates(point: &Vec<u8>) -> (r: (Vec<u8>, Vec<u8>))
    requires
        point@.len() == 32,
        point_decodable(point@),
        has_coords(point@),
    ensures
        r.0@ == x_coord_of(point@),
        r.1@ == y_coord_of(point@),
        r.0@.len() == 32,
        r.1@.len() == 32,
        le_value(r.0@) < pallas_base_modulus(),
        le_value(r.1@) < pallas_base_modulus(),
{
    point_coords(point).unwrap()
}

/// Like `get_coordinates`, for bytes of unknown provenance: returns the
/// coordinates exactly when the bytes encode a point other than the
/// identity, and `None` otherwise.
pub fn try_get_coordinates(point: &Vec<u8>) -> (r: Option<(Vec<u8>, Vec<u8>)>)
    ensures
        (r is Some) <==> (point@.len() == 32 && point_decodable(point@) && has_coords(
            point@,
        )),
        r matches Some(c) ==> {
            &&& c.0@ == x_coord_of(point@)
            &&& c.1@ == y_coord_of(point@)
            &&& c.0@.len() == 32
            &&& c.1@.len() == 32
        },
{
    if point.len() != 32 {
        return None;
    }
    if !point_repr_check(point) {
        return None;
    }
    match point_coords(point) {
        Some(_) => Some(get_coordinates(point)),
        None => None,
    }
}

} // verus!
