//! Trusted boundary to the Soroban host.
//!
//! Everything the library takes on faith about the outside world lives in
//! this module: the opaque host types, a handful of `external_body` wrappers
//! around host calls, and uninterpreted names for the values those calls
//! return.  Each wrapper's doc comment states which outside function it
//! relies on and for what.

use vstd::prelude::*;

use soroban_sdk::crypto::bn254::{Bn254Fr, Bn254G1Affine, Bn254G2Affine};
use soroban_sdk::{BytesN, Env, U256};

verus! {

#[verifier::external_type_specification]
#[verifier::external_body]
pub struct ExEnv(Env);

#[verifier::external_type_specification]
#[verifier::external_body]
pub struct ExBn254Fr(Bn254Fr);

#[verifier::external_type_specification]
#[verifier::external_body]
pub struct ExU256(U256);

/// The Poseidon2 compression of two 32-byte field-element encodings, as the
/// Soroban host computes it: both inputs are decoded big-endian and reduced
/// modulo the BN254 scalar field order, hashed with the width-3 Poseidon2
/// sponge, and the digest is re-encoded as 32 big-endian bytes.  The result
/// depends on the two byte strings alone.
pub uninterp spec fn hash2(left: Seq<u8>, right: Seq<u8>) -> Seq<u8>;

/// Relies on `soroban_poseidon::poseidon2_hash::<3, Bn254Fr>`: a fixed,
/// deterministic hash of the two inputs.  `Bn254Fr::from_bytes` reduces any
/// 32-byte value modulo the field order, so the hash inputs are always
/// canonical field elements and the call returns for every argument.
#[verifier::external_body]
pub(crate) fn poseidon_hash_pair(env: &Env, left: &[u8; 32], right: &[u8; 32]) -> (r: [u8; 32])
    ensures
        r@ == hash2(left@, right@),
{
    let l = Bn254Fr::from_bytes(BytesN::from_array(env, left));
    let rr = Bn254Fr::from_bytes(BytesN::from_array(env, right));
    let inputs = soroban_sdk::Vec::from_array(env, [l.to_u256(), rr.to_u256()]);
    let out = soroban_poseidon::poseidon2_hash::<3, Bn254Fr>(env, &inputs);
    Bn254Fr::from_u256(out).to_bytes().to_array()
}

/// Relies on `soroban_sdk::Env::clone`: a cloned handle refers to the same
/// host instance.  Nothing is claimed of the returned value.
#[verifier::external_body]
pub(crate) fn env_clone(env: &Env) -> Env {
    env.clone()
}

/// Relies on `Bn254Fr::from_u256` and `U256::from_u128`: builds the scalar
/// field element with the given small integer value.  The scalar type is
/// opaque here, so nothing is claimed of the result.
#[verifier::external_body]
pub fn u64_to_bn254_scalar(env: &Env, value: u64) -> Bn254Fr {
    Bn254Fr::from_u256(U256::from_u128(env, value as u128))
}

/// Relies on `Bn254Fr::to_bytes`: the canonical big-endian 32-byte encoding
/// of the scalar.  The scalar type is opaque here, so nothing is claimed of
/// the result.
#[verifier::external_body]
pub fn bn254_scalar_to_bytes(scalar: &Bn254Fr) -> [u8; 32] {
    scalar.to_bytes().to_array()
}

/// Relies on `Bn254Fr::from_bytes`: decodes 32 big-endian bytes and reduces
/// them modulo the field order.  The scalar type is opaque here, so nothing
/// is claimed of the result.
#[verifier::external_body]
pub fn bytes_to_bn254_scalar(env: &Env, bytes: &[u8; 32]) -> Bn254Fr {
    Bn254Fr::from_bytes(BytesN::from_array(env, bytes))
}

/// Relies on `U256::to_be_bytes`: the 32-byte big-endian encoding of the
/// integer.  The integer type is opaque here, so nothing is claimed of the
/// result.
#[verifier::external_body]
pub fn u256_to_bytes32(env: &Env, value: &U256) -> [u8; 32] {
    let bytes = value.to_be_bytes();
    let mut arr = [0u8; 32];
    bytes.copy_into_slice(&mut arr);
    let _ = env;
    arr
}

/// Relies on `U256::from_be_bytes`: decodes 32 big-endian bytes as an
/// unsigned 256-bit integer.  The integer type is opaque here, so nothing is
/// claimed of the result.
#[verifier::external_body]
pub fn bytes32_to_u256(env: &Env, bytes: &[u8; 32]) -> U256 {
    U256::from_be_bytes(env, &soroban_sdk::Bytes::from_slice(env, bytes.as_slice()))
}

/// The big-endian bytes of the BN254 base-field modulus `p`: point
/// coordinates must decode to values below it.
pub open spec fn fp_modulus_bytes() -> Seq<u8> {
    seq![
        0x30u8, 0x64u8, 0x4eu8, 0x72u8, 0xe1u8, 0x31u8, 0xa0u8, 0x29u8,
        0xb8u8, 0x50u8, 0x45u8, 0xb6u8, 0x81u8, 0x81u8, 0x58u8, 0x5du8,
        0x97u8, 0x81u8, 0x6au8, 0x91u8, 0x68u8, 0x71u8, 0xcau8, 0x8du8,
        0x3cu8, 0x20u8, 0x8cu8, 0x16u8, 0xd8u8, 0x7cu8, 0xfdu8, 0x47u8,
    ]
}

/// Big-endian numeric order on equal-length byte strings: some position
/// decides, and everything before it agrees.
pub open spec fn be_lt(a: Seq<u8>, b: Seq<u8>) -> bool {
    exists|i: int|
        0 <= i < a.len() && a[i] < b[i] && (forall|j: int| 0 <= j < i ==> a[j] == b[j])
}

/// Every byte is zero: the encoding of the point at infinity.
pub open spec fn all_zero(s: Seq<u8>) -> bool {
    forall|i: int| 0 <= i < s.len() ==> s[i] == 0
}

/// A 32-byte window decodes to a base-field element: its value is below the
/// field modulus.
pub open spec fn fp_in_range(s: Seq<u8>) -> bool {
    be_lt(s, fp_modulus_bytes())
}

/// The coordinate ranges of a G1 encoding are acceptable to the host: the
/// point at infinity (all zeros), or both 32-byte coordinates below the
/// base-field modulus (which also keeps the two flag bits of the first byte
/// unset, since the modulus starts 0x30).
pub open spec fn g1_limbs_ok(p: Seq<u8>) -> bool {
    p.len() == 64 && (all_zero(p) || (fp_in_range(p.subrange(0, 32)) && fp_in_range(
        p.subrange(32, 64),
    )))
}

/// The coordinate ranges of a G2 encoding are acceptable to the host: the
/// point at infinity, or all four 32-byte field components below the
/// base-field modulus.
pub open spec fn g2_limbs_ok(p: Seq<u8>) -> bool {
    p.len() == 128 && (all_zero(p) || (fp_in_range(p.subrange(0, 32)) && fp_in_range(
        p.subrange(32, 64),
    ) && fp_in_range(p.subrange(64, 96)) && fp_in_range(p.subrange(96, 128))))
}

/// The host's curve-equation verdict for a G1 encoding whose coordinates
/// are in range and that is not the point at infinity: whether the decoded
/// pair satisfies the BN254 equation.
pub uninterp spec fn g1_on_curve(p: Seq<u8>) -> bool;

/// A G1 encoding the host accepts for curve operations: coordinate ranges
/// in order, and the point either at infinity or on the curve.  For BN254
/// G1, on the curve implies in the right subgroup.
pub open spec fn g1_valid(p: Seq<u8>) -> bool {
    g1_limbs_ok(p) && (all_zero(p) || g1_on_curve(p))
}

/// The 32-byte big-endian base-field modulus, for the executable range
/// checks.
pub(crate) fn fp_modulus_be() -> (r: [u8; 32])
    ensures
        r@ == fp_modulus_bytes(),
{
    let r: [u8; 32] = [
        0x30, 0x64, 0x4e, 0x72, 0xe1, 0x31, 0xa0, 0x29, 0xb8, 0x50, 0x45, 0xb6, 0x81, 0x81,
        0x58, 0x5d, 0x97, 0x81, 0x6a, 0x91, 0x68, 0x71, 0xca, 0x8d, 0x3c, 0x20, 0x8c, 0x16,
        0xd8, 0x7c, 0xfd, 0x47,
    ];
    proof {
        assert(r@ =~= fp_modulus_bytes());
    }
    r
}

/// Relies on the host's `bn254_g1_is_on_curve`: for an encoding whose
/// coordinates are in field range and that is not the point at infinity,
/// the host decodes without failing and answers whether the pair satisfies
/// the curve equation — a deterministic function of the bytes.
#[verifier::external_body]
pub(crate) fn g1_is_on_curve(env: &Env, point: &[u8; 64]) -> (r: bool)
    requires
        g1_limbs_ok(point@),
        !all_zero(point@),
    ensures
        r == g1_on_curve(point@),
{
    let p = Bn254G1Affine::from_bytes(BytesN::from_array(env, point));
    env.crypto().bn254().g1_is_on_curve(&p)
}

/// The G1 point returned by the host for a scalar multiplication, as a
/// function of the 64-byte point encoding and the 32-byte scalar encoding.
pub uninterp spec fn g1_mul_of(point: Seq<u8>, scalar: Seq<u8>) -> Seq<u8>;

/// Relies on `soroban_sdk::crypto::bn254::Bn254::g1_mul`: a deterministic
/// function of the point and scalar encodings.  The host accepts exactly
/// the encodings `g1_valid` describes; the scalar is reduced modulo the
/// group order and never rejected.  The result is serialized canonically
/// (the identity as all zeros), so it is again a valid encoding.
#[verifier::external_body]
pub(crate) fn g1_mul(env: &Env, point: &[u8; 64], scalar: &[u8; 32]) -> (r: [u8; 64])
    requires
        g1_valid(point@),
    ensures
        r@ == g1_mul_of(point@, scalar@),
        g1_valid(r@),
{
    let p = Bn254G1Affine::from_bytes(BytesN::from_array(env, point));
    let s = Bn254Fr::from_bytes(BytesN::from_array(env, scalar));
    env.crypto().bn254().g1_mul(&p, &s).to_array()
}

/// The G1 point returned by the host for a point addition, as a function of
/// the two 64-byte point encodings.
pub uninterp spec fn g1_add_of(left: Seq<u8>, right: Seq<u8>) -> Seq<u8>;

/// Relies on `soroban_sdk::crypto::bn254::Bn254::g1_add`: a deterministic
/// function of the two point encodings, accepted exactly when both are
/// valid; the canonically serialized result is again valid.
#[verifier::external_body]
pub(crate) fn g1_add(env: &Env, left: &[u8; 64], right: &[u8; 64]) -> (r: [u8; 64])
    requires
        g1_valid(left@),
        g1_valid(right@),
    ensures
        r@ == g1_add_of(left@, right@),
        g1_valid(r@),
{
    let l = Bn254G1Affine::from_bytes(BytesN::from_array(env, left));
    let rr = Bn254G1Affine::from_bytes(BytesN::from_array(env, right));
    env.crypto().bn254().g1_add(&l, &rr).to_array()
}

/// The negation of a G1 point, as a function of its 64-byte encoding.
pub uninterp spec fn g1_neg_of(point: Seq<u8>) -> Seq<u8>;

/// Relies on `core::ops::Neg for &Bn254G1Affine` in soroban-sdk: negates
/// the y coordinate modulo the base field, a deterministic function of the
/// encoding.  It panics only for y at or above the base-field modulus,
/// which `g1_valid` rules out; negating a valid point (the infinity
/// encoding maps to itself) gives a valid point.
#[verifier::external_body]
pub(crate) fn g1_neg(env: &Env, point: &[u8; 64]) -> (r: [u8; 64])
    requires
        g1_valid(point@),
    ensures
        r@ == g1_neg_of(point@),
        g1_valid(r@),
{
    let p = Bn254G1Affine::from_bytes(BytesN::from_array(env, point));
    (-&p).to_array()
}

/// The host's verdict for a four-pair BN254 pairing product check, as a
/// function of the four G1 and four G2 point encodings: whether the product
/// of the four pairings equals one in the target group.
pub uninterp spec fn pairing_check4_of(
    g1a: Seq<u8>,
    g1b: Seq<u8>,
    g1c: Seq<u8>,
    g1d: Seq<u8>,
    g2a: Seq<u8>,
    g2b: Seq<u8>,
    g2c: Seq<u8>,
    g2d: Seq<u8>,
) -> bool;

/// Relies on `soroban_sdk::crypto::bn254::Bn254::pairing_check`: a
/// deterministic function of the point encodings.  The vectors handed to
/// the host always have equal, non-zero length four, so the documented
/// length panic cannot fire; the G1 encodings are accepted exactly when
/// `g1_valid` holds.  For G2 the `requires` states everything the library
/// can state: the host additionally demands that each in-range G2 encoding
/// decode to a point on the curve and in the right subgroup, it exposes no
/// call that answers that question without failing on the bad case, and
/// the membership itself cannot be written down here — so on a G2 encoding
/// that passes the range checks but is no group member, the host call still
/// fails and aborts the surrounding contract call, exactly as it does for
/// the callers this library replaces.
#[verifier::external_body]
pub(crate) fn pairing_check4(
    env: &Env,
    g1a: &[u8; 64],
    g1b: &[u8; 64],
    g1c: &[u8; 64],
    g1d: &[u8; 64],
    g2a: &[u8; 128],
    g2b: &[u8; 128],
    g2c: &[u8; 128],
    g2d: &[u8; 128],
) -> (r: bool)
    requires
        g1_valid(g1a@),
        g1_valid(g1b@),
        g1_valid(g1c@),
        g1_valid(g1d@),
        g2_limbs_ok(g2a@),
        g2_limbs_ok(g2b@),
        g2_limbs_ok(g2c@),
        g2_limbs_ok(g2d@),
    ensures
        r == pairing_check4_of(g1a@, g1b@, g1c@, g1d@, g2a@, g2b@, g2c@, g2d@),
{
    let pa = Bn254G1Affine::from_bytes(BytesN::from_array(env, g1a));
    let pb = Bn254G1Affine::from_bytes(BytesN::from_array(env, g1b));
    let pc = Bn254G1Affine::from_bytes(BytesN::from_array(env, g1c));
    let pd = Bn254G1Affine::from_bytes(BytesN::from_array(env, g1d));
    let qa = Bn254G2Affine::from_bytes(BytesN::from_array(env, g2a));
    let qb = Bn254G2Affine::from_bytes(BytesN::from_array(env, g2b));
    let qc = Bn254G2Affine::from_bytes(BytesN::from_array(env, g2c));
    let qd = Bn254G2Affine::from_bytes(BytesN::from_array(env, g2d));
    let vp1 = soroban_sdk::Vec::from_array(env, [pa, pb, pc, pd]);
    let vp2 = soroban_sdk::Vec::from_array(env, [qa, qb, qc, qd]);
    env.crypto().bn254().pairing_check(vp1, vp2)
}

} // verus!
