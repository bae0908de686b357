//! The Groth16 proof verifier over BN254.
//!
//! Verification is delegated to the host's pairing primitive through the
//! trusted boundary: the verifier's own work — checked here — is the wire
//! parsing, the shape check between the verification key and the public
//! signals, the validation of the point encodings, and the assembly of the
//! public-input linear combination fed to the pairing check.  Curve points
//! travel as their fixed-width byte encodings and are validated before any
//! host operation: G1 points completely (coordinate ranges here, the curve
//! equation through the host's non-failing check), G2 points as far as the
//! host allows (coordinate ranges; it exposes no non-failing membership
//! check), with malformed-input errors returned for what fails.  Only an
//! in-range G2 encoding that is no group member still aborts inside the
//! host's pairing call.

use vstd::prelude::*;

use soroban_sdk::Env;

use crate::host::{
    all_zero, fp_in_range, fp_modulus_be, fp_modulus_bytes, g1_add, g1_add_of, g1_is_on_curve,
    g1_mul, g1_mul_of, g1_neg, g1_neg_of, g1_valid, g2_limbs_ok, be_lt, pairing_check4,
    pairing_check4_of,
};
use crate::tree::views_of;
use crate::zk::{be32_at, be32_read, read_bytes, vk_wire_ok};

verus! {

/// BN254 G1 affine point size (32 bytes for x, 32 for y).
pub const G1_SIZE: usize = 64;

/// BN254 G2 affine point size (64 bytes for x, 64 for y, over Fp2).
pub const G2_SIZE: usize = 128;

/// BN254 scalar size.
pub const FR_SIZE: usize = 32;

/// Errors of the proof verifier.
#[derive(Clone, Copy, Debug, PartialEq, Eq, PartialOrd, Ord, Structural)]
pub enum VerifierError {
    MalformedVerificationKey,
    MalformedProof,
    InvalidPublicSignals,
    PairingCheckFailed,
}

/// A Groth16 verification key over BN254, as point encodings.
pub struct VerificationKey {
    pub alpha: [u8; 64],
    pub beta: [u8; 128],
    pub gamma: [u8; 128],
    pub delta: [u8; 128],
    pub ic: Vec<[u8; 64]>,
}

/// A Groth16 proof over BN254, as point encodings.
pub struct Proof {
    pub a: [u8; 64],
    pub b: [u8; 128],
    pub c: [u8; 64],
}

/// The public-input linear combination after `n` terms:
/// `ic[0] + signals[0] * ic[1] + ... + signals[n-1] * ic[n]`, over the
/// host's G1 operations.
pub open spec fn vk_x_spec(ic: Seq<Seq<u8>>, signals: Seq<Seq<u8>>, n: int) -> Seq<u8>
    recommends
        0 <= n < ic.len(),
        n <= signals.len(),
    decreases n,
{
    if n <= 0 {
        ic[0]
    } else {
        g1_add_of(vk_x_spec(ic, signals, n - 1), g1_mul_of(ic[n], signals[n - 1]))
    }
}

/// The verifier's verdict over a parsed key, proof, and signals: the host's
/// pairing product check on `e(-A, B) e(alpha, beta) e(vk_x, gamma)
/// e(C, delta)`.
pub open spec fn verify_spec(vk: VerificationKey, pf: Proof, signals: Seq<[u8; 32]>) -> bool {
    pairing_check4_of(
        g1_neg_of(pf.a@),
        vk.alpha@,
        vk_x_spec(views_of(vk.ic@), views_of(signals), signals.len() as int),
        pf.c@,
        pf.b@,
        vk.beta@,
        vk.gamma@,
        vk.delta@,
    )
}

/// Whether proof bytes carry a proof: exactly the 256 payload bytes.
pub open spec fn proof_wire_ok(bytes: Seq<u8>) -> bool {
    bytes.len() == 256
}

/// The `i`-th `ic` point of a serialized verification key.
pub open spec fn ic_point(bytes: Seq<u8>, i: int) -> Seq<u8> {
    bytes.subrange(452 + 64 * i, 516 + 64 * i)
}

/// The `i`-th scalar of serialized public signals.
pub open spec fn signal_at(bytes: Seq<u8>, i: int) -> Seq<u8> {
    bytes.subrange(4 + 32 * i, 36 + 32 * i)
}

/// The public-input linear combination read off the wire forms.
pub open spec fn vk_x_bytes_spec(vk_bytes: Seq<u8>, sig_bytes: Seq<u8>, n: int) -> Seq<u8>
    decreases n,
{
    if n <= 0 {
        ic_point(vk_bytes, 0)
    } else {
        g1_add_of(
            vk_x_bytes_spec(vk_bytes, sig_bytes, n - 1),
            g1_mul_of(ic_point(vk_bytes, n), signal_at(sig_bytes, n - 1)),
        )
    }
}

/// The verifier's verdict read off the three wire forms: the pairing
/// product check over the encoded points, with the linear combination
/// assembled from the encoded signals.
pub open spec fn verify_bytes_spec(
    vk_bytes: Seq<u8>,
    proof_bytes: Seq<u8>,
    sig_bytes: Seq<u8>,
) -> bool {
    pairing_check4_of(
        g1_neg_of(proof_bytes.subrange(0, 64)),
        vk_bytes.subrange(0, 64),
        vk_x_bytes_spec(vk_bytes, sig_bytes, be32_at(sig_bytes, 0) as int),
        proof_bytes.subrange(192, 256),
        proof_bytes.subrange(64, 192),
        vk_bytes.subrange(64, 192),
        vk_bytes.subrange(192, 320),
        vk_bytes.subrange(320, 448),
    )
}

/// The wire-form linear combination agrees with the one over the parsed
/// pieces, when the parsed pieces are the wire's subranges.
proof fn lemma_vk_x_from_bytes(
    ic: Seq<Seq<u8>>,
    sigs: Seq<Seq<u8>>,
    vk_bytes: Seq<u8>,
    sig_bytes: Seq<u8>,
    n: int,
)
    requires
        0 <= n < ic.len(),
        n <= sigs.len(),
        forall|i: int| 0 <= i < ic.len() ==> #[trigger] ic[i] == ic_point(vk_bytes, i),
        forall|i: int| 0 <= i < sigs.len() ==> #[trigger] sigs[i] == signal_at(sig_bytes, i),
    ensures
        vk_x_spec(ic, sigs, n) == vk_x_bytes_spec(vk_bytes, sig_bytes, n),
    decreases n,
{
    if n > 0 {
        lemma_vk_x_from_bytes(ic, sigs, vk_bytes, sig_bytes, n - 1);
    }
}

/// Whether signal bytes carry public signals: the count and that many
/// 32-byte scalars (trailing bytes are ignored).
pub open spec fn signals_wire_ok(bytes: Seq<u8>) -> bool {
    bytes.len() >= 4 && bytes.len() >= 4 + 32 * be32_at(bytes, 0)
}

/// The point encodings of a verification key are acceptable to the host:
/// the G1 points fully validated (ranges and curve equation), the G2 points
/// to the extent a caller can check them (coordinate ranges).
pub open spec fn vk_points_ok(vk: VerificationKey) -> bool {
    &&& g1_valid(vk.alpha@)
    &&& g2_limbs_ok(vk.beta@)
    &&& g2_limbs_ok(vk.gamma@)
    &&& g2_limbs_ok(vk.delta@)
    &&& forall|i: int| 0 <= i < vk.ic@.len() ==> g1_valid((#[trigger] vk.ic@[i])@)
}

/// The point encodings of a proof are acceptable to the host, to the same
/// extent.
pub open spec fn proof_points_ok(pf: Proof) -> bool {
    g1_valid(pf.a@) && g2_limbs_ok(pf.b@) && g1_valid(pf.c@)
}

/// `vk_points_ok`, read off a serialized verification key.
pub open spec fn vk_bytes_points_ok(bytes: Seq<u8>) -> bool {
    &&& g1_valid(bytes.subrange(0, 64))
    &&& g2_limbs_ok(bytes.subrange(64, 192))
    &&& g2_limbs_ok(bytes.subrange(192, 320))
    &&& g2_limbs_ok(bytes.subrange(320, 448))
    &&& forall|i: int| 0 <= i < be32_at(bytes, 448) ==> g1_valid(#[trigger] ic_point(bytes, i))
}

/// `proof_points_ok`, read off a serialized proof.
pub open spec fn proof_bytes_points_ok(bytes: Seq<u8>) -> bool {
    g1_valid(bytes.subrange(0, 64)) && g2_limbs_ok(bytes.subrange(64, 192)) && g1_valid(
        bytes.subrange(192, 256),
    )
}

/// Whether the 32-byte coordinate starting at `start` decodes below the
/// base-field modulus.
fn window_in_range<const N: usize>(p: &[u8; N], start: usize) -> (r: bool)
    requires
        start + 32 <= N,
    ensures
        r == fp_in_range(p@.subrange(start as int, start as int + 32)),
{
    let m = fp_modulus_be();
    let ghost s = p@.subrange(start as int, start as int + 32);
    let mut i: usize = 0;
    while i < 32
        invariant
            start + 32 <= N,
            i <= 32,
            m@ == fp_modulus_bytes(),
            s == p@.subrange(start as int, start as int + 32),
            forall|j: int| 0 <= j < i ==> s[j] == fp_modulus_bytes()[j],
        decreases 32 - i,
    {
        let a = p[start + i];
        let b = m[i];
        proof {
            assert(s[i as int] == p@[start + i]);
        }
        if a < b {
            proof {
                assert(be_lt(s, fp_modulus_bytes()));
            }
            return true;
        }
        if a > b {
            proof {
                assert forall|k: int|
                    0 <= k < s.len() implies !(s[k] < fp_modulus_bytes()[k] && (forall|j: int|
                    0 <= j < k ==> s[j] == fp_modulus_bytes()[j])) by {
                    if k > i as int {
                        if forall|j: int| 0 <= j < k ==> s[j] == fp_modulus_bytes()[j] {
                            assert(s[i as int] == fp_modulus_bytes()[i as int]);
                        }
                    }
                }
            }
            return false;
        }
        i = i + 1;
    }
    proof {
        assert forall|k: int|
            0 <= k < s.len() implies !(s[k] < fp_modulus_bytes()[k] && (forall|j: int|
            0 <= j < k ==> s[j] == fp_modulus_bytes()[j])) by {
            assert(s[k] == fp_modulus_bytes()[k]);
        }
    }
    false
}

/// Whether every byte of the encoding is zero: the point at infinity.
fn bytes_all_zero<const N: usize>(p: &[u8; N]) -> (r: bool)
    ensures
        r == all_zero(p@),
{
    let mut i: usize = 0;
    while i < N
        invariant
            i <= N,
            forall|j: int| 0 <= j < i ==> p@[j] == 0,
        decreases N - i,
    {
        if p[i] != 0 {
            return false;
        }
        i = i + 1;
    }
    true
}

/// Full executable validation of a G1 encoding: the range checks in the
/// library, the curve equation by the host's non-failing check.
fn g1_point_ok(env: &Env, p: &[u8; 64]) -> (r: bool)
    ensures
        r == g1_valid(p@),
{
    if bytes_all_zero(p) {
        return true;
    }
    if !window_in_range(p, 0) {
        return false;
    }
    if !window_in_range(p, 32) {
        return false;
    }
    g1_is_on_curve(env, p)
}

/// Executable validation of a G2 encoding, as far as the host allows: the
/// four coordinate ranges.  Curve and subgroup membership have no
/// non-failing host check.
fn g2_point_limbs_ok(p: &[u8; 128]) -> (r: bool)
    ensures
        r == g2_limbs_ok(p@),
{
    if bytes_all_zero(p) {
        return true;
    }
    let first = window_in_range(p, 0);
    let second = window_in_range(p, 32);
    let third = window_in_range(p, 64);
    let fourth = window_in_range(p, 96);
    first && second && third && fourth
}

/// The Groth16 verifier.
pub struct Groth16VerifierBN254;

impl Groth16VerifierBN254 {
    /// Verifies a proof against a key and public signals.
    ///
    /// Fails with `MalformedVerificationKey` exactly when the key's `ic`
    /// vector does not hold one point more than there are signals or a key
    /// point fails validation, with `MalformedProof` exactly when a proof
    /// point then fails validation, and otherwise returns the host's
    /// pairing verdict.  G1 points are validated completely; G2 points as
    /// far as the host allows (coordinate ranges), so the host still
    /// aborts the call on an in-range G2 encoding that is no group member.
    pub fn verify_proof(
        env: &Env,
        vk: &VerificationKey,
        proof: &Proof,
        pub_signals: &Vec<[u8; 32]>,
    ) -> (r: Result<bool, VerifierError>)
        ensures
            match r {
                Ok(b) => {
                    &&& pub_signals@.len() + 1 == vk.ic@.len()
                    &&& vk_points_ok(*vk)
                    &&& proof_points_ok(*proof)
                    &&& b == verify_spec(*vk, *proof, pub_signals@)
                },
                Err(e) => {
                    &&& (pub_signals@.len() + 1 != vk.ic@.len() || !vk_points_ok(*vk)
                        || !proof_points_ok(*proof))
                    &&& (e == VerifierError::MalformedVerificationKey <==> (pub_signals@.len()
                        + 1 != vk.ic@.len() || !vk_points_ok(*vk)))
                    &&& (e == VerifierError::MalformedProof <==> (pub_signals@.len() + 1
                        == vk.ic@.len() && vk_points_ok(*vk) && !proof_points_ok(*proof)))
                },
            },
    {
        if vk.ic.len() == 0 || pub_signals.len() != vk.ic.len() - 1 {
            return Err(VerifierError::MalformedVerificationKey);
        }
        let alpha_ok = g1_point_ok(env, &vk.alpha);
        let beta_ok = g2_point_limbs_ok(&vk.beta);
        let gamma_ok = g2_point_limbs_ok(&vk.gamma);
        let delta_ok = g2_point_limbs_ok(&vk.delta);
        if !alpha_ok || !beta_ok || !gamma_ok || !delta_ok {
            return Err(VerifierError::MalformedVerificationKey);
        }
        let mut k: usize = 0;
        while k < vk.ic.len()
            invariant
                vk.ic@.len() == pub_signals@.len() + 1,
                g1_valid(vk.alpha@),
                g2_limbs_ok(vk.beta@),
                g2_limbs_ok(vk.gamma@),
                g2_limbs_ok(vk.delta@),
                k <= vk.ic@.len(),
                forall|i: int| 0 <= i < k ==> g1_valid((#[trigger] vk.ic@[i])@),
            decreases vk.ic@.len() - k,
        {
            if !g1_point_ok(env, &vk.ic[k]) {
                return Err(VerifierError::MalformedVerificationKey);
            }
            k = k + 1;
        }
        let a_ok = g1_point_ok(env, &proof.a);
        let b_ok = g2_point_limbs_ok(&proof.b);
        let c_ok = g1_point_ok(env, &proof.c);
        if !a_ok || !b_ok || !c_ok {
            return Err(VerifierError::MalformedProof);
        }
        let mut vk_x: [u8; 64] = vk.ic[0];
        let mut i: usize = 0;
        while i < pub_signals.len()
            invariant
                vk.ic@.len() == pub_signals@.len() + 1,
                i <= pub_signals@.len(),
                vk_points_ok(*vk),
                g1_valid(vk_x@),
                vk_x@ == vk_x_spec(views_of(vk.ic@), views_of(pub_signals@), i as int),
            decreases pub_signals@.len() - i,
        {
            let prod = g1_mul(env, &vk.ic[i + 1], &pub_signals[i]);
            vk_x = g1_add(env, &vk_x, &prod);
            i = i + 1;
        }
        let neg_a = g1_neg(env, &proof.a);
        Ok(
            pairing_check4(
                env,
                &neg_a,
                &vk.alpha,
                &vk_x,
                &proof.c,
                &proof.b,
                &vk.beta,
                &vk.gamma,
                &vk.delta,
            ),
        )
    }

    /// Verifies a proof from its serialized parts: parses the key, the
    /// proof, and the signals in that order — returning the first parser's
    /// error — then checks shapes and asks the host for the pairing
    /// verdict.
    pub fn verify_proof_bytes(
        env: &Env,
        vk_bytes: &[u8],
        proof_bytes: &[u8],
        pub_signals_bytes: &[u8],
    ) -> (r: Result<bool, VerifierError>)
        ensures
            match r {
                Ok(b) => {
                    &&& vk_wire_ok(vk_bytes@)
                    &&& proof_wire_ok(proof_bytes@)
                    &&& signals_wire_ok(pub_signals_bytes@)
                    &&& be32_at(pub_signals_bytes@, 0) + 1 == be32_at(vk_bytes@, 448)
                    &&& vk_bytes_points_ok(vk_bytes@)
                    &&& proof_bytes_points_ok(proof_bytes@)
                    &&& b == verify_bytes_spec(vk_bytes@, proof_bytes@, pub_signals_bytes@)
                },
                Err(e) => {
                    ||| (e == VerifierError::MalformedVerificationKey && !vk_wire_ok(
                        vk_bytes@,
                    ))
                    ||| (e == VerifierError::MalformedProof && vk_wire_ok(vk_bytes@)
                        && !proof_wire_ok(proof_bytes@))
                    ||| (e == VerifierError::InvalidPublicSignals && vk_wire_ok(vk_bytes@)
                        && proof_wire_ok(proof_bytes@) && !signals_wire_ok(
                        pub_signals_bytes@,
                    ))
                    ||| (e == VerifierError::MalformedVerificationKey && vk_wire_ok(vk_bytes@)
                        && proof_wire_ok(proof_bytes@) && signals_wire_ok(pub_signals_bytes@)
                        && (be32_at(pub_signals_bytes@, 0) + 1 != be32_at(vk_bytes@, 448)
                        || !vk_bytes_points_ok(vk_bytes@)))
                    ||| (e == VerifierError::MalformedProof && vk_wire_ok(vk_bytes@)
                        && proof_wire_ok(proof_bytes@) && signals_wire_ok(pub_signals_bytes@)
                        && be32_at(pub_signals_bytes@, 0) + 1 == be32_at(vk_bytes@, 448)
                        && vk_bytes_points_ok(vk_bytes@) && !proof_bytes_points_ok(
                        proof_bytes@,
                    ))
                },
            },
    {
        let vk = match Self::parse_verification_key(vk_bytes) {
            Ok(vk) => vk,
            Err(e) => {
                return Err(e);
            },
        };
        let proof = match Self::parse_proof(proof_bytes) {
            Ok(p) => p,
            Err(e) => {
                return Err(e);
            },
        };
        let pub_signals = match Self::parse_public_signals(pub_signals_bytes) {
            Ok(s) => s,
            Err(e) => {
                return Err(e);
            },
        };
        let verdict = Self::verify_proof(env, &vk, &proof, &pub_signals);
        proof {
            let vkb = vk_bytes@;
            let pb = proof_bytes@;
            assert forall|i: int|
                0 <= i < vk.ic@.len() implies (#[trigger] vk.ic@[i])@ == ic_point(vkb, i) by {}
            assert(vk_points_ok(vk) <==> vk_bytes_points_ok(vkb)) by {
                if vk_points_ok(vk) {
                    assert forall|i: int|
                        0 <= i < be32_at(vkb, 448) implies g1_valid(
                        #[trigger] ic_point(vkb, i),
                    ) by {
                        assert(g1_valid(vk.ic@[i]@));
                        assert(vk.ic@[i]@ == ic_point(vkb, i));
                    }
                }
                if vk_bytes_points_ok(vkb) {
                    assert forall|i: int|
                        0 <= i < vk.ic@.len() implies g1_valid((#[trigger] vk.ic@[i])@) by {
                        assert(g1_valid(ic_point(vkb, i)));
                    }
                }
            }
            assert(proof_points_ok(proof) <==> proof_bytes_points_ok(pb));
            if verdict is Ok {
                lemma_vk_x_from_bytes(
                    views_of(vk.ic@),
                    views_of(pub_signals@),
                    vk_bytes@,
                    pub_signals_bytes@,
                    pub_signals@.len() as int,
                );
            }
        }
        verdict
    }

    /// Parses a verification key from bytes; the layout and the error
    /// condition match the wire predicate.
    fn parse_verification_key(bytes: &[u8]) -> (r: Result<VerificationKey, VerifierError>)
        ensures
            match r {
                Ok(vk) => {
                    &&& vk_wire_ok(bytes@)
                    &&& vk.alpha@ == bytes@.subrange(0, 64)
                    &&& vk.beta@ == bytes@.subrange(64, 192)
                    &&& vk.gamma@ == bytes@.subrange(192, 320)
                    &&& vk.delta@ == bytes@.subrange(320, 448)
                    &&& vk.ic@.len() == be32_at(bytes@, 448)
                    &&& forall|i: int|
                        0 <= i < vk.ic@.len() ==> (#[trigger] vk.ic@[i])@ == bytes@.subrange(
                            452 + 64 * i,
                            516 + 64 * i,
                        )
                },
                Err(e) => !vk_wire_ok(bytes@) && e == VerifierError::MalformedVerificationKey,
            },
    {
        let mut pos: usize = 0;
        if bytes.len() < 64 {
            return Err(VerifierError::MalformedVerificationKey);
        }
        let alpha = read_bytes::<64>(bytes, pos);
        pos = pos + 64;
        if bytes.len() - pos < 128 {
            return Err(VerifierError::MalformedVerificationKey);
        }
        let beta = read_bytes::<128>(bytes, pos);
        pos = pos + 128;
        if bytes.len() - pos < 128 {
            return Err(VerifierError::MalformedVerificationKey);
        }
        let gamma = read_bytes::<128>(bytes, pos);
        pos = pos + 128;
        if bytes.len() - pos < 128 {
            return Err(VerifierError::MalformedVerificationKey);
        }
        let delta = read_bytes::<128>(bytes, pos);
        pos = pos + 128;
        if bytes.len() - pos < 4 {
            return Err(VerifierError::MalformedVerificationKey);
        }
        let ic_len = be32_read(bytes, pos);
        pos = pos + 4;
        let mut ic: Vec<[u8; 64]> = Vec::new();
        let mut i: u32 = 0;
        while i < ic_len
            invariant
                i <= ic_len,
                pos == 452 + 64 * (i as int),
                pos <= bytes@.len(),
                bytes@.len() >= 452,
                ic_len as nat == be32_at(bytes@, 448),
                ic@.len() == i as int,
                forall|k: int|
                    0 <= k < ic@.len() ==> (#[trigger] ic@[k])@ == bytes@.subrange(
                        452 + 64 * k,
                        516 + 64 * k,
                    ),
            decreases ic_len - i,
        {
            if bytes.len() - pos < 64 {
                return Err(VerifierError::MalformedVerificationKey);
            }
            ic.push(read_bytes::<64>(bytes, pos));
            pos = pos + 64;
            i = i + 1;
        }
        Ok(VerificationKey { alpha, beta, gamma, delta, ic })
    }

    /// Parses a proof from bytes: exactly the three points, nothing more.
    fn parse_proof(bytes: &[u8]) -> (r: Result<Proof, VerifierError>)
        ensures
            match r {
                Ok(p) => {
                    &&& proof_wire_ok(bytes@)
                    &&& p.a@ == bytes@.subrange(0, 64)
                    &&& p.b@ == bytes@.subrange(64, 192)
                    &&& p.c@ == bytes@.subrange(192, 256)
                },
                Err(e) => !proof_wire_ok(bytes@) && e == VerifierError::MalformedProof,
            },
    {
        if bytes.len() != 256 {
            return Err(VerifierError::MalformedProof);
        }
        let a = read_bytes::<64>(bytes, 0);
        let b = read_bytes::<128>(bytes, 64);
        let c = read_bytes::<64>(bytes, 192);
        Ok(Proof { a, b, c })
    }

    /// Parses public signals from bytes; trailing bytes are ignored.
    fn parse_public_signals(bytes: &[u8]) -> (r: Result<Vec<[u8; 32]>, VerifierError>)
        ensures
            match r {
                Ok(signals) => {
                    &&& signals_wire_ok(bytes@)
                    &&& signals@.len() == be32_at(bytes@, 0)
                    &&& forall|k: int|
                        0 <= k < signals@.len() ==> (#[trigger] signals@[k])@ == bytes@
                            .subrange(4 + 32 * k, 36 + 32 * k)
                },
                Err(e) => !signals_wire_ok(bytes@) && e == VerifierError::InvalidPublicSignals,
            },
    {
        if bytes.len() < 4 {
            return Err(VerifierError::InvalidPublicSignals);
        }
        let len = be32_read(bytes, 0);
        let mut pos: usize = 4;
        let mut signals: Vec<[u8; 32]> = Vec::new();
        let mut i: u32 = 0;
        while i < len
            invariant
                i <= len,
                pos == 4 + 32 * (i as int),
                pos <= bytes@.len(),
                bytes@.len() >= 4,
                len as nat == be32_at(bytes@, 0),
                signals@.len() == i as int,
                forall|k: int|
                    0 <= k < signals@.len() ==> (#[trigger] signals@[k])@ == bytes@.subrange(
                        4 + 32 * k,
                        36 + 32 * k,
                    ),
            decreases len - i,
        {
            if bytes.len() - pos < 32 {
                return Err(VerifierError::InvalidPublicSignals);
            }
            signals.push(read_bytes::<32>(bytes, pos));
            pos = pos + 32;
            i = i + 1;
        }
        Ok(signals)
    }
}

} // verus!
