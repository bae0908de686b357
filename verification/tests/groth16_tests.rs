use lean_imt_bn254::groth16::{Groth16VerifierBN254, Proof, VerificationKey, VerifierError};
use soroban_sdk::Env;

// The default test budget meters host costs; the Poseidon-heavy tree
// operations need it lifted.
fn test_env() -> Env {
    let env = Env::default();
    env.cost_estimate().budget().reset_unlimited();
    env
}

// A verification key whose points are all at infinity (the all-zero
// encoding is the valid encoding of the identity in both groups).
fn infinity_vk(ic_len: usize) -> VerificationKey {
    VerificationKey {
        alpha: [0u8; 64],
        beta: [0u8; 128],
        gamma: [0u8; 128],
        delta: [0u8; 128],
        ic: vec![[0u8; 64]; ic_len],
    }
}

fn infinity_proof() -> Proof {
    Proof {
        a: [0u8; 64],
        b: [0u8; 128],
        c: [0u8; 64],
    }
}

#[test]
fn test_verify_proof_shape_mismatch() {
    let env = test_env();
    let vk = infinity_vk(1);
    let proof = infinity_proof();
    // one signal needs two ic points
    let signals: Vec<[u8; 32]> = vec![[0u8; 32]];
    assert_eq!(
        Groth16VerifierBN254::verify_proof(&env, &vk, &proof, &signals),
        Err(VerifierError::MalformedVerificationKey)
    );
}

#[test]
fn test_verify_proof_identity_points() {
    let env = test_env();
    let vk = infinity_vk(1);
    let proof = infinity_proof();
    let signals: Vec<[u8; 32]> = Vec::new();
    // every pairing of identity points is one, so the product check holds
    let verdict = Groth16VerifierBN254::verify_proof(&env, &vk, &proof, &signals);
    assert_eq!(verdict, Ok(true));
}

fn infinity_vk_bytes(ic_len: u8) -> Vec<u8> {
    let mut bytes = vec![0u8; 448];
    bytes.extend_from_slice(&[0, 0, 0, ic_len]);
    bytes.extend_from_slice(&vec![0u8; 64 * ic_len as usize]);
    bytes
}

#[test]
fn test_verify_proof_bytes_errors_in_order() {
    let env = test_env();
    let good_vk = infinity_vk_bytes(1);
    let good_proof = vec![0u8; 256];
    let good_signals = vec![0u8, 0, 0, 0];

    // truncated verification key
    assert_eq!(
        Groth16VerifierBN254::verify_proof_bytes(&env, &[0u8; 64], &good_proof, &good_signals),
        Err(VerifierError::MalformedVerificationKey)
    );
    // wrong proof length
    assert_eq!(
        Groth16VerifierBN254::verify_proof_bytes(&env, &good_vk, &[0u8; 255], &good_signals),
        Err(VerifierError::MalformedProof)
    );
    // truncated signals
    assert_eq!(
        Groth16VerifierBN254::verify_proof_bytes(&env, &good_vk, &good_proof, &[0u8; 3]),
        Err(VerifierError::InvalidPublicSignals)
    );
    // parsed cleanly, but the ic count does not cover the signals
    let two_signals = {
        let mut b = vec![0u8, 0, 0, 2];
        b.extend_from_slice(&[0u8; 64]);
        b
    };
    assert_eq!(
        Groth16VerifierBN254::verify_proof_bytes(&env, &good_vk, &good_proof, &two_signals),
        Err(VerifierError::MalformedVerificationKey)
    );
}

#[test]
fn test_verify_proof_bytes_identity_points() {
    let env = test_env();
    let verdict = Groth16VerifierBN254::verify_proof_bytes(
        &env,
        &infinity_vk_bytes(1),
        &vec![0u8; 256],
        &[0u8, 0, 0, 0],
    );
    assert_eq!(verdict, Ok(true));
}

// Point validation: a key or proof carrying bytes the host would refuse
// comes back as a malformed-input error instead of aborting the call.
#[test]
fn test_invalid_points_are_rejected() {
    let env = test_env();
    let proof = infinity_proof();
    let signals: Vec<[u8; 32]> = Vec::new();

    // alpha decodes in range but does not satisfy the curve equation
    let mut vk = infinity_vk(1);
    vk.alpha = [1u8; 64];
    assert_eq!(
        Groth16VerifierBN254::verify_proof(&env, &vk, &proof, &signals),
        Err(VerifierError::MalformedVerificationKey)
    );

    // beta's first coordinate lies above the base-field modulus
    let mut vk = infinity_vk(1);
    vk.beta = [0xffu8; 128];
    assert_eq!(
        Groth16VerifierBN254::verify_proof(&env, &vk, &proof, &signals),
        Err(VerifierError::MalformedVerificationKey)
    );

    // a valid key but a proof point off the curve
    let vk = infinity_vk(1);
    let mut bad_proof = infinity_proof();
    bad_proof.c = [2u8; 64];
    assert_eq!(
        Groth16VerifierBN254::verify_proof(&env, &vk, &bad_proof, &signals),
        Err(VerifierError::MalformedProof)
    );
}

// The byte-level entry point rejects the same malformed points.
#[test]
fn test_verify_proof_bytes_invalid_points() {
    let env = test_env();
    let good_proof = vec![0u8; 256];
    let good_signals = vec![0u8, 0, 0, 0];

    // parses cleanly, but alpha is not on the curve
    let mut vk_bytes = infinity_vk_bytes(1);
    for i in 0..64 {
        vk_bytes[i] = 1;
    }
    assert_eq!(
        Groth16VerifierBN254::verify_proof_bytes(&env, &vk_bytes, &good_proof, &good_signals),
        Err(VerifierError::MalformedVerificationKey)
    );

    // parses cleanly, but the proof's first point is not on the curve
    let vk_bytes = infinity_vk_bytes(1);
    let mut proof_bytes = vec![0u8; 256];
    for i in 0..64 {
        proof_bytes[i] = 1;
    }
    assert_eq!(
        Groth16VerifierBN254::verify_proof_bytes(&env, &vk_bytes, &proof_bytes, &good_signals),
        Err(VerifierError::MalformedProof)
    );
}
