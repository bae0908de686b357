use lean_imt_bn254::zk::{
    zero_scalar, ProofBN254, PublicSignalsBN254, VerificationKeyBN254, ZkError,
    BN254_FR_SIZE, BN254_G1_SERIALIZED_SIZE, BN254_G2_SERIALIZED_SIZE,
};

#[test]
fn test_public_signals_roundtrip() {
    let mut signals: Vec<[u8; 32]> = Vec::new();
    signals.push([1u8; 32]);
    signals.push([2u8; 32]);

    let pub_signals = PublicSignalsBN254::new(signals);
    let bytes = pub_signals.to_bytes();
    let decoded = PublicSignalsBN254::from_bytes(&bytes).unwrap();

    assert_eq!(decoded.len(), 2);
}

#[test]
fn test_proof_roundtrip() {
    let proof = ProofBN254 {
        a: [1u8; 64],
        b: [2u8; 128],
        c: [3u8; 64],
    };

    let bytes = proof.to_bytes();
    let decoded = ProofBN254::from_bytes(&bytes).unwrap();

    assert_eq!(decoded.a, proof.a);
    assert_eq!(decoded.b, proof.b);
    assert_eq!(decoded.c, proof.c);
}

#[test]
fn test_point_sizes() {
    assert_eq!(BN254_G1_SERIALIZED_SIZE, 64);
    assert_eq!(BN254_G2_SERIALIZED_SIZE, 128);
    assert_eq!(BN254_FR_SIZE, 32);
}

#[test]
fn test_proof_wire_layout() {
    let proof = ProofBN254 {
        a: [1u8; 64],
        b: [2u8; 128],
        c: [3u8; 64],
    };
    let bytes = proof.to_bytes();
    assert_eq!(bytes.len(), 256);
    assert!(bytes[..64].iter().all(|&b| b == 1));
    assert!(bytes[64..192].iter().all(|&b| b == 2));
    assert!(bytes[192..].iter().all(|&b| b == 3));
}

#[test]
fn test_signals_wire_layout() {
    let signals = PublicSignalsBN254::new(vec![[7u8; 32], [8u8; 32]]);
    let bytes = signals.to_bytes();
    // 4-byte big-endian count, then the concatenated scalars
    assert_eq!(bytes.len(), 4 + 64);
    assert_eq!(&bytes[..4], &[0, 0, 0, 2]);
    assert!(bytes[4..36].iter().all(|&b| b == 7));
    assert!(bytes[36..].iter().all(|&b| b == 8));
}

#[test]
fn test_verification_key_roundtrip() {
    let vk = VerificationKeyBN254 {
        alpha: [1u8; 64],
        beta: [2u8; 128],
        gamma: [3u8; 128],
        delta: [4u8; 128],
        ic: vec![[5u8; 64], [6u8; 64]],
    };
    let bytes = vk.to_bytes();
    assert_eq!(bytes.len(), 448 + 4 + 2 * 64);
    assert_eq!(&bytes[448..452], &[0, 0, 0, 2]);

    let decoded = VerificationKeyBN254::from_bytes(&bytes).unwrap();
    assert_eq!(decoded.alpha, vk.alpha);
    assert_eq!(decoded.beta, vk.beta);
    assert_eq!(decoded.gamma, vk.gamma);
    assert_eq!(decoded.delta, vk.delta);
    assert_eq!(decoded.ic, vk.ic);
}

#[test]
fn test_verification_key_truncated() {
    assert!(matches!(
        VerificationKeyBN254::from_bytes(&[0u8; 10]),
        Err(ZkError::InvalidInputLength)
    ));
    // header complete but the announced ic vector is missing
    let mut bytes = vec![0u8; 452];
    bytes[451] = 1;
    assert!(matches!(
        VerificationKeyBN254::from_bytes(&bytes),
        Err(ZkError::InvalidInputLength)
    ));
}

#[test]
fn test_proof_truncated() {
    assert!(matches!(
        ProofBN254::from_bytes(&[0u8; 255]),
        Err(ZkError::MalformedProof)
    ));
}

#[test]
fn test_signals_truncated() {
    assert!(matches!(
        PublicSignalsBN254::from_bytes(&[0u8, 0, 0]),
        Err(ZkError::MalformedPublicSignals)
    ));
    // the count announces one scalar more than is present
    let mut bytes = vec![0u8; 4 + 32];
    bytes[3] = 2;
    assert!(matches!(
        PublicSignalsBN254::from_bytes(&bytes),
        Err(ZkError::MalformedPublicSignals)
    ));
}

#[test]
fn test_signals_accessors() {
    let signals = PublicSignalsBN254::new(vec![[1u8; 32]]);
    assert!(!signals.is_empty());
    assert_eq!(signals.len(), 1);
    assert_eq!(signals.get(0), Some([1u8; 32]));
    assert_eq!(signals.get(1), None);

    let empty = PublicSignalsBN254::new(Vec::new());
    assert!(empty.is_empty());
    assert_eq!(empty.len(), 0);
}

#[test]
fn test_zero_scalar_is_all_zero() {
    assert_eq!(zero_scalar(), [0u8; 32]);
}

#[test]
fn test_u256_bytes_round_trip() {
    let env = soroban_sdk::Env::default();
    let mut bytes = [0u8; 32];
    bytes[0] = 0x12;
    bytes[31] = 0x34;
    let value = lean_imt_bn254::host::bytes32_to_u256(&env, &bytes);
    assert_eq!(lean_imt_bn254::host::u256_to_bytes32(&env, &value), bytes);
}
