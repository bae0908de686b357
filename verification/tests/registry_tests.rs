use lean_imt_bn254::registry::{
    AssetType, DarkPoolRegistry, Participant, ParticipantCategory, RegistryError, RWAAsset,
};
use soroban_sdk::Env;

// The default test budget meters host costs; the Poseidon-heavy tree
// operations need it lifted.
fn test_env() -> Env {
    let env = Env::default();
    env.cost_estimate().budget().reset_unlimited();
    env
}

const ADMIN: [u8; 32] = [10u8; 32];
const VERIFIER: [u8; 32] = [11u8; 32];

fn new_registry(env: &Env) -> DarkPoolRegistry {
    DarkPoolRegistry::__constructor(env, ADMIN, VERIFIER, vec![0u8; 100], 20)
}

fn create_test_participant() -> Participant {
    Participant {
        id_hash: [1u8; 32],
        trading_address: [21u8; 32],
        category: ParticipantCategory::BrokerDealer,
        kyc_expiry: 31536000, // one year past the test epoch
        is_active: true,
        tree_index: 0,
    }
}

fn create_test_asset() -> RWAAsset {
    let mut symbol = [0u8; 32];
    symbol[..7].copy_from_slice(b"TBOND25");
    RWAAsset {
        token_address: [22u8; 32],
        symbol,
        asset_type: AssetType::TreasuryBond,
        min_trade_size: 1_000_000,
        max_order_size: 100_000_000_000,
        is_active: true,
    }
}

#[test]
fn test_constructor() {
    let env = test_env();
    let registry = new_registry(&env);

    assert_eq!(registry.get_admin(), ADMIN);
    assert_eq!(registry.get_verifier(), VERIFIER);
    assert_eq!(registry.get_whitelist_count(), 0);
}

#[test]
fn test_register_participant() {
    let env = test_env();
    let mut registry = new_registry(&env);

    let participant = create_test_participant();
    let tree_index = registry
        .register_participant(&env, &ADMIN, 0, &participant)
        .unwrap();

    assert_eq!(tree_index, 0);
    assert_eq!(registry.get_whitelist_count(), 1);

    let retrieved = registry.get_participant(&participant.trading_address);
    assert!(retrieved.is_some());
    assert_eq!(
        retrieved.unwrap().trading_address,
        participant.trading_address
    );
}

#[test]
fn test_register_asset() {
    let env = test_env();
    let mut registry = new_registry(&env);

    let asset = create_test_asset();
    registry.register_asset(&ADMIN, &asset).unwrap();

    let retrieved = registry.get_asset(&asset.token_address);
    assert!(retrieved.is_some());
    assert_eq!(retrieved.unwrap().token_address, asset.token_address);
}

#[test]
fn test_deactivate_participant() {
    let env = test_env();
    let mut registry = new_registry(&env);

    let participant = create_test_participant();
    registry
        .register_participant(&env, &ADMIN, 0, &participant)
        .unwrap();

    assert!(registry.is_participant_eligible(0, &participant.trading_address));

    registry
        .deactivate_participant(&ADMIN, &participant.trading_address)
        .unwrap();

    assert!(!registry.is_participant_eligible(0, &participant.trading_address));
}

#[test]
fn test_whitelist_root_changes() {
    let env = test_env();
    let mut registry = new_registry(&env);

    let initial_root = registry.get_whitelist_root();

    let participant = create_test_participant();
    registry
        .register_participant(&env, &ADMIN, 0, &participant)
        .unwrap();

    let new_root = registry.get_whitelist_root();
    assert_ne!(initial_root, new_root);
}

#[test]
fn test_only_admin_may_mutate() {
    let env = test_env();
    let mut registry = new_registry(&env);
    let outsider = [99u8; 32];
    let participant = create_test_participant();
    let asset = create_test_asset();

    assert_eq!(
        registry.register_participant(&env, &outsider, 0, &participant),
        Err(RegistryError::OnlyAdmin)
    );
    assert_eq!(
        registry.register_asset(&outsider, &asset),
        Err(RegistryError::OnlyAdmin)
    );
    assert_eq!(
        registry.deactivate_participant(&outsider, &participant.trading_address),
        Err(RegistryError::OnlyAdmin)
    );
    assert_eq!(
        registry.deactivate_asset(&outsider, &asset.token_address),
        Err(RegistryError::OnlyAdmin)
    );
}

#[test]
fn test_duplicate_participant_rejected() {
    let env = test_env();
    let mut registry = new_registry(&env);
    let participant = create_test_participant();
    registry
        .register_participant(&env, &ADMIN, 0, &participant)
        .unwrap();
    assert_eq!(
        registry.register_participant(&env, &ADMIN, 0, &participant),
        Err(RegistryError::ParticipantAlreadyExists)
    );
    assert_eq!(registry.get_whitelist_count(), 1);
}

#[test]
fn test_expired_kyc_rejected() {
    let env = test_env();
    let mut registry = new_registry(&env);
    let participant = create_test_participant();
    let now = participant.kyc_expiry;
    assert_eq!(
        registry.register_participant(&env, &ADMIN, now, &participant),
        Err(RegistryError::InvalidKYCExpiry)
    );
    assert_eq!(registry.get_whitelist_count(), 0);
}

#[test]
fn test_duplicate_asset_rejected() {
    let env = test_env();
    let mut registry = new_registry(&env);
    let asset = create_test_asset();
    registry.register_asset(&ADMIN, &asset).unwrap();
    assert_eq!(
        registry.register_asset(&ADMIN, &asset),
        Err(RegistryError::AssetAlreadyExists)
    );
}

#[test]
fn test_unknown_addresses_not_found() {
    let env = test_env();
    let mut registry = new_registry(&env);
    assert_eq!(
        registry.deactivate_participant(&ADMIN, &[33u8; 32]),
        Err(RegistryError::ParticipantNotFound)
    );
    assert_eq!(
        registry.deactivate_asset(&ADMIN, &[34u8; 32]),
        Err(RegistryError::AssetNotFound)
    );
    assert!(registry.get_participant(&[33u8; 32]).is_none());
    assert!(registry.get_asset(&[34u8; 32]).is_none());
    assert!(!registry.is_participant_eligible(0, &[33u8; 32]));
    assert!(!registry.is_asset_eligible(&[34u8; 32]));
}

#[test]
fn test_whitelist_capacity() {
    let env = test_env();
    // depth 1: room for exactly two commitments
    let mut registry = DarkPoolRegistry::__constructor(&env, ADMIN, VERIFIER, Vec::new(), 1);
    let mut p = create_test_participant();
    registry.register_participant(&env, &ADMIN, 0, &p).unwrap();
    p.trading_address = [23u8; 32];
    p.id_hash = [2u8; 32];
    registry.register_participant(&env, &ADMIN, 0, &p).unwrap();
    p.trading_address = [24u8; 32];
    p.id_hash = [3u8; 32];
    assert_eq!(
        registry.register_participant(&env, &ADMIN, 0, &p),
        Err(RegistryError::TreeAtCapacity)
    );
    assert_eq!(registry.get_whitelist_count(), 2);
}

#[test]
fn test_active_filters() {
    let env = test_env();
    // a shallow whitelist keeps the cold-cache path recomputation small
    // across the two registrations
    let mut registry = DarkPoolRegistry::__constructor(&env, ADMIN, VERIFIER, Vec::new(), 4);

    let p1 = create_test_participant();
    let mut p2 = create_test_participant();
    p2.trading_address = [25u8; 32];
    p2.id_hash = [2u8; 32];
    registry.register_participant(&env, &ADMIN, 0, &p1).unwrap();
    registry.register_participant(&env, &ADMIN, 0, &p2).unwrap();
    registry
        .deactivate_participant(&ADMIN, &p1.trading_address)
        .unwrap();

    assert_eq!(registry.get_participants().len(), 2);
    let active = registry.get_active_participants();
    assert_eq!(active.len(), 1);
    assert_eq!(active[0].trading_address, p2.trading_address);

    let a1 = create_test_asset();
    let mut a2 = create_test_asset();
    a2.token_address = [26u8; 32];
    registry.register_asset(&ADMIN, &a1).unwrap();
    registry.register_asset(&ADMIN, &a2).unwrap();
    registry.deactivate_asset(&ADMIN, &a1.token_address).unwrap();

    assert_eq!(registry.get_assets().len(), 2);
    let active_assets = registry.get_active_assets();
    assert_eq!(active_assets.len(), 1);
    assert_eq!(active_assets[0].token_address, a2.token_address);
    assert!(!registry.is_asset_eligible(&a1.token_address));
    assert!(registry.is_asset_eligible(&a2.token_address));
}

#[test]
fn test_whitelist_depth_reported() {
    let env = test_env();
    let registry = new_registry(&env);
    assert_eq!(registry.get_whitelist_depth(), 20);
}

// The validating reconstruction accepts exactly the state the registry
// itself persisted, and rejects a tampered root or an impossible leaf
// count.
#[test]
fn test_load_state_validates_root() {
    let env = test_env();
    let mut registry = DarkPoolRegistry::__constructor(&env, ADMIN, VERIFIER, vec![7u8], 3);
    let participant = create_test_participant();
    registry
        .register_participant(&env, &ADMIN, 0, &participant)
        .unwrap();

    let leaves = registry.get_whitelist_leaves();
    let depth = registry.get_whitelist_depth();
    let root = registry.get_whitelist_root();
    let participants = registry.get_participants();
    let assets = registry.get_assets();

    let restored = DarkPoolRegistry::load_state(
        &env,
        ADMIN,
        VERIFIER,
        vec![7u8],
        participants.clone(),
        assets.clone(),
        leaves.clone(),
        depth,
        root,
    )
    .unwrap();
    assert_eq!(restored.get_whitelist_root(), root);
    assert_eq!(restored.get_whitelist_count(), 1);
    assert_eq!(restored.get_admin(), ADMIN);
    assert!(restored.is_participant_eligible(0, &participant.trading_address));

    let mut bad_root = root;
    bad_root[0] ^= 0x01;
    assert!(DarkPoolRegistry::load_state(
        &env,
        ADMIN,
        VERIFIER,
        vec![7u8],
        participants.clone(),
        assets.clone(),
        leaves.clone(),
        depth,
        bad_root,
    )
    .is_none());

    // three leaves cannot fit a depth-one tree
    assert!(DarkPoolRegistry::load_state(
        &env,
        ADMIN,
        VERIFIER,
        Vec::new(),
        Vec::new(),
        Vec::new(),
        vec![[1u8; 32], [2u8; 32], [3u8; 32]],
        1,
        [0u8; 32],
    )
    .is_none());
}
