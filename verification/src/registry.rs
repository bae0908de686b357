//! The whitelist registry: participants, assets, and the Merkle whitelist.
//!
//! The registry keeps the accumulator's persistent state as the stored
//! triple `(leaves, depth, root)` and reconstructs the tree around every
//! insertion, exactly as a host would between transactions.  Authorization
//! signatures and persistence are the host's business; the registry itself
//! checks the caller against the stored admin identifier and takes the
//! current time as an argument.  Addresses travel as 32-byte identifiers
//! and asset symbols as fixed-width byte codes; the host-side glue maps
//! its own address and symbol types onto them.  A single writer must own
//! the instance while a mutation runs.

use vstd::prelude::*;

use soroban_sdk::Env;

use vstd::arithmetic::power2::{lemma2_to64, lemma_pow2_strictly_increases};

use crate::tree::{cap_spec, node_val, views_of, zero_node, LeanIMTBN254};

verus! {

/// Errors of the registry.
#[derive(Clone, Copy, Debug, PartialEq, Eq, PartialOrd, Ord, Structural)]
pub enum RegistryError {
    OnlyAdmin,
    ParticipantAlreadyExists,
    ParticipantNotFound,
    AssetAlreadyExists,
    AssetNotFound,
    TreeAtCapacity,
    InvalidKYCExpiry,
    ParticipantNotActive,
    AssetNotActive,
}

/// Participant category for institutional classification.
#[derive(Clone, Copy, PartialEq, Eq, Structural)]
pub enum ParticipantCategory {
    BrokerDealer,
    AssetManager,
    Bank,
    InsuranceCompany,
    PensionFund,
    HedgeFund,
    SovereignWealth,
    Other,
}

/// Asset type classification.
#[derive(Clone, Copy, PartialEq, Eq, Structural)]
pub enum AssetType {
    TreasuryBond,
    CorporateBond,
    MunicipalBond,
    Equity,
    RealEstate,
    Commodity,
    Other,
}

/// A whitelisted participant.
#[derive(Clone, Copy)]
pub struct Participant {
    pub id_hash: [u8; 32],
    pub trading_address: [u8; 32],
    pub category: ParticipantCategory,
    pub kyc_expiry: u64,
    pub is_active: bool,
    pub tree_index: u32,
}

/// A registered real-world asset.
#[derive(Clone, Copy)]
pub struct RWAAsset {
    pub token_address: [u8; 32],
    pub symbol: [u8; 32],
    pub asset_type: AssetType,
    pub min_trade_size: i128,
    pub max_order_size: i128,
    pub is_active: bool,
}

/// The first participant registered under `addr`, scanning from the front.
pub open spec fn find_participant(ps: Seq<Participant>, addr: Seq<u8>) -> Option<Participant>
    decreases ps.len(),
{
    if ps.len() == 0 {
        None
    } else if ps[0].trading_address@ == addr {
        Some(ps[0])
    } else {
        find_participant(ps.drop_first(), addr)
    }
}

/// Whether some participant is registered under `addr`.
pub open spec fn has_participant(ps: Seq<Participant>, addr: Seq<u8>) -> bool {
    find_participant(ps, addr) is Some
}

/// The first asset registered under `addr`, scanning from the front.
pub open spec fn find_asset(assets: Seq<RWAAsset>, addr: Seq<u8>) -> Option<RWAAsset>
    decreases assets.len(),
{
    if assets.len() == 0 {
        None
    } else if assets[0].token_address@ == addr {
        Some(assets[0])
    } else {
        find_asset(assets.drop_first(), addr)
    }
}

/// Whether some asset is registered under `addr`.
pub open spec fn has_asset(assets: Seq<RWAAsset>, addr: Seq<u8>) -> bool {
    find_asset(assets, addr) is Some
}

/// `ps` with every participant under `addr` marked inactive and everything
/// else untouched.
pub open spec fn deactivated_participants(ps: Seq<Participant>, addr: Seq<u8>) -> Seq<
    Participant,
> {
    ps.map_values(
        |p: Participant|
            if p.trading_address@ == addr {
                Participant { is_active: false, ..p }
            } else {
                p
            },
    )
}

/// `assets` with every asset under `addr` marked inactive and everything
/// else untouched.
pub open spec fn deactivated_assets(assets: Seq<RWAAsset>, addr: Seq<u8>) -> Seq<RWAAsset> {
    assets.map_values(
        |a: RWAAsset|
            if a.token_address@ == addr {
                RWAAsset { is_active: false, ..a }
            } else {
                a
            },
    )
}

/// Byte-wise equality of two 32-byte identifiers.
fn bytes32_eq(a: &[u8; 32], b: &[u8; 32]) -> (r: bool)
    ensures
        r == (a@ == b@),
{
    let mut i: usize = 0;
    while i < 32
        invariant
            i <= 32,
            forall|k: int| 0 <= k < i ==> a@[k] == b@[k],
        decreases 32 - i,
    {
        if a[i] != b[i] {
            return false;
        }
        i = i + 1;
    }
    proof {
        assert(a@ =~= b@);
    }
    true
}

/// An element-wise copy of a vector of copyable values.
fn copy_vec<T: Copy>(src: &Vec<T>) -> (out: Vec<T>)
    ensures
        out@ == src@,
{
    let mut out: Vec<T> = Vec::new();
    let mut i: usize = 0;
    while i < src.len()
        invariant
            i <= src@.len(),
            out@ == src@.take(i as int),
        decreases src@.len() - i,
    {
        out.push(src[i]);
        i = i + 1;
    }
    proof {
        assert(src@.take(src@.len() as int) =~= src@);
    }
    out
}

/// The registry state: administration identifiers, the participant and
/// asset books, and the whitelist accumulator's stored triple.
pub struct DarkPoolRegistry {
    admin: [u8; 32],
    verifier: [u8; 32],
    eligibility_vk: Vec<u8>,
    participants: Vec<Participant>,
    assets: Vec<RWAAsset>,
    tree_leaves: Vec<[u8; 32]>,
    tree_depth: u32,
    tree_root: [u8; 32],
}

impl DarkPoolRegistry {
    /// The stored admin identifier.
    pub closed spec fn spec_admin(self) -> Seq<u8> {
        self.admin@
    }

    /// The stored verifier identifier.
    pub closed spec fn spec_verifier(self) -> Seq<u8> {
        self.verifier@
    }

    /// The stored eligibility verification key bytes.
    pub closed spec fn spec_vk(self) -> Seq<u8> {
        self.eligibility_vk@
    }

    /// The participant book.
    pub closed spec fn participants_view(self) -> Seq<Participant> {
        self.participants@
    }

    /// The asset book.
    pub closed spec fn assets_view(self) -> Seq<RWAAsset> {
        self.assets@
    }

    /// The whitelist leaves, as byte sequences.
    pub closed spec fn wl_leaves(self) -> Seq<Seq<u8>> {
        views_of(self.tree_leaves@)
    }

    /// The whitelist depth.
    pub closed spec fn spec_depth(self) -> nat {
        self.tree_depth as nat
    }

    /// The stored whitelist root.
    pub closed spec fn spec_root(self) -> Seq<u8> {
        self.tree_root@
    }

    /// Well-formedness: the stored leaf count is within the whitelist's
    /// capacity and the stored root is the reference root of the stored
    /// leaves.
    pub closed spec fn wf(self) -> bool {
        &&& self.wl_leaves().len() <= cap_spec(self.spec_depth())
        &&& self.spec_root() == node_val(self.wl_leaves(), self.spec_depth(), 0)
    }

    /// Initializes the registry: stores the administration identifiers and
    /// the eligibility key, and builds an empty whitelist tree of the given
    /// depth.
    pub fn __constructor(
        env: &Env,
        admin: [u8; 32],
        verifier_address: [u8; 32],
        eligibility_vk_bytes: Vec<u8>,
        whitelist_tree_depth: u32,
    ) -> (r: Self)
        ensures
            r.wf(),
            r.spec_admin() == admin@,
            r.spec_verifier() == verifier_address@,
            r.spec_vk() == eligibility_vk_bytes@,
            r.participants_view().len() == 0,
            r.assets_view().len() == 0,
            r.wl_leaves().len() == 0,
            r.spec_depth() == whitelist_tree_depth as nat,
            r.spec_root() == zero_node(whitelist_tree_depth as nat),
    {
        let tree = LeanIMTBN254::new(env, whitelist_tree_depth);
        let (leaves, depth, root) = tree.to_storage();
        DarkPoolRegistry {
            admin,
            verifier: verifier_address,
            eligibility_vk: eligibility_vk_bytes,
            participants: Vec::new(),
            assets: Vec::new(),
            tree_leaves: leaves,
            tree_depth: depth,
            tree_root: root,
        }
    }

    /// Rebuilds a registry from persisted parts, as the host does between
    /// transactions.  The caller owes the same guarantee that `to_storage`
    /// shaped data gives: the triple must be one a well-formed registry
    /// wrote, with the root matching the leaves.
    pub fn from_state(
        admin: [u8; 32],
        verifier: [u8; 32],
        eligibility_vk: Vec<u8>,
        participants: Vec<Participant>,
        assets: Vec<RWAAsset>,
        tree_leaves: Vec<[u8; 32]>,
        tree_depth: u32,
        tree_root: [u8; 32],
    ) -> (r: Self)
        requires
            tree_leaves@.len() <= cap_spec(tree_depth as nat),
            tree_root@ == node_val(views_of(tree_leaves@), tree_depth as nat, 0),
        ensures
            r.wf(),
            r.spec_admin() == admin@,
            r.spec_verifier() == verifier@,
            r.spec_vk() == eligibility_vk@,
            r.participants_view() == participants@,
            r.assets_view() == assets@,
            r.wl_leaves() == views_of(tree_leaves@),
            r.spec_depth() == tree_depth as nat,
            r.spec_root() == tree_root@,
    {
        DarkPoolRegistry {
            admin,
            verifier,
            eligibility_vk,
            participants,
            assets,
            tree_leaves,
            tree_depth,
            tree_root,
        }
    }

    /// The whitelist leaves, for persistence.
    pub fn get_whitelist_leaves(&self) -> (r: Vec<[u8; 32]>)
        ensures
            views_of(r@) == self.wl_leaves(),
    {
        copy_vec(&self.tree_leaves)
    }

    /// Rebuilds a registry from persisted parts after validating them: the
    /// leaves are replayed into a fresh tree, and the registry is returned
    /// only if they fit the depth's capacity and reproduce the stored root.
    /// This is the storage boundary's safe path into [`Self::from_state`]:
    /// a corrupted triple comes back as `None` instead of being served.
    /// The replay costs one path recomputation per leaf.
    pub fn load_state(
        env: &Env,
        admin: [u8; 32],
        verifier: [u8; 32],
        eligibility_vk: Vec<u8>,
        participants: Vec<Participant>,
        assets: Vec<RWAAsset>,
        tree_leaves: Vec<[u8; 32]>,
        tree_depth: u32,
        tree_root: [u8; 32],
    ) -> (r: Option<Self>)
        ensures
            match r {
                Some(reg) => {
                    &&& reg.wf()
                    &&& reg.spec_admin() == admin@
                    &&& reg.spec_verifier() == verifier@
                    &&& reg.spec_vk() == eligibility_vk@
                    &&& reg.participants_view() == participants@
                    &&& reg.assets_view() == assets@
                    &&& reg.wl_leaves() == views_of(tree_leaves@)
                    &&& reg.spec_depth() == tree_depth as nat
                    &&& reg.spec_root() == tree_root@
                    &&& tree_root@ == node_val(views_of(tree_leaves@), tree_depth as nat, 0)
                },
                None => tree_leaves@.len() > cap_spec(tree_depth as nat) || tree_root@
                    != node_val(views_of(tree_leaves@), tree_depth as nat, 0),
            },
    {
        let mut probe = LeanIMTBN254::new(env, tree_depth);
        let mut i: usize = 0;
        while i < tree_leaves.len()
            invariant
                i <= tree_leaves@.len(),
                probe.wf(),
                probe.root_ok(),
                probe.spec_depth() == tree_depth as nat,
                probe.spec_capacity() == cap_spec(tree_depth as nat),
                probe.lview() == views_of(tree_leaves@.take(i as int)),
                probe.lview().len() <= cap_spec(tree_depth as nat),
            decreases tree_leaves@.len() - i,
        {
            let ghost pre_view = probe.lview();
            match probe.insert(tree_leaves[i]) {
                Ok(()) => {},
                Err(_) => {
                    // the replay hit capacity before the last stored leaf
                    proof {
                        assert(pre_view.len() >= cap_spec(tree_depth as nat));
                        assert(pre_view.len() == i as int);
                    }
                    return None;
                },
            }
            proof {
                assert(views_of(tree_leaves@.take(i as int + 1)) =~= views_of(
                    tree_leaves@.take(i as int),
                ).push(tree_leaves@[i as int]@));
            }
            i = i + 1;
        }
        proof {
            assert(tree_leaves@.take(tree_leaves@.len() as int) =~= tree_leaves@);
            assert(views_of(tree_leaves@).len() == tree_leaves@.len());
        }
        if !bytes32_eq(&probe.get_root(), &tree_root) {
            return None;
        }
        Some(
            Self::from_state(
                admin,
                verifier,
                eligibility_vk,
                participants,
                assets,
                tree_leaves,
                tree_depth,
                tree_root,
            ),
        )
    }

    /// Checks that the caller is the stored admin.
    fn require_admin(&self, caller: &[u8; 32]) -> (r: Result<(), RegistryError>)
        ensures
            match r {
                Ok(()) => caller@ == self.spec_admin(),
                Err(e) => caller@ != self.spec_admin() && e == RegistryError::OnlyAdmin,
            },
    {
        if !bytes32_eq(caller, &self.admin) {
            return Err(RegistryError::OnlyAdmin);
        }
        Ok(())
    }

    /// Appends an identity commitment to the whitelist tree, rebuilding the
    /// tree from the stored triple and storing the updated triple back.
    fn add_to_whitelist_tree(&mut self, env: &Env, id_hash: &[u8; 32]) -> (r: Result<
        u32,
        RegistryError,
    >)
        requires
            old(self).wf(),
        ensures
            final(self).wf(),
            final(self).spec_admin() == old(self).spec_admin(),
            final(self).spec_verifier() == old(self).spec_verifier(),
            final(self).spec_vk() == old(self).spec_vk(),
            final(self).participants_view() == old(self).participants_view(),
            final(self).assets_view() == old(self).assets_view(),
            final(self).spec_depth() == old(self).spec_depth(),
            match r {
                Ok(idx) => {
                    &&& old(self).wl_leaves().len() < cap_spec(old(self).spec_depth())
                    &&& idx as nat == old(self).wl_leaves().len()
                    &&& final(self).wl_leaves() == old(self).wl_leaves().push(id_hash@)
                    &&& final(self).spec_root() == node_val(
                        final(self).wl_leaves(),
                        final(self).spec_depth(),
                        0,
                    )
                },
                Err(e) => {
                    &&& e == RegistryError::TreeAtCapacity
                    &&& old(self).wl_leaves().len() >= cap_spec(old(self).spec_depth())
                    &&& *final(self) == *old(self)
                },
            },
    {
        let leaves = copy_vec(&self.tree_leaves);
        let mut tree = LeanIMTBN254::from_storage(env, leaves, self.tree_depth, self.tree_root);
        match tree.insert(*id_hash) {
            Ok(()) => {},
            Err(_) => {
                return Err(RegistryError::TreeAtCapacity);
            },
        }
        let leaf_index = tree.get_leaf_count() - 1;
        let (new_leaves, new_depth, new_root) = tree.to_storage();
        self.tree_leaves = new_leaves;
        self.tree_depth = new_depth;
        self.tree_root = new_root;
        Ok(leaf_index)
    }

    /// Registers a participant: the caller must be the admin, the trading
    /// address must be new, the KYC expiry must lie in the future, and the
    /// whitelist must have room.  On success the participant is stored with
    /// the whitelist index its commitment received, and that index is
    /// returned.
    pub fn register_participant(
        &mut self,
        env: &Env,
        caller: &[u8; 32],
        current_time: u64,
        participant: &Participant,
    ) -> (r: Result<u32, RegistryError>)
        requires
            old(self).wf(),
        ensures
            final(self).wf(),
            match r {
                Ok(idx) => {
                    &&& caller@ == old(self).spec_admin()
                    &&& !has_participant(
                        old(self).participants_view(),
                        participant.trading_address@,
                    )
                    &&& participant.kyc_expiry > current_time
                    &&& old(self).wl_leaves().len() < cap_spec(old(self).spec_depth())
                    &&& idx as nat == old(self).wl_leaves().len()
                    &&& final(self).wl_leaves() == old(self).wl_leaves().push(
                        participant.id_hash@,
                    )
                    &&& final(self).participants_view() == old(self).participants_view().push(
                        Participant { tree_index: idx, ..*participant },
                    )
                    &&& final(self).spec_root() == node_val(
                        final(self).wl_leaves(),
                        final(self).spec_depth(),
                        0,
                    )
                    &&& final(self).assets_view() == old(self).assets_view()
                    &&& final(self).spec_admin() == old(self).spec_admin()
                    &&& final(self).spec_depth() == old(self).spec_depth()
                },
                Err(e) => {
                    &&& *final(self) == *old(self)
                    &&& (caller@ != old(self).spec_admin() || has_participant(
                        old(self).participants_view(),
                        participant.trading_address@,
                    ) || participant.kyc_expiry <= current_time || old(
                        self,
                    ).wl_leaves().len() >= cap_spec(old(self).spec_depth()))
                    &&& (e == RegistryError::OnlyAdmin <==> caller@ != old(self).spec_admin())
                    &&& (e == RegistryError::ParticipantAlreadyExists <==> (caller@ == old(
                        self,
                    ).spec_admin() && has_participant(
                        old(self).participants_view(),
                        participant.trading_address@,
                    )))
                    &&& (e == RegistryError::InvalidKYCExpiry <==> (caller@ == old(
                        self,
                    ).spec_admin() && !has_participant(
                        old(self).participants_view(),
                        participant.trading_address@,
                    ) && participant.kyc_expiry <= current_time))
                    &&& (e == RegistryError::TreeAtCapacity <==> (caller@ == old(
                        self,
                    ).spec_admin() && !has_participant(
                        old(self).participants_view(),
                        participant.trading_address@,
                    ) && participant.kyc_expiry > current_time && old(
                        self,
                    ).wl_leaves().len() >= cap_spec(old(self).spec_depth())))
                },
            },
    {
        match self.require_admin(caller) {
            Ok(()) => {},
            Err(e) => {
                return Err(e);
            },
        }
        let ghost ps = self.participants@;
        proof {
            assert(ps.skip(0) =~= ps);
        }
        let mut i: usize = 0;
        while i < self.participants.len()
            invariant
                *self == *old(self),
                old(self).wf(),
                caller@ == old(self).spec_admin(),
                ps == self.participants@,
                i <= ps.len(),
                find_participant(ps, participant.trading_address@) == find_participant(
                    ps.skip(i as int),
                    participant.trading_address@,
                ),
            decreases ps.len() - i,
        {
            proof {
                assert(ps.skip(i as int)[0] == ps[i as int]);
                assert(ps.skip(i as int).drop_first() =~= ps.skip(i as int + 1));
            }
            if bytes32_eq(&self.participants[i].trading_address, &participant.trading_address) {
                return Err(RegistryError::ParticipantAlreadyExists);
            }
            i = i + 1;
        }
        proof {
            assert(ps.skip(ps.len() as int) =~= Seq::<Participant>::empty());
        }
        if participant.kyc_expiry <= current_time {
            return Err(RegistryError::InvalidKYCExpiry);
        }
        let tree_index = match self.add_to_whitelist_tree(env, &participant.id_hash) {
            Ok(idx) => idx,
            Err(e) => {
                return Err(e);
            },
        };
        let mut new_participant = *participant;
        new_participant.tree_index = tree_index;
        self.participants.push(new_participant);
        Ok(tree_index)
    }

    /// Marks every participant under `trading_address` inactive.  The
    /// caller must be the admin; fails with `ParticipantNotFound` when no
    /// participant carries that address.
    pub fn deactivate_participant(&mut self, caller: &[u8; 32], trading_address: &[u8; 32]) -> (
    r: Result<(), RegistryError>)
        requires
            old(self).wf(),
        ensures
            final(self).wf(),
            match r {
                Ok(()) => {
                    &&& caller@ == old(self).spec_admin()
                    &&& has_participant(old(self).participants_view(), trading_address@)
                    &&& final(self).participants_view() == deactivated_participants(
                        old(self).participants_view(),
                        trading_address@,
                    )
                    &&& final(self).assets_view() == old(self).assets_view()
                    &&& final(self).wl_leaves() == old(self).wl_leaves()
                    &&& final(self).spec_root() == old(self).spec_root()
                    &&& final(self).spec_admin() == old(self).spec_admin()
                    &&& final(self).spec_depth() == old(self).spec_depth()
                },
                Err(e) => {
                    &&& *final(self) == *old(self)
                    &&& (caller@ != old(self).spec_admin() || !has_participant(
                        old(self).participants_view(),
                        trading_address@,
                    ))
                    &&& (e == RegistryError::OnlyAdmin <==> caller@ != old(self).spec_admin())
                    &&& (e == RegistryError::ParticipantNotFound <==> (caller@ == old(
                        self,
                    ).spec_admin() && !has_participant(
                        old(self).participants_view(),
                        trading_address@,
                    )))
                },
            },
    {
        match self.require_admin(caller) {
            Ok(()) => {},
            Err(e) => {
                return Err(e);
            },
        }
        let ghost ps = self.participants@;
        let ghost addr = trading_address@;
        let mut found = false;
        let mut updated_participants: Vec<Participant> = Vec::new();
        let mut i: usize = 0;
        while i < self.participants.len()
            invariant
                *self == *old(self),
                old(self).wf(),
                caller@ == old(self).spec_admin(),
                addr == trading_address@,
                ps == self.participants@,
                i <= ps.len(),
                updated_participants@ == deactivated_participants(ps.take(i as int), addr),
                found == has_participant(ps.take(i as int), addr),
            decreases ps.len() - i,
        {
            let p = self.participants[i];
            let matches_addr = bytes32_eq(&p.trading_address, trading_address);
            if matches_addr {
                let mut updated = p;
                updated.is_active = false;
                updated_participants.push(updated);
                found = true;
            } else {
                updated_participants.push(p);
            }
            i = i + 1;
            proof {
                lemma_take_one_more_participant(ps, addr, i as int - 1);
            }
        }
        proof {
            assert(ps.take(ps.len() as int) =~= ps);
        }
        if !found {
            return Err(RegistryError::ParticipantNotFound);
        }
        self.participants = updated_participants;
        Ok(())
    }

    /// Registers an asset.  The caller must be the admin and the token
    /// address must be new.
    pub fn register_asset(&mut self, caller: &[u8; 32], asset: &RWAAsset) -> (r: Result<
        (),
        RegistryError,
    >)
        requires
            old(self).wf(),
        ensures
            final(self).wf(),
            match r {
                Ok(()) => {
                    &&& caller@ == old(self).spec_admin()
                    &&& !has_asset(old(self).assets_view(), asset.token_address@)
                    &&& final(self).assets_view() == old(self).assets_view().push(*asset)
                    &&& final(self).participants_view() == old(self).participants_view()
                    &&& final(self).wl_leaves() == old(self).wl_leaves()
                    &&& final(self).spec_root() == old(self).spec_root()
                    &&& final(self).spec_admin() == old(self).spec_admin()
                },
                Err(e) => {
                    &&& *final(self) == *old(self)
                    &&& (caller@ != old(self).spec_admin() || has_asset(
                        old(self).assets_view(),
                        asset.token_address@,
                    ))
                    &&& (e == RegistryError::OnlyAdmin <==> caller@ != old(self).spec_admin())
                    &&& (e == RegistryError::AssetAlreadyExists <==> (caller@ == old(
                        self,
                    ).spec_admin() && has_asset(old(self).assets_view(), asset.token_address@)))
                },
            },
    {
        match self.require_admin(caller) {
            Ok(()) => {},
            Err(e) => {
                return Err(e);
            },
        }
        let ghost assets = self.assets@;
        proof {
            assert(assets.skip(0) =~= assets);
        }
        let mut i: usize = 0;
        while i < self.assets.len()
            invariant
                *self == *old(self),
                old(self).wf(),
                caller@ == old(self).spec_admin(),
                assets == self.assets@,
                i <= assets.len(),
                find_asset(assets, asset.token_address@) == find_asset(
                    assets.skip(i as int),
                    asset.token_address@,
                ),
            decreases assets.len() - i,
        {
            proof {
                assert(assets.skip(i as int)[0] == assets[i as int]);
                assert(assets.skip(i as int).drop_first() =~= assets.skip(i as int + 1));
            }
            if bytes32_eq(&self.assets[i].token_address, &asset.token_address) {
                return Err(RegistryError::AssetAlreadyExists);
            }
            i = i + 1;
        }
        proof {
            assert(assets.skip(assets.len() as int) =~= Seq::<RWAAsset>::empty());
        }
        self.assets.push(*asset);
        Ok(())
    }

    /// Marks every asset under `token_address` inactive.  The caller must
    /// be the admin; fails with `AssetNotFound` when no asset carries that
    /// address.
    pub fn deactivate_asset(&mut self, caller: &[u8; 32], token_address: &[u8; 32]) -> (r:
        Result<(), RegistryError>)
        requires
            old(self).wf(),
        ensures
            final(self).wf(),
            match r {
                Ok(()) => {
                    &&& caller@ == old(self).spec_admin()
                    &&& has_asset(old(self).assets_view(), token_address@)
                    &&& final(self).assets_view() == deactivated_assets(
                        old(self).assets_view(),
                        token_address@,
                    )
                    &&& final(self).participants_view() == old(self).participants_view()
                    &&& final(self).wl_leaves() == old(self).wl_leaves()
                    &&& final(self).spec_root() == old(self).spec_root()
                    &&& final(self).spec_admin() == old(self).spec_admin()
                },
                Err(e) => {
                    &&& *final(self) == *old(self)
                    &&& (caller@ != old(self).spec_admin() || !has_asset(
                        old(self).assets_view(),
                        token_address@,
                    ))
                    &&& (e == RegistryError::OnlyAdmin <==> caller@ != old(self).spec_admin())
                    &&& (e == RegistryError::AssetNotFound <==> (caller@ == old(
                        self,
                    ).spec_admin() && !has_asset(old(self).assets_view(), token_address@)))
                },
            },
    {
        match self.require_admin(caller) {
            Ok(()) => {},
            Err(e) => {
                return Err(e);
            },
        }
        let ghost assets = self.assets@;
        let ghost addr = token_address@;
        let mut found = false;
        let mut updated_assets: Vec<RWAAsset> = Vec::new();
        let mut i: usize = 0;
        while i < self.assets.len()
            invariant
                *self == *old(self),
                old(self).wf(),
                caller@ == old(self).spec_admin(),
                addr == token_address@,
                assets == self.assets@,
                i <= assets.len(),
                updated_assets@ == deactivated_assets(assets.take(i as int), addr),
                found == has_asset(assets.take(i as int), addr),
            decreases assets.len() - i,
        {
            let a = self.assets[i];
            let matches_addr = bytes32_eq(&a.token_address, token_address);
            if matches_addr {
                let mut updated = a;
                updated.is_active = false;
                updated_assets.push(updated);
                found = true;
            } else {
                updated_assets.push(a);
            }
            i = i + 1;
            proof {
                lemma_take_one_more_asset(assets, addr, i as int - 1);
            }
        }
        proof {
            assert(assets.take(assets.len() as int) =~= assets);
        }
        if !found {
            return Err(RegistryError::AssetNotFound);
        }
        self.assets = updated_assets;
        Ok(())
    }

    /// The current whitelist Merkle root.
    pub fn get_whitelist_root(&self) -> (r: [u8; 32])
        ensures
            r@ == self.spec_root(),
    {
        self.tree_root
    }

    /// All registered participants.
    pub fn get_participants(&self) -> (r: Vec<Participant>)
        ensures
            r@ == self.participants_view(),
    {
        copy_vec(&self.participants)
    }

    /// The registered participants that are currently active.
    pub fn get_active_participants(&self) -> (r: Vec<Participant>)
        ensures
            r@ == self.participants_view().filter(|p: Participant| p.is_active),
    {
        let ghost ps = self.participants@;
        let ghost pred = |p: Participant| p.is_active;
        let mut active: Vec<Participant> = Vec::new();
        let mut i: usize = 0;
        proof {
            reveal(Seq::filter);
        }
        while i < self.participants.len()
            invariant
                ps == self.participants@,
                i <= ps.len(),
                active@ == ps.take(i as int).filter(|p: Participant| p.is_active),
            decreases ps.len() - i,
        {
            let p = self.participants[i];
            proof {
                reveal(Seq::filter);
                assert(ps.take(i as int + 1).drop_last() =~= ps.take(i as int));
                assert(ps.take(i as int + 1).last() == ps[i as int]);
            }
            if p.is_active {
                active.push(p);
            }
            i = i + 1;
        }
        proof {
            assert(ps.take(ps.len() as int) =~= ps);
        }
        active
    }

    /// The first participant registered under `trading_address`, if any.
    pub fn get_participant(&self, trading_address: &[u8; 32]) -> (r: Option<Participant>)
        ensures
            r == find_participant(self.participants_view(), trading_address@),
    {
        let ghost ps = self.participants@;
        proof {
            assert(ps.skip(0) =~= ps);
        }
        let mut i: usize = 0;
        while i < self.participants.len()
            invariant
                ps == self.participants@,
                i <= ps.len(),
                find_participant(ps, trading_address@) == find_participant(
                    ps.skip(i as int),
                    trading_address@,
                ),
            decreases ps.len() - i,
        {
            proof {
                assert(ps.skip(i as int)[0] == ps[i as int]);
                assert(ps.skip(i as int).drop_first() =~= ps.skip(i as int + 1));
            }
            let p = self.participants[i];
            if bytes32_eq(&p.trading_address, trading_address) {
                return Some(p);
            }
            i = i + 1;
        }
        proof {
            assert(ps.skip(ps.len() as int) =~= Seq::<Participant>::empty());
        }
        None
    }

    /// Whether the participant under `trading_address` is active with
    /// unexpired KYC at `current_time`.
    pub fn is_participant_eligible(&self, current_time: u64, trading_address: &[u8; 32]) -> (b:
        bool)
        ensures
            b == match find_participant(self.participants_view(), trading_address@) {
                Some(p) => p.is_active && p.kyc_expiry > current_time,
                None => false,
            },
    {
        match self.get_participant(trading_address) {
            Some(p) => p.is_active && p.kyc_expiry > current_time,
            None => false,
        }
    }

    /// All registered assets.
    pub fn get_assets(&self) -> (r: Vec<RWAAsset>)
        ensures
            r@ == self.assets_view(),
    {
        copy_vec(&self.assets)
    }

    /// The registered assets that are currently active.
    pub fn get_active_assets(&self) -> (r: Vec<RWAAsset>)
        ensures
            r@ == self.assets_view().filter(|a: RWAAsset| a.is_active),
    {
        let ghost assets = self.assets@;
        let mut active: Vec<RWAAsset> = Vec::new();
        let mut i: usize = 0;
        proof {
            reveal(Seq::filter);
        }
        while i < self.assets.len()
            invariant
                assets == self.assets@,
                i <= assets.len(),
                active@ == assets.take(i as int).filter(|a: RWAAsset| a.is_active),
            decreases assets.len() - i,
        {
            let a = self.assets[i];
            proof {
                reveal(Seq::filter);
                assert(assets.take(i as int + 1).drop_last() =~= assets.take(i as int));
                assert(assets.take(i as int + 1).last() == assets[i as int]);
            }
            if a.is_active {
                active.push(a);
            }
            i = i + 1;
        }
        proof {
            assert(assets.take(assets.len() as int) =~= assets);
        }
        active
    }

    /// The first asset registered under `token_address`, if any.
    pub fn get_asset(&self, token_address: &[u8; 32]) -> (r: Option<RWAAsset>)
        ensures
            r == find_asset(self.assets_view(), token_address@),
    {
        let ghost assets = self.assets@;
        proof {
            assert(assets.skip(0) =~= assets);
        }
        let mut i: usize = 0;
        while i < self.assets.len()
            invariant
                assets == self.assets@,
                i <= assets.len(),
                find_asset(assets, token_address@) == find_asset(
                    assets.skip(i as int),
                    token_address@,
                ),
            decreases assets.len() - i,
        {
            proof {
                assert(assets.skip(i as int)[0] == assets[i as int]);
                assert(assets.skip(i as int).drop_first() =~= assets.skip(i as int + 1));
            }
            let a = self.assets[i];
            if bytes32_eq(&a.token_address, token_address) {
                return Some(a);
            }
            i = i + 1;
        }
        proof {
            assert(assets.skip(assets.len() as int) =~= Seq::<RWAAsset>::empty());
        }
        None
    }

    /// Whether the asset under `token_address` is active.
    pub fn is_asset_eligible(&self, token_address: &[u8; 32]) -> (b: bool)
        ensures
            b == match find_asset(self.assets_view(), token_address@) {
                Some(a) => a.is_active,
                None => false,
            },
    {
        match self.get_asset(token_address) {
            Some(a) => a.is_active,
            None => false,
        }
    }

    /// The admin identifier.
    pub fn get_admin(&self) -> (r: [u8; 32])
        ensures
            r@ == self.spec_admin(),
    {
        self.admin
    }

    /// The verifier identifier.
    pub fn get_verifier(&self) -> (r: [u8; 32])
        ensures
            r@ == self.spec_verifier(),
    {
        self.verifier
    }

    /// The whitelist tree depth.
    pub fn get_whitelist_depth(&self) -> (d: u32)
        ensures
            d as nat == self.spec_depth(),
    {
        self.tree_depth
    }

    /// The number of commitments in the whitelist tree.
    pub fn get_whitelist_count(&self) -> (c: u32)
        requires
            self.wf(),
        ensures
            c as nat == self.wl_leaves().len(),
    {
        proof {
            if self.tree_depth < 32 {
                lemma2_to64();
                lemma_pow2_strictly_increases(self.tree_depth as nat, 32);
            }
        }
        self.tree_leaves.len() as u32
    }
}

/// Extending the scanned prefix by one keeps the deactivation image and the
/// membership flag in step.
proof fn lemma_take_one_more_participant(ps: Seq<Participant>, addr: Seq<u8>, i: int)
    requires
        0 <= i < ps.len(),
    ensures
        deactivated_participants(ps.take(i + 1), addr) == deactivated_participants(
            ps.take(i),
            addr,
        ).push(
            if ps[i].trading_address@ == addr {
                Participant { is_active: false, ..ps[i] }
            } else {
                ps[i]
            },
        ),
        has_participant(ps.take(i + 1), addr) == (has_participant(ps.take(i), addr) || ps[
            i
        ].trading_address@ == addr),
    decreases i,
{
    let f = |p: Participant|
        if p.trading_address@ == addr {
            Participant { is_active: false, ..p }
        } else {
            p
        };
    assert(deactivated_participants(ps.take(i + 1), addr) =~= deactivated_participants(
        ps.take(i),
        addr,
    ).push(f(ps[i])));
    lemma_find_take_one_more_participant(ps, addr, i);
}

/// Scanning one more participant finds a match exactly when the prefix had
/// one or the new element matches.
proof fn lemma_find_take_one_more_participant(ps: Seq<Participant>, addr: Seq<u8>, i: int)
    requires
        0 <= i < ps.len(),
    ensures
        has_participant(ps.take(i + 1), addr) == (has_participant(ps.take(i), addr) || ps[
            i
        ].trading_address@ == addr),
    decreases i,
{
    let a = ps.take(i + 1);
    let b = ps.take(i);
    if i == 0 {
        assert(a.len() == 1);
        assert(a[0] == ps[0]);
        assert(a.drop_first() =~= Seq::<Participant>::empty());
        assert(b.len() == 0);
    } else {
        assert(a[0] == ps[0]);
        assert(b[0] == ps[0]);
        if a[0].trading_address@ == addr {
            assert(has_participant(a, addr));
            assert(has_participant(b, addr));
        } else {
            assert(a.drop_first() =~= ps.drop_first().take(i));
            assert(b.drop_first() =~= ps.drop_first().take(i - 1));
            assert(ps.drop_first()[i - 1] == ps[i]);
            lemma_find_take_one_more_participant(ps.drop_first(), addr, i - 1);
            assert(find_participant(a, addr) == find_participant(
                ps.drop_first().take(i),
                addr,
            ));
            assert(find_participant(b, addr) == find_participant(
                ps.drop_first().take(i - 1),
                addr,
            ));
        }
    }
}

/// Extending the scanned prefix by one keeps the deactivation image and the
/// membership flag in step.
proof fn lemma_take_one_more_asset(assets: Seq<RWAAsset>, addr: Seq<u8>, i: int)
    requires
        0 <= i < assets.len(),
    ensures
        deactivated_assets(assets.take(i + 1), addr) == deactivated_assets(
            assets.take(i),
            addr,
        ).push(
            if assets[i].token_address@ == addr {
                RWAAsset { is_active: false, ..assets[i] }
            } else {
                assets[i]
            },
        ),
        has_asset(assets.take(i + 1), addr) == (has_asset(assets.take(i), addr) || assets[
            i
        ].token_address@ == addr),
    decreases i,
{
    let f = |a: RWAAsset|
        if a.token_address@ == addr {
            RWAAsset { is_active: false, ..a }
        } else {
            a
        };
    assert(deactivated_assets(assets.take(i + 1), addr) =~= deactivated_assets(
        assets.take(i),
        addr,
    ).push(f(assets[i])));
    lemma_find_take_one_more_asset(assets, addr, i);
}

/// Scanning one more asset finds a match exactly when the prefix had one or
/// the new element matches.
proof fn lemma_find_take_one_more_asset(assets: Seq<RWAAsset>, addr: Seq<u8>, i: int)
    requires
        0 <= i < assets.len(),
    ensures
        has_asset(assets.take(i + 1), addr) == (has_asset(assets.take(i), addr) || assets[
            i
        ].token_address@ == addr),
    decreases i,
{
    let a = assets.take(i + 1);
    let b = assets.take(i);
    if i == 0 {
        assert(a.len() == 1);
        assert(a[0] == assets[0]);
        assert(a.drop_first() =~= Seq::<RWAAsset>::empty());
        assert(b.len() == 0);
    } else {
        assert(a[0] == assets[0]);
        assert(b[0] == assets[0]);
        if a[0].token_address@ == addr {
            assert(has_asset(a, addr));
            assert(has_asset(b, addr));
        } else {
            assert(a.drop_first() =~= assets.drop_first().take(i));
            assert(b.drop_first() =~= assets.drop_first().take(i - 1));
            assert(assets.drop_first()[i - 1] == assets[i]);
            lemma_find_take_one_more_asset(assets.drop_first(), addr, i - 1);
            assert(find_asset(a, addr) == find_asset(assets.drop_first().take(i), addr));
            assert(find_asset(b, addr) == find_asset(
                assets.drop_first().take(i - 1),
                addr,
            ));
        }
    }
}

} // verus!
