//! What a runtime supplies to the messenger.
use vstd::prelude::*;

use crate::messenger::chain::{ChainId, DomainId, MessageKey};

verus! {

/// Trait to handle XDM rewards.
pub trait OnXDMRewards<Balance> {
    fn on_xdm_rewards(rewards: Balance);
}

impl<Balance> OnXDMRewards<Balance> for () {
    fn on_xdm_rewards(_rewards: Balance) {
    }
}

/// A leaf of a Merkle mountain range in its encoded form.
#[derive(Debug, PartialEq, Eq)]
pub struct EncodableOpaqueLeaf(pub Vec<u8>);

/// A proof that some leaves are in a Merkle mountain range.
#[derive(Debug, PartialEq, Eq)]
pub struct Proof<MmrHash> {
    /// The indices of the leaves that the proof is for.
    pub leaf_indices: Vec<u64>,
    /// The number of leaves when the proof was made.
    pub leaf_count: u64,
    /// The hashes of the siblings on the way to the root.
    pub items: Vec<MmrHash>,
}

/// Trait to verify MMR proofs.
pub trait MmrProofVerifier<MmrHash, StateRoot> {
    /// Returns consensus state root if the given MMR proof is valid.
    fn verify_proof_and_extract_consensus_state_root(
        leaf: EncodableOpaqueLeaf,
        mmr_proof: Proof<MmrHash>,
    ) -> Option<StateRoot>;
}

impl<MmrHash, StateRoot> MmrProofVerifier<MmrHash, StateRoot> for () {
    fn verify_proof_and_extract_consensus_state_root(
        _leaf: EncodableOpaqueLeaf,
        _mmr_proof: Proof<MmrHash>,
    ) -> (r: Option<StateRoot>)
        returns
            None::<StateRoot>,
    {
        None
    }
}

/// Trait that return various storage keys for storages on Consensus chain and domains.
pub trait StorageKeys {
    /// Returns the storage key for confirmed domain block on conensus chain.
    fn confirmed_domain_block_storage_key(domain_id: DomainId) -> Option<Vec<u8>>;

    /// Returns the outbox storage key for given chain.
    fn outbox_storage_key(chain_id: ChainId, message_key: MessageKey) -> Option<Vec<u8>>;

    /// Returns the inbox responses storage key for given chain.
    fn inbox_responses_storage_key(chain_id: ChainId, message_key: MessageKey) -> Option<Vec<u8>>;
}

impl StorageKeys for () {
    fn confirmed_domain_block_storage_key(_domain_id: DomainId) -> (r: Option<Vec<u8>>)
        ensures
            r == None::<Vec<u8>>,
    {
        None
    }

    fn outbox_storage_key(_chain_id: ChainId, _message_key: MessageKey) -> (r: Option<Vec<u8>>)
        ensures
            r == None::<Vec<u8>>,
    {
        None
    }

    fn inbox_responses_storage_key(_chain_id: ChainId, _message_key: MessageKey) -> (r: Option<
        Vec<u8>,
    >)
        ensures
            r == None::<Vec<u8>>,
    {
        None
    }
}

} // verus!
