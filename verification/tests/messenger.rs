use std::cell::RefCell;
use std::collections::HashMap;

use parity_scale_codec::{Compact, Encode};
use sector_store::messenger::allowlist::{ChainSet, DomainAllowlistUpdates};
use sector_store::messenger::chain::{ChainId, ChannelState, DomainId, U256};
use sector_store::messenger::channel::{
    channel_detail_key, decode_stored, get_channel_details, set_channel_detail, ChannelDetail,
    ClientError,
};
use sector_store::messenger::inherent::{
    InherentData, InherentDataProvider, InherentError, InherentType, InherentsError,
    INHERENT_IDENTIFIER,
};
use sector_store::messenger::traits::{
    EncodableOpaqueLeaf, MmrProofVerifier, OnXDMRewards, Proof, StorageKeys,
};
use sector_store::scale::DecodeError;

fn number(low: u128) -> U256 {
    U256 { low, high: 0 }
}

fn domain(id: u32) -> ChainId {
    ChainId::Domain(DomainId(id))
}

fn detail(latest: Option<U256>) -> ChannelDetail {
    ChannelDetail {
        block_number: 0x0102_0304,
        channel_id: U256 { low: 5, high: 1 << 120 },
        state: ChannelState::Open,
        next_inbox_nonce: number(6),
        next_outbox_nonce: number(7),
        latest_response_received_message_nonce: latest,
    }
}

#[test]
fn keys_are_encoded_like_their_tuple() {
    let key = channel_detail_key(ChainId::Consensus, domain(258), number(3));
    // The encoded forms of a chain and of an optional number agree.
    let expected = (
        &b"channel_detail"[..],
        None::<u32>,
        Some(258u32),
        (3u128, 0u128),
    )
        .encode();
    assert_eq!(key, expected);
    assert_eq!(key[0], 14 * 4);
    assert_eq!(key[1..15], b"channel_detail"[..]);
    assert_eq!(key[15..21], [0, 1, 2, 1, 0, 0]);
    assert_eq!(key.len(), 1 + 14 + 1 + 5 + 32);
}

#[test]
fn keys_differ_where_the_channels_do() {
    let key = channel_detail_key(domain(1), domain(2), number(3));
    for other in [
        channel_detail_key(domain(2), domain(1), number(3)),
        channel_detail_key(domain(1), ChainId::Consensus, number(3)),
        channel_detail_key(ChainId::Consensus, domain(2), number(3)),
        channel_detail_key(domain(1), domain(2), number(4)),
        channel_detail_key(domain(1), domain(2), U256 { low: 3, high: 1 }),
    ] {
        assert_ne!(key, other);
    }
}

#[test]
fn details_are_encoded_like_their_fields() {
    for latest in [None, Some(number(9))] {
        let detail = detail(latest);
        let fields = (
            0x0102_0304u32,
            (5u128, 1u128 << 120),
            1u8,
            (6u128, 0u128),
            (7u128, 0u128),
            latest.map(|nonce| (nonce.low, nonce.high)),
        )
            .encode();
        assert_eq!(detail.encode(), fields);
        assert_eq!(ChannelDetail::decode(&fields).unwrap(), detail);
        let mut longer = fields.clone();
        longer.push(1);
        assert_eq!(ChannelDetail::decode(&longer).unwrap(), detail);
        for len in 0..fields.len() {
            assert!(ChannelDetail::decode(&fields[..len]).is_err());
        }
    }
}

#[test]
fn every_state_decodes_back() {
    for (state, byte) in
        [(ChannelState::Initiated, 0), (ChannelState::Open, 1), (ChannelState::Closed, 2)]
    {
        let mut one = detail(None);
        one.state = state;
        let bytes = one.encode();
        assert_eq!(bytes[36], byte);
        assert_eq!(ChannelDetail::decode(&bytes).unwrap(), one);
    }
    let mut bytes = detail(None).encode();
    bytes[36] = 3;
    assert!(ChannelDetail::decode(&bytes).is_err());
    let mut bytes = detail(None).encode();
    bytes[101] = 2;
    assert!(ChannelDetail::decode(&bytes).is_err());
}

#[test]
fn a_stored_detail_is_loaded_again() {
    let store: RefCell<HashMap<Vec<u8>, Vec<u8>>> = RefCell::new(HashMap::new());
    let insert = |key: &Vec<u8>, value: &Vec<u8>| -> Result<(), String> {
        store.borrow_mut().insert(key.clone(), value.clone());
        Ok(())
    };
    let get = |key: &Vec<u8>| -> Result<Option<Vec<u8>>, String> {
        Ok(store.borrow().get(key).cloned())
    };
    let one = detail(Some(number(1)));
    set_channel_detail(&insert, domain(1), ChainId::Consensus, one).unwrap();
    let loaded = get_channel_details(&get, domain(1), ChainId::Consensus, one.channel_id);
    assert_eq!(loaded, Ok(Some(one)));
    let other = get_channel_details(&get, ChainId::Consensus, domain(1), one.channel_id);
    assert_eq!(other, Ok(None));
}

#[test]
fn failures_of_the_store_are_passed_on() {
    let get = |_: &Vec<u8>| -> Result<Option<Vec<u8>>, String> { Err("down".to_string()) };
    let loaded = get_channel_details(&get, domain(1), domain(2), number(1));
    assert_eq!(loaded, Err(ClientError::Store("down".to_string())));
    let insert = |_: &Vec<u8>, _: &Vec<u8>| -> Result<(), String> { Err("full".to_string()) };
    let stored = set_channel_detail(&insert, domain(1), domain(2), detail(None));
    assert_eq!(stored, Err("full".to_string()));
}

fn damage(bytes: Vec<u8>) -> String {
    match decode_stored::<String>(Ok(Some(bytes))) {
        Err(ClientError::Backend(text)) => text,
        other => panic!("{:?}", other),
    }
}

#[test]
fn damaged_details_are_reported() {
    let whole = detail(Some(number(1))).encode();
    for (len, reasons) in [
        (3, "`ChannelDetail::block_number`:\n\tNot enough data to fill buffer\n"),
        (35, "`ChannelDetail::channel_id`:\n\tNot enough data to fill buffer\n"),
        (
            36,
            "`ChannelDetail::state`:\n\tCould not decode `ChannelState`, failed to read variant \
             byte:\n\t\tNot enough data to fill buffer\n",
        ),
        (68, "`ChannelDetail::next_inbox_nonce`:\n\tNot enough data to fill buffer\n"),
        (100, "`ChannelDetail::next_outbox_nonce`:\n\tNot enough data to fill buffer\n"),
        (
            101,
            "`ChannelDetail::latest_response_received_message_nonce`:\n\tCould not decode variant \
             byte for `Option`:\n\t\tNot enough data to fill buffer\n",
        ),
        (
            133,
            "`ChannelDetail::latest_response_received_message_nonce`:\n\tCould not decode \
             `Option::Some(T)`:\n\t\tNot enough data to fill buffer\n",
        ),
    ] {
        assert_eq!(
            damage(whole[..len].to_vec()),
            format!("Relayer DB is corrupted. Decode error: Could not decode {}", reasons)
        );
    }
    let mut bytes = whole.clone();
    bytes[36] = 3;
    assert_eq!(
        damage(bytes),
        "Relayer DB is corrupted. Decode error: Could not decode `ChannelDetail::state`:\n\t\
         Could not decode `ChannelState`, variant doesn't exist\n"
    );
    let mut bytes = whole;
    bytes[101] = 2;
    assert_eq!(
        damage(bytes),
        "Relayer DB is corrupted. Decode error: Could not decode \
         `ChannelDetail::latest_response_received_message_nonce`:\n\t\
         unexpected first byte decoding Option\n"
    );
}

#[test]
fn chained_reasons_read_like_those_of_the_codec() {
    let codec = parity_scale_codec::Error::from("root cause").chain("wrap cause").chain("final type");
    let own = DecodeError::new("root cause".to_string()).chain("wrap cause").chain("final type");
    assert_eq!(own.message(), codec.to_string());
    let codec = parity_scale_codec::Error::from("root cause");
    assert_eq!(DecodeError::new("root cause".to_string()).message(), codec.to_string());
}

#[test]
fn the_unit_runtime_knows_nothing() {
    <() as OnXDMRewards<u64>>::on_xdm_rewards(5);
    let leaf = EncodableOpaqueLeaf(vec![1]);
    let proof = Proof { leaf_indices: vec![0], leaf_count: 1, items: vec![[0u8; 32]] };
    let root: Option<[u8; 32]> =
        <() as MmrProofVerifier<[u8; 32], [u8; 32]>>::verify_proof_and_extract_consensus_state_root(
            leaf, proof,
        );
    assert_eq!(root, None);
    let key = (number(1), number(2));
    assert_eq!(<() as StorageKeys>::confirmed_domain_block_storage_key(DomainId(1)), None);
    assert_eq!(<() as StorageKeys>::outbox_storage_key(ChainId::Consensus, key), None);
    assert_eq!(<() as StorageKeys>::inbox_responses_storage_key(domain(1), key), None);
}

fn set(chains: &[ChainId]) -> ChainSet {
    let mut set = ChainSet::new();
    for chain in chains {
        set.insert(*chain);
    }
    set
}

#[test]
fn chain_sets_are_in_order_and_hold_nothing_twice() {
    let one = set(&[domain(3), ChainId::Consensus, domain(1), domain(3), ChainId::Consensus]);
    assert_eq!(*one.chains(), vec![ChainId::Consensus, domain(1), domain(3)]);
    assert!(one.contains(&domain(1)));
    assert!(!one.contains(&domain(2)));
    assert!(set(&[domain(1), domain(2)]) == set(&[domain(2), domain(1)]));
    let (mut one, mut two) = (Vec::new(), Vec::new());
    set(&[domain(1), domain(2)]).encode_to(&mut one);
    set(&[domain(2), domain(1)]).encode_to(&mut two);
    assert_eq!(one, two);
}

#[test]
fn different_updates_are_encoded_differently() {
    let encoded = |allow: &[ChainId], remove: &[ChainId]| {
        InherentType {
            maybe_updates: Some(DomainAllowlistUpdates {
                allow_chains: set(allow),
                remove_chains: set(remove),
            }),
        }
        .encode()
    };
    let one = encoded(&[domain(1)], &[domain(2)]);
    for other in [
        encoded(&[domain(1), domain(2)], &[]),
        encoded(&[], &[domain(1), domain(2)]),
        encoded(&[domain(2)], &[domain(1)]),
        encoded(&[domain(1)], &[]),
        InherentType { maybe_updates: None }.encode(),
    ] {
        assert_ne!(one, other);
    }
}

#[test]
fn inherent_data_are_encoded_like_their_fields() {
    assert_eq!(InherentType { maybe_updates: None }.encode(), vec![0]);
    let empty = InherentType { maybe_updates: Some(DomainAllowlistUpdates::default()) };
    assert_eq!(empty.encode(), vec![1, 0, 0]);
    let updates = DomainAllowlistUpdates {
        allow_chains: set(&[domain(9), ChainId::Consensus]),
        remove_chains: set(&[domain(300)]),
    };
    let fields = Some((vec![None, Some(9u32)], vec![Some(300u32)])).encode();
    assert_eq!(InherentType { maybe_updates: Some(updates) }.encode(), fields);
}

#[test]
fn inherent_data_decode_back() {
    let updates = DomainAllowlistUpdates {
        allow_chains: set(&(0..70).map(domain).collect::<Vec<ChainId>>()),
        remove_chains: set(&[ChainId::Consensus, domain(300)]),
    };
    assert!(updates.clone() == updates);
    let mut bytes = InherentType { maybe_updates: Some(updates.clone()) }.encode();
    let len = bytes.len();
    for short in 0..len {
        assert!(InherentType::decode(&bytes[..short]).is_none());
    }
    bytes.push(9);
    let (data, used) = InherentType::decode(&bytes).unwrap();
    assert_eq!(used, len);
    assert!(data.maybe_updates == Some(updates.clone()));
    let (again, used) = DomainAllowlistUpdates::decode(&bytes[1..]).unwrap();
    assert_eq!(used, len - 1);
    assert!(again == updates);
    let (none, used) = InherentType::decode(&[0, 7]).unwrap();
    assert!(none.maybe_updates.is_none());
    assert_eq!(used, 1);
    assert!(InherentType::decode(&[2, 0, 0]).is_none());
}

#[test]
fn sets_are_decoded_from_lists_in_any_order() {
    let bytes = (vec![Some(3u32), None, Some(1), Some(3)], 5u8).encode();
    let (chains, used) = ChainSet::decode(&bytes).unwrap();
    assert!(chains == set(&[ChainId::Consensus, domain(1), domain(3)]));
    assert_eq!(used, bytes.len() - 1);
    // No chain, a length that is longer than it needs to be, and a length of five bytes.
    assert!(ChainSet::decode(&[4, 2]).is_none());
    assert!(ChainSet::decode(&[1, 0]).is_none());
    assert!(ChainSet::decode(&[3, 0, 0, 0, 0x40]).is_none());
    assert_eq!(ChainId::decode(&[1, 2, 1, 0, 0, 9]), Some((domain(258), 5)));
    assert_eq!(ChainId::decode(&[0]), Some((ChainId::Consensus, 1)));
    assert_eq!(ChainId::decode(&[1, 2, 1, 0]), None);
}

#[test]
fn lengths_are_encoded_in_as_many_bytes_as_they_need() {
    for len in [63u32, 64, 200] {
        let chains: Vec<ChainId> = (0..len).map(domain).collect();
        let updates = DomainAllowlistUpdates { allow_chains: set(&chains), remove_chains: set(&[]) };
        let bytes = InherentType { maybe_updates: Some(updates) }.encode();
        let length = Compact(len).encode();
        assert_eq!(bytes[1..1 + length.len()], length[..]);
        assert_eq!(bytes.len(), 1 + length.len() + 5 * len as usize + 1);
    }
}

#[test]
fn inherent_data_are_provided_once() {
    let provider = InherentDataProvider::new(InherentType { maybe_updates: None });
    assert!(provider.data().maybe_updates.is_none());
    assert_eq!(INHERENT_IDENTIFIER, *b"messengr");
    let mut data = InherentData::new();
    assert_eq!(data.put_data(*b"timstap0", vec![4]), Ok(()));
    assert_eq!(provider.provide_inherent_data(&mut data), Ok(()));
    assert_eq!(data.get(&INHERENT_IDENTIFIER), Some(vec![0]));
    assert_eq!(data.get(b"timstap0"), Some(vec![4]));
    assert_eq!(data.get(b"unknown0"), None);
    assert_eq!(
        provider.provide_inherent_data(&mut data),
        Err(InherentsError::InherentDataExists(*b"messengr"))
    );
}

#[test]
fn reported_errors_are_handled() {
    let provider = InherentDataProvider::new(InherentType { maybe_updates: None });
    for (error, byte, name) in [
        (InherentError::MissingAllowlistUpdates, 0, "MissingAllowlistUpdates"),
        (InherentError::IncorrectAllowlistUpdates, 1, "IncorrectAllowlistUpdates"),
    ] {
        assert!(error.is_fatal_error());
        assert_eq!(error.encode(), vec![byte]);
        assert_eq!(InherentError::decode(&error.encode()), Some(error));
        assert_eq!(error.to_name(), format!("{:?}", error));
        assert_eq!(
            provider.try_handle_error(&INHERENT_IDENTIFIER, &error.encode()),
            Some(Err(InherentsError::Application(name.to_string())))
        );
        assert_eq!(provider.try_handle_error(b"other000", &error.encode()), None);
    }
    assert_eq!(provider.try_handle_error(&INHERENT_IDENTIFIER, &[2]), None);
    assert_eq!(provider.try_handle_error(&INHERENT_IDENTIFIER, &[]), None);
}
