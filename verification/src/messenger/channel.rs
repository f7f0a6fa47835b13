//! Schema for channel update storage.
use vstd::prelude::*;
use vstd::slice::slice_subrange;

use crate::messenger::chain;
use crate::messenger::chain::{ChainId, ChannelId, ChannelState, Nonce, U256};
use crate::scale;
use crate::scale::{
    decode_u128, decode_u32, decode_u8, encode_length, encode_u32, DecodeError, NOT_ENOUGH_DATA,
};

verus! {

/// What the keys of channel details start with: `channel_detail`.
pub const CHANNEL_DETAIL: [u8; 14] = [
    0x63,
    0x68,
    0x61,
    0x6e,
    0x6e,
    0x65,
    0x6c,
    0x5f,
    0x64,
    0x65,
    0x74,
    0x61,
    0x69,
    0x6c,
];

/// The key of the channel detail between two chains.
pub open spec fn detail_key(src: ChainId, dst: ChainId, channel_id: ChannelId) -> Seq<u8> {
    scale::length_code(14) + CHANNEL_DETAIL@ + (src.code() + (dst.code() + channel_id.code()))
}

/// The key of the channel detail between two chains.
pub fn channel_detail_key(
    src_chain_id: ChainId,
    dst_chain_id: ChainId,
    channel_id: ChannelId,
) -> (key: Vec<u8>)
    ensures
        key@ == detail_key(src_chain_id, dst_chain_id, channel_id),
{
    let mut key: Vec<u8> = encode_length(14);
    let mut i: usize = 0;
    while i < 14
        invariant
            0 <= i <= 14,
            key@ == scale::length_code(14) + CHANNEL_DETAIL@.take(i as int),
        decreases 14 - i,
    {
        key.push(CHANNEL_DETAIL[i]);
        i += 1;
        proof {
            assert(key@ =~= scale::length_code(14) + CHANNEL_DETAIL@.take(i as int));
        }
    }
    proof {
        assert(CHANNEL_DETAIL@.take(14) =~= CHANNEL_DETAIL@);
    }
    src_chain_id.encode_to(&mut key);
    dst_chain_id.encode_to(&mut key);
    channel_id.encode_to(&mut key);
    proof {
        assert(key@ =~= detail_key(src_chain_id, dst_chain_id, channel_id));
    }
    key
}

/// Different channels, or channels between different chains, have different keys.
pub proof fn law_detail_keys_distinct(
    src1: ChainId,
    dst1: ChainId,
    id1: ChannelId,
    src2: ChainId,
    dst2: ChainId,
    id2: ChannelId,
)
    requires
        detail_key(src1, dst1, id1) == detail_key(src2, dst2, id2),
    ensures
        src1 == src2,
        dst1 == dst2,
        id1 == id2,
{
    let head = scale::length_code(14) + CHANNEL_DETAIL@;
    let a = detail_key(src1, dst1, id1);
    let b = detail_key(src2, dst2, id2);
    assert(src1.code() + (dst1.code() + id1.code()) =~= a.subrange(
        head.len() as int,
        a.len() as int,
    ));
    assert(src2.code() + (dst2.code() + id2.code()) =~= b.subrange(
        head.len() as int,
        b.len() as int,
    ));
    chain::lemma_chain_code(src1, dst1.code() + id1.code(), src2, dst2.code() + id2.code());
    chain::lemma_chain_code(dst1, id1.code(), dst2, id2.code());
    chain::lemma_u256_code(id1, id2);
}

/// Channel detail between src and dst chain.
#[derive(Debug, Clone, Copy, PartialEq, Eq)]
pub struct ChannelDetail {
    /// Block number of chain at which the channel state is verified.
    pub block_number: u32,
    /// Channel identifier.
    pub channel_id: ChannelId,
    /// State of the channel.
    pub state: ChannelState,
    /// Next inbox nonce.
    pub next_inbox_nonce: Nonce,
    /// Next outbox nonce.
    pub next_outbox_nonce: Nonce,
    /// Latest outbox message nonce for which response was received from dst_chain.
    pub latest_response_received_message_nonce: Option<Nonce>,
}

/// The byte that stands for a state.
pub open spec fn state_byte(state: ChannelState) -> u8 {
    match state {
        ChannelState::Initiated => 0,
        ChannelState::Open => 1,
        ChannelState::Closed => 2,
    }
}

/// The encoded form of a number that may be missing.
pub open spec fn optional_code(nonce: Option<Nonce>) -> Seq<u8> {
    match nonce {
        None => seq![0u8],
        Some(nonce) => seq![1u8] + nonce.code(),
    }
}

impl ChannelDetail {
    /// The encoded form: the fields, one behind the other.
    pub open spec fn code(self) -> Seq<u8> {
        scale::u32_code(self.block_number) + self.channel_id.code() + seq![state_byte(self.state)]
            + self.next_inbox_nonce.code() + self.next_outbox_nonce.code() + optional_code(
            self.latest_response_received_message_nonce,
        )
    }

    /// The encoded form.
    pub fn encode(&self) -> (r: Vec<u8>)
        ensures
            r@ == self.code(),
    {
        let mut r: Vec<u8> = encode_u32(self.block_number);
        self.channel_id.encode_to(&mut r);
        r.push(
            match self.state {
                ChannelState::Initiated => 0u8,
                ChannelState::Open => 1u8,
                ChannelState::Closed => 2u8,
            },
        );
        self.next_inbox_nonce.encode_to(&mut r);
        self.next_outbox_nonce.encode_to(&mut r);
        match &self.latest_response_received_message_nonce {
            None => {
                r.push(0);
            },
            Some(nonce) => {
                r.push(1);
                nonce.encode_to(&mut r);
            },
        }
        proof {
            assert(r@ =~= self.code());
        }
        r
    }
}

/// `bytes` starts with the encoded form of `detail`.
pub open spec fn starts_with_detail(bytes: Seq<u8>, detail: ChannelDetail) -> bool {
    &&& detail.code().len() <= bytes.len()
    &&& bytes.take(detail.code().len() as int) == detail.code()
}

/// `bytes` starts with the encoded form of no channel detail.
pub open spec fn is_corrupted(bytes: Seq<u8>) -> bool {
    forall|detail: ChannelDetail| !#[trigger] starts_with_detail(bytes, detail)
}

/// Where the fields are in the encoded form.
proof fn lemma_detail_fields(detail: ChannelDetail)
    ensures
        ({
            let code = detail.code();
            let latest = detail.latest_response_received_message_nonce;
            &&& code.len() == (if latest is Some {
                134nat
            } else {
                102
            })
            &&& code.subrange(0, 4) == scale::u32_code(detail.block_number)
            &&& code.subrange(4, 36) == detail.channel_id.code()
            &&& code[36] == state_byte(detail.state)
            &&& code.subrange(37, 69) == detail.next_inbox_nonce.code()
            &&& code.subrange(69, 101) == detail.next_outbox_nonce.code()
            &&& code[101] == (if latest is Some {
                1u8
            } else {
                0
            })
            &&& latest is Some ==> code.subrange(102, 134) == latest->0.code()
        }),
{
    scale::lemma_number_codes();
    chain::lemma_u256_code(detail.channel_id, detail.channel_id);
    chain::lemma_u256_code(detail.next_inbox_nonce, detail.next_inbox_nonce);
    chain::lemma_u256_code(detail.next_outbox_nonce, detail.next_outbox_nonce);
    let code = detail.code();
    let latest = detail.latest_response_received_message_nonce;
    if latest is Some {
        chain::lemma_u256_code(latest->0, latest->0);
        assert(code.subrange(102, 134) =~= latest->0.code());
    }
    assert(code.subrange(0, 4) =~= scale::u32_code(detail.block_number));
    assert(code.subrange(4, 36) =~= detail.channel_id.code());
    assert(code.subrange(37, 69) =~= detail.next_inbox_nonce.code());
    assert(code.subrange(69, 101) =~= detail.next_outbox_nonce.code());
}

/// Where the fields are in bytes that start with the encoded form.
proof fn lemma_detail_in(bytes: Seq<u8>, detail: ChannelDetail)
    requires
        starts_with_detail(bytes, detail),
    ensures
        ({
            let latest = detail.latest_response_received_message_nonce;
            &&& bytes.len() >= 102
            &&& bytes.subrange(0, 4) == scale::u32_code(detail.block_number)
            &&& bytes.subrange(4, 36) == detail.channel_id.code()
            &&& bytes[36] == state_byte(detail.state)
            &&& bytes.subrange(37, 69) == detail.next_inbox_nonce.code()
            &&& bytes.subrange(69, 101) == detail.next_outbox_nonce.code()
            &&& bytes[101] == (if latest is Some {
                1u8
            } else {
                0
            })
            &&& latest is Some ==> bytes.len() >= 134 && bytes.subrange(102, 134)
                == latest->0.code()
        }),
{
    lemma_detail_fields(detail);
    let code = detail.code();
    let front = bytes.take(code.len() as int);
    assert(bytes.subrange(0, 4) =~= front.subrange(0, 4));
    assert(bytes.subrange(4, 36) =~= front.subrange(4, 36));
    assert(bytes[36] == front[36]);
    assert(bytes.subrange(37, 69) =~= front.subrange(37, 69));
    assert(bytes.subrange(69, 101) =~= front.subrange(69, 101));
    assert(bytes[101] == front[101]);
    if detail.latest_response_received_message_nonce is Some {
        assert(bytes.subrange(102, 134) =~= front.subrange(102, 134));
    }
}

/// Bytes start with the encoded form of at most one channel detail.
pub proof fn law_detail_decodes_once(bytes: Seq<u8>, a: ChannelDetail, b: ChannelDetail)
    requires
        starts_with_detail(bytes, a),
        starts_with_detail(bytes, b),
    ensures
        a == b,
{
    lemma_detail_in(bytes, a);
    lemma_detail_in(bytes, b);
    scale::lemma_number_codes();
    chain::lemma_u256_code(a.channel_id, b.channel_id);
    chain::lemma_u256_code(a.next_inbox_nonce, b.next_inbox_nonce);
    chain::lemma_u256_code(a.next_outbox_nonce, b.next_outbox_nonce);
    if a.latest_response_received_message_nonce is Some {
        chain::lemma_u256_code(
            a.latest_response_received_message_nonce->0,
            b.latest_response_received_message_nonce->0,
        );
    }
}

/// Why bytes that start with no channel detail cannot be decoded, the outermost reason first.
pub open spec fn corruption(bytes: Seq<u8>) -> Seq<Seq<char>> {
    let state = "Could not decode `ChannelDetail::state`"@;
    let latest = "Could not decode `ChannelDetail::latest_response_received_message_nonce`"@;
    if bytes.len() < 4 {
        seq!["Could not decode `ChannelDetail::block_number`"@, NOT_ENOUGH_DATA@]
    } else if bytes.len() < 36 {
        seq!["Could not decode `ChannelDetail::channel_id`"@, NOT_ENOUGH_DATA@]
    } else if bytes.len() < 37 {
        seq![
            state,
            "Could not decode `ChannelState`, failed to read variant byte"@,
            NOT_ENOUGH_DATA@,
        ]
    } else if bytes[36] > 2 {
        seq![state, "Could not decode `ChannelState`, variant doesn't exist"@]
    } else if bytes.len() < 69 {
        seq!["Could not decode `ChannelDetail::next_inbox_nonce`"@, NOT_ENOUGH_DATA@]
    } else if bytes.len() < 101 {
        seq!["Could not decode `ChannelDetail::next_outbox_nonce`"@, NOT_ENOUGH_DATA@]
    } else if bytes.len() < 102 {
        seq![latest, "Could not decode variant byte for `Option`"@, NOT_ENOUGH_DATA@]
    } else if bytes[101] == 1 {
        seq![latest, "Could not decode `Option::Some(T)`"@, NOT_ENOUGH_DATA@]
    } else {
        seq![latest, "unexpected first byte decoding Option"@]
    }
}

/// Decodes the number at `from`.
fn decode_u256(bytes: &[u8], from: usize) -> (res: Result<U256, DecodeError>)
    requires
        from <= bytes@.len(),
    ensures
        match res {
            Ok(value) => from + 32 <= bytes@.len() && value.code() == bytes@.subrange(
                from as int,
                from + 32,
            ),
            Err(error) => from + 32 > bytes@.len() && error@ == seq![NOT_ENOUGH_DATA@],
        },
{
    let rest: &[u8] = slice_subrange(bytes, from, bytes.len());
    match decode_u128(rest) {
        Err(text) => Err(DecodeError::new(text)),
        Ok(low) => {
            let behind: &[u8] = slice_subrange(rest, 16, rest.len());
            match decode_u128(behind) {
                Err(text) => Err(DecodeError::new(text)),
                Ok(high) => {
                    let value = U256 { low, high };
                    proof {
                        assert(value.code() =~= bytes@.subrange(from as int, from + 32));
                    }
                    Ok(value)
                },
            }
        },
    }
}

/// Decodes the byte at `from`.
fn decode_byte(bytes: &[u8], from: usize) -> (res: Result<u8, DecodeError>)
    requires
        from <= bytes@.len(),
    ensures
        match res {
            Ok(value) => from < bytes@.len() && value == bytes@[from as int],
            Err(error) => from == bytes@.len() && error@ == seq![NOT_ENOUGH_DATA@],
        },
{
    match decode_u8(slice_subrange(bytes, from, bytes.len())) {
        Ok(value) => Ok(value),
        Err(text) => Err(DecodeError::new(text)),
    }
}

/// Decodes the state at `from`.
fn decode_state(bytes: &[u8], from: usize) -> (res: Result<ChannelState, DecodeError>)
    requires
        from <= bytes@.len(),
    ensures
        match res {
            Ok(state) => from < bytes@.len() && state_byte(state) == bytes@[from as int],
            Err(error) => if from == bytes@.len() {
                error@ == seq![
                    "Could not decode `ChannelState`, failed to read variant byte"@,
                    NOT_ENOUGH_DATA@,
                ]
            } else {
                bytes@[from as int] > 2 && error@
                    == seq!["Could not decode `ChannelState`, variant doesn't exist"@]
            },
        },
{
    match decode_byte(bytes, from) {
        Err(error) => {
            let error: DecodeError = error.chain(
                "Could not decode `ChannelState`, failed to read variant byte",
            );
            proof {
                assert(error@ =~= seq![
                    "Could not decode `ChannelState`, failed to read variant byte"@,
                    NOT_ENOUGH_DATA@,
                ]);
            }
            Err(error)
        },
        Ok(0) => Ok(ChannelState::Initiated),
        Ok(1) => Ok(ChannelState::Open),
        Ok(2) => Ok(ChannelState::Closed),
        Ok(_) => Err(
            DecodeError::new(
                String::from_str("Could not decode `ChannelState`, variant doesn't exist"),
            ),
        ),
    }
}

/// Decodes the number that may be missing at `from`.
fn decode_optional(bytes: &[u8], from: usize) -> (res: Result<Option<Nonce>, DecodeError>)
    requires
        from <= bytes@.len(),
    ensures
        match res {
            Ok(None) => from < bytes@.len() && bytes@[from as int] == 0,
            Ok(Some(nonce)) => from + 33 <= bytes@.len() && bytes@[from as int] == 1
                && nonce.code() == bytes@.subrange(from + 1, from + 33),
            Err(error) => if from == bytes@.len() {
                error@ == seq!["Could not decode variant byte for `Option`"@, NOT_ENOUGH_DATA@]
            } else if bytes@[from as int] == 1 {
                from + 33 > bytes@.len() && error@ == seq![
                    "Could not decode `Option::Some(T)`"@,
                    NOT_ENOUGH_DATA@,
                ]
            } else {
                bytes@[from as int] != 0 && error@
                    == seq!["unexpected first byte decoding Option"@]
            },
        },
{
    proof {
        assert(bytes@.len() == bytes.len());
    }
    match decode_byte(bytes, from) {
        Err(error) => {
            let error: DecodeError = error.chain("Could not decode variant byte for `Option`");
            proof {
                assert(error@ =~= seq![
                    "Could not decode variant byte for `Option`"@,
                    NOT_ENOUGH_DATA@,
                ]);
            }
            Err(error)
        },
        Ok(0) => Ok(None),
        Ok(1) => match decode_u256(bytes, from + 1) {
            Err(error) => {
                let error: DecodeError = error.chain("Could not decode `Option::Some(T)`");
                proof {
                    assert(error@ =~= seq![
                        "Could not decode `Option::Some(T)`"@,
                        NOT_ENOUGH_DATA@,
                    ]);
                }
                Err(error)
            },
            Ok(nonce) => Ok(Some(nonce)),
        },
        Ok(_) => Err(
            DecodeError::new(String::from_str("unexpected first byte decoding Option")),
        ),
    }
}

impl ChannelDetail {
    /// Decodes the channel detail that `bytes` start with.
    pub fn decode(bytes: &[u8]) -> (res: Result<ChannelDetail, DecodeError>)
        ensures
            match res {
                Ok(detail) => starts_with_detail(bytes@, detail),
                Err(error) => is_corrupted(bytes@) && error@ == corruption(bytes@),
            },
    {
        proof {
            assert forall|detail: ChannelDetail| #[trigger]
                starts_with_detail(bytes@, detail) implies bytes@.len() >= 102 && bytes@[36] <= 2
                && (bytes@[101] == 0 || bytes@[101] == 1 && bytes@.len() >= 134) by {
                lemma_detail_in(bytes@, detail);
            }
        }
        let block_number: u32 = match decode_u32(bytes) {
            Ok(value) => value,
            Err(text) => {
                let error: DecodeError = DecodeError::new(text).chain(
                    "Could not decode `ChannelDetail::block_number`",
                );
                proof {
                    assert(error@ =~= corruption(bytes@));
                }
                return Err(error);
            },
        };
        let channel_id: ChannelId = match decode_u256(bytes, 4) {
            Ok(value) => value,
            Err(error) => {
                let error: DecodeError = error.chain("Could not decode `ChannelDetail::channel_id`");
                proof {
                    assert(error@ =~= corruption(bytes@));
                }
                return Err(error);
            },
        };
        let state: ChannelState = match decode_state(bytes, 36) {
            Ok(value) => value,
            Err(error) => {
                let error: DecodeError = error.chain("Could not decode `ChannelDetail::state`");
                proof {
                    assert(error@ =~= corruption(bytes@));
                }
                return Err(error);
            },
        };
        let next_inbox_nonce: Nonce = match decode_u256(bytes, 37) {
            Ok(value) => value,
            Err(error) => {
                let error: DecodeError = error.chain(
                    "Could not decode `ChannelDetail::next_inbox_nonce`",
                );
                proof {
                    assert(error@ =~= corruption(bytes@));
                }
                return Err(error);
            },
        };
        let next_outbox_nonce: Nonce = match decode_u256(bytes, 69) {
            Ok(value) => value,
            Err(error) => {
                let error: DecodeError = error.chain(
                    "Could not decode `ChannelDetail::next_outbox_nonce`",
                );
                proof {
                    assert(error@ =~= corruption(bytes@));
                }
                return Err(error);
            },
        };
        let latest_response_received_message_nonce: Option<Nonce> = match decode_optional(
            bytes,
            101,
        ) {
            Ok(value) => value,
            Err(error) => {
                let error: DecodeError = error.chain(
                    "Could not decode `ChannelDetail::latest_response_received_message_nonce`",
                );
                proof {
                    assert(error@ =~= corruption(bytes@));
                }
                return Err(error);
            },
        };
        let detail = ChannelDetail {
            block_number,
            channel_id,
            state,
            next_inbox_nonce,
            next_outbox_nonce,
            latest_response_received_message_nonce,
        };
        proof {
            lemma_same_detail(bytes@, detail);
        }
        Ok(detail)
    }
}

proof fn lemma_same_detail(bytes: Seq<u8>, detail: ChannelDetail)
    requires
        bytes.len() >= 102,
        bytes.take(4) == scale::u32_code(detail.block_number),
        bytes.subrange(4, 36) == detail.channel_id.code(),
        bytes[36] == state_byte(detail.state),
        bytes.subrange(37, 69) == detail.next_inbox_nonce.code(),
        bytes.subrange(69, 101) == detail.next_outbox_nonce.code(),
        match detail.latest_response_received_message_nonce {
            None => bytes[101] == 0,
            Some(nonce) => bytes[101] == 1 && bytes.len() >= 134 && bytes.subrange(102, 134)
                == nonce.code(),
        },
    ensures
        starts_with_detail(bytes, detail),
{
    lemma_detail_fields(detail);
    let code = detail.code();
    assert forall|i: int| 0 <= i < code.len() implies bytes[i] == #[trigger] code[i] by {
        if i < 4 {
            assert(bytes.take(4)[i] == code.subrange(0, 4)[i]);
        } else if 4 <= i < 36 {
            assert(bytes.subrange(4, 36)[i - 4] == code.subrange(4, 36)[i - 4]);
        } else if 37 <= i < 69 {
            assert(bytes.subrange(37, 69)[i - 37] == code.subrange(37, 69)[i - 37]);
        } else if 69 <= i < 101 {
            assert(bytes.subrange(69, 101)[i - 69] == code.subrange(69, 101)[i - 69]);
        } else if 102 <= i {
            assert(bytes.subrange(102, 134)[i - 102] == code.subrange(102, 134)[i - 102]);
        }
    }
    assert(bytes.take(code.len() as int) =~= code);
}

/// What can go wrong with the storage of channel details.
#[derive(Debug, PartialEq, Eq)]
pub enum ClientError<E> {
    /// The store failed.
    Store(E),
    /// What is stored is no channel detail.
    Backend(String),
}

/// The error for stored bytes that cannot be decoded for the reason `error`.
fn corrupted(error: &str) -> (r: String)
    ensures
        r@ == "Relayer DB is corrupted. Decode error: "@ + error@,
{
    String::from_str("Relayer DB is corrupted. Decode error: ").concat(error)
}

/// `res` is what is loaded where `stored` is in the store.
pub open spec fn loaded<E>(
    stored: Result<Option<Vec<u8>>, E>,
    res: Result<Option<ChannelDetail>, ClientError<E>>,
) -> bool {
    match stored {
        Err(error) => res == Err::<Option<ChannelDetail>, ClientError<E>>(
            ClientError::Store(error),
        ),
        Ok(None) => res == Ok::<Option<ChannelDetail>, ClientError<E>>(None),
        Ok(Some(bytes)) => match res {
            Ok(Some(detail)) => starts_with_detail(bytes@, detail),
            Err(ClientError::Backend(text)) => {
                &&& is_corrupted(bytes@)
                &&& text@ == "Relayer DB is corrupted. Decode error: "@ + scale::reasons_text(
                    corruption(bytes@),
                    0,
                )
            },
            _ => false,
        },
    }
}

/// Decodes what is in the store, if anything is.
pub fn decode_stored<E>(stored: Result<Option<Vec<u8>>, E>) -> (res: Result<
    Option<ChannelDetail>,
    ClientError<E>,
>)
    ensures
        loaded(stored, res),
{
    match stored {
        Err(error) => Err(ClientError::Store(error)),
        Ok(None) => Ok(None),
        Ok(Some(bytes)) => match ChannelDetail::decode(bytes.as_slice()) {
            Ok(detail) => Ok(Some(detail)),
            Err(error) => {
                let reason: String = error.message();
                Err(ClientError::Backend(corrupted(reason.as_str())))
            },
        },
    }
}

/// Loads what the store has under `key`. `get_aux` reads the store.
pub fn load_decode<E, F: Fn(&Vec<u8>) -> Result<Option<Vec<u8>>, E>>(
    get_aux: &F,
    key: &Vec<u8>,
) -> (res: Result<Option<ChannelDetail>, ClientError<E>>)
    requires
        call_requires(*get_aux, (key,)),
    ensures
        exists|stored: Result<Option<Vec<u8>>, E>| #[trigger]
            call_ensures(*get_aux, (key,), stored) && loaded(stored, res),
{
    let stored: Result<Option<Vec<u8>>, E> = get_aux(key);
    decode_stored(stored)
}

/// `res` is what loading the channel detail between two chains comes to.
pub open spec fn detail_got<E, F: Fn(&Vec<u8>) -> Result<Option<Vec<u8>>, E>>(
    get_aux: F,
    src: ChainId,
    dst: ChainId,
    channel_id: ChannelId,
    res: Result<Option<ChannelDetail>, ClientError<E>>,
) -> bool {
    exists|key: Vec<u8>, stored: Result<Option<Vec<u8>>, E>|
        #![trigger call_ensures(get_aux, (&key,), stored)]
        key@ == detail_key(src, dst, channel_id) && call_ensures(get_aux, (&key,), stored)
            && loaded(stored, res)
}

/// `res` is what storing a channel detail between two chains comes to.
pub open spec fn detail_set<E, F: Fn(&Vec<u8>, &Vec<u8>) -> Result<(), E>>(
    insert_aux: F,
    src: ChainId,
    dst: ChainId,
    detail: ChannelDetail,
    res: Result<(), E>,
) -> bool {
    exists|key: Vec<u8>, value: Vec<u8>|
        #![trigger call_ensures(insert_aux, (&key, &value), res)]
        key@ == detail_key(src, dst, detail.channel_id) && value@ == detail.code() && call_ensures(
            insert_aux,
            (&key, &value),
            res,
        )
}

/// Load the channel detail between src and dst chains.
/// Channel detail is the state of channel on src_chain.
pub fn get_channel_details<E, F: Fn(&Vec<u8>) -> Result<Option<Vec<u8>>, E>>(
    get_aux: &F,
    src_chain_id: ChainId,
    dst_chain_id: ChainId,
    channel_id: ChannelId,
) -> (res: Result<Option<ChannelDetail>, ClientError<E>>)
    requires
        forall|key: &Vec<u8>| #[trigger] call_requires(*get_aux, (key,)),
    ensures
        exists|key: Vec<u8>, stored: Result<Option<Vec<u8>>, E>|
            #![trigger call_ensures(*get_aux, (&key,), stored)]
            key@ == detail_key(src_chain_id, dst_chain_id, channel_id) && call_ensures(
                *get_aux,
                (&key,),
                stored,
            ) && loaded(stored, res),
        detail_got(*get_aux, src_chain_id, dst_chain_id, channel_id, res),
{
    let key: Vec<u8> = channel_detail_key(src_chain_id, dst_chain_id, channel_id);
    load_decode(get_aux, &key)
}

/// Stores the channel detail between src and dst chains. `insert_aux` puts a value in the store
/// under a key.
pub fn set_channel_detail<E, F: Fn(&Vec<u8>, &Vec<u8>) -> Result<(), E>>(
    insert_aux: &F,
    src_chain_id: ChainId,
    dst_chain_id: ChainId,
    channel_detail: ChannelDetail,
) -> (res: Result<(), E>)
    requires
        forall|key: &Vec<u8>, value: &Vec<u8>| #[trigger] call_requires(*insert_aux, (key, value)),
    ensures
        exists|key: Vec<u8>, value: Vec<u8>|
            #![trigger call_ensures(*insert_aux, (&key, &value), res)]
            key@ == detail_key(src_chain_id, dst_chain_id, channel_detail.channel_id) && value@
                == channel_detail.code() && call_ensures(*insert_aux, (&key, &value), res),
        detail_set(*insert_aux, src_chain_id, dst_chain_id, channel_detail, res),
{
    let key: Vec<u8> = channel_detail_key(src_chain_id, dst_chain_id, channel_detail.channel_id);
    let value: Vec<u8> = channel_detail.encode();
    insert_aux(&key, &value)
}

/// A channel detail that was stored is loaded again as it was.
pub proof fn law_stored_detail_is_loaded<E>(
    detail: ChannelDetail,
    value: Vec<u8>,
    res: Result<Option<ChannelDetail>, ClientError<E>>,
)
    requires
        value@ == detail.code(),
        loaded(Ok::<Option<Vec<u8>>, E>(Some(value)), res),
    ensures
        res == Ok::<Option<ChannelDetail>, ClientError<E>>(Some(detail)),
{
    assert(value@.take(value@.len() as int) =~= value@);
    assert(starts_with_detail(value@, detail));
    match res {
        Ok(Some(other)) => {
            law_detail_decodes_once(value@, detail, other);
        },
        _ => {
            assert(is_corrupted(value@));
        },
    }
}

/// Where the fields of a channel detail are in its encoded form: the block number in the first four
/// bytes, the channel identifier in the next 32, the state in one byte, the two next nonces in 32
/// bytes each, and the latest nonce in the last 32 if the byte before tells that there is one.
pub proof fn law_detail_layout(detail: ChannelDetail)
    ensures
        ({
            let code = detail.code();
            let latest = detail.latest_response_received_message_nonce;
            &&& code.len() == (if latest is Some {
                134nat
            } else {
                102
            })
            &&& code.subrange(0, 4) == scale::u32_code(detail.block_number)
            &&& code.subrange(4, 36) == detail.channel_id.code()
            &&& detail.state is Initiated <==> code[36] == 0
            &&& detail.state is Open <==> code[36] == 1
            &&& detail.state is Closed <==> code[36] == 2
            &&& code.subrange(37, 69) == detail.next_inbox_nonce.code()
            &&& code.subrange(69, 101) == detail.next_outbox_nonce.code()
            &&& latest is None <==> code[101] == 0
            &&& latest is Some <==> code[101] == 1
            &&& latest is Some ==> code.subrange(102, 134) == latest->0.code()
        }),
{
    lemma_detail_fields(detail);
}

/// Bytes that start with a channel detail start with its fields in their places, whatever follows.
pub proof fn law_decoded_fields(bytes: Seq<u8>, detail: ChannelDetail)
    requires
        starts_with_detail(bytes, detail),
    ensures
        bytes.len() >= 102,
        scale::u32_code(detail.block_number) == bytes.subrange(0, 4),
        detail.channel_id.code() == bytes.subrange(4, 36),
        detail.state is Initiated <==> bytes[36] == 0,
        detail.state is Open <==> bytes[36] == 1,
        detail.state is Closed <==> bytes[36] == 2,
        detail.next_inbox_nonce.code() == bytes.subrange(37, 69),
        detail.next_outbox_nonce.code() == bytes.subrange(69, 101),
        detail.latest_response_received_message_nonce is None <==> bytes[101] == 0,
        detail.latest_response_received_message_nonce is Some <==> bytes[101] == 1,
        detail.latest_response_received_message_nonce matches Some(nonce) ==> bytes.len() >= 134
            && nonce.code() == bytes.subrange(102, 134),
{
    lemma_detail_in(bytes, detail);
}

/// The key of a channel detail is the list of the fourteen bytes of `channel_detail`, with their
/// number in front, then the chain that has the channel, the chain at its other end, and the
/// identifier.
pub proof fn law_detail_key_layout(src: ChainId, dst: ChainId, channel_id: ChannelId)
    ensures
        ({
            let key = detail_key(src, dst, channel_id);
            let s = 15 + src.code().len() as int;
            let d = s + dst.code().len() as int;
            &&& key.len() == d + 32
            &&& key[0] == 4 * 14
            &&& key.subrange(1, 15) == seq![
                'c' as u8,
                'h' as u8,
                'a' as u8,
                'n' as u8,
                'n' as u8,
                'e' as u8,
                'l' as u8,
                '_' as u8,
                'd' as u8,
                'e' as u8,
                't' as u8,
                'a' as u8,
                'i' as u8,
                'l' as u8,
            ]
            &&& key.subrange(15, s) == src.code()
            &&& key.subrange(s, d) == dst.code()
            &&& key.subrange(d, d + 32) == channel_id.code()
        }),
{
    let key = detail_key(src, dst, channel_id);
    let s = 15 + src.code().len() as int;
    let d = s + dst.code().len() as int;
    scale::law_length_is_written_shortest(14);
    chain::lemma_u256_code(channel_id, channel_id);
    assert(key.subrange(1, 15) =~= CHANNEL_DETAIL@);
    assert(CHANNEL_DETAIL@ =~= seq![
        'c' as u8,
        'h' as u8,
        'a' as u8,
        'n' as u8,
        'n' as u8,
        'e' as u8,
        'l' as u8,
        '_' as u8,
        'd' as u8,
        'e' as u8,
        't' as u8,
        'a' as u8,
        'i' as u8,
        'l' as u8,
    ]);
    assert(key.subrange(15, s) =~= src.code());
    assert(key.subrange(s, d) =~= dst.code());
    assert(key.subrange(d, d + 32) =~= channel_id.code());
}

/// An encoded channel detail that is cut off is refused with the field in which it is cut as the
/// outermost reason.
pub proof fn law_cut_off_field_is_named(detail: ChannelDetail, n: int)
    requires
        0 <= n < detail.code().len(),
    ensures
        is_corrupted(detail.code().take(n)),
        corruption(detail.code().take(n))[0] == (if n < 4 {
            "Could not decode `ChannelDetail::block_number`"@
        } else if n < 36 {
            "Could not decode `ChannelDetail::channel_id`"@
        } else if n < 37 {
            "Could not decode `ChannelDetail::state`"@
        } else if n < 69 {
            "Could not decode `ChannelDetail::next_inbox_nonce`"@
        } else if n < 101 {
            "Could not decode `ChannelDetail::next_outbox_nonce`"@
        } else {
            "Could not decode `ChannelDetail::latest_response_received_message_nonce`"@
        }),
        corruption(detail.code().take(n)).last() == NOT_ENOUGH_DATA@,
{
    let code = detail.code();
    let bytes = code.take(n);
    lemma_detail_fields(detail);
    assert forall|other: ChannelDetail| !#[trigger] starts_with_detail(bytes, other) by {
        if starts_with_detail(bytes, other) {
            lemma_detail_fields(other);
            lemma_detail_in(bytes, other);
            assert(bytes[101] == code[101]);
        }
    }
    if n > 36 {
        assert(bytes[36] == code[36]);
    }
    if n > 101 {
        assert(bytes[101] == code[101]);
    }
}

/// Where the store has nothing, nothing is loaded, and where it fails, its error is passed on; what is
/// loaded otherwise is what the stored bytes start with.
pub proof fn law_loaded_is_what_is_stored<E>(
    stored: Result<Option<Vec<u8>>, E>,
    detail: ChannelDetail,
    res: Result<Option<ChannelDetail>, ClientError<E>>,
)
    requires
        loaded(stored, res),
    ensures
        stored matches Err(error) ==> res == Err::<Option<ChannelDetail>, ClientError<E>>(
            ClientError::Store(error),
        ),
        stored matches Ok(None) ==> res == Ok::<Option<ChannelDetail>, ClientError<E>>(None),
        stored matches Ok(Some(bytes)) ==> (detail.code().len() <= bytes.len() && bytes@.take(
            detail.code().len() as int,
        ) == detail.code() <==> res == Ok::<Option<ChannelDetail>, ClientError<E>>(Some(detail))),
{
    if let Ok(Some(bytes)) = stored {
        if starts_with_detail(bytes@, detail) {
            match res {
                Ok(Some(other)) => {
                    law_detail_decodes_once(bytes@, detail, other);
                },
                _ => {
                    assert(is_corrupted(bytes@));
                },
            }
        }
    }
}

/// A channel detail that was stored between two chains is what is loaded between these two for its
/// channel, where the store gives back under a key what was put in under it.
pub proof fn law_set_then_get<
    E,
    F: Fn(&Vec<u8>, &Vec<u8>) -> Result<(), E>,
    G: Fn(&Vec<u8>) -> Result<Option<Vec<u8>>, E>,
>(
    insert_aux: F,
    get_aux: G,
    src: ChainId,
    dst: ChainId,
    detail: ChannelDetail,
    set: Result<(), E>,
    got: Result<Option<ChannelDetail>, ClientError<E>>,
)
    requires
        set is Ok,
        detail_set(insert_aux, src, dst, detail, set),
        detail_got(get_aux, src, dst, detail.channel_id, got),
        forall|
            key: Vec<u8>,
            value: Vec<u8>,
            asked: Vec<u8>,
            stored: Result<Option<Vec<u8>>, E>,
        |
            key@ == asked@ && #[trigger] call_ensures(insert_aux, (&key, &value), set)
                && #[trigger] call_ensures(get_aux, (&asked,), stored) ==> stored is Ok
                && stored->Ok_0 is Some && (stored->Ok_0)->0@ == value@,
    ensures
        got == Ok::<Option<ChannelDetail>, ClientError<E>>(Some(detail)),
{
    let (key, value) = choose|key: Vec<u8>, value: Vec<u8>|
        #![trigger call_ensures(insert_aux, (&key, &value), set)]
        key@ == detail_key(src, dst, detail.channel_id) && value@ == detail.code() && call_ensures(
            insert_aux,
            (&key, &value),
            set,
        );
    let (asked, stored) = choose|asked: Vec<u8>, stored: Result<Option<Vec<u8>>, E>|
        #![trigger call_ensures(get_aux, (&asked,), stored)]
        asked@ == detail_key(src, dst, detail.channel_id) && call_ensures(
            get_aux,
            (&asked,),
            stored,
        ) && loaded(stored, got);
    assert(call_ensures(insert_aux, (&key, &value), set));
    assert(call_ensures(get_aux, (&asked,), stored));
    let bytes = (stored->Ok_0)->0;
    law_stored_detail_is_loaded(detail, bytes, got);
}

} // verus!
