//! Chains, channels and messages, and their encoded forms.
use vstd::prelude::*;
use vstd::slice::slice_subrange;

use crate::bytes::append_bytes;
use crate::scale;
use crate::scale::{decode_u32, decode_u8, encode_u128, encode_u32};

verus! {

/// A domain.
#[derive(Debug, Clone, Copy, PartialEq, Eq)]
pub struct DomainId(pub u32);

/// A chain: the consensus chain, or that of a domain.
#[derive(Debug, Clone, Copy, PartialEq, Eq)]
pub enum ChainId {
    Consensus,
    Domain(DomainId),
}

/// An unsigned number of 256 bits.
#[derive(Debug, Clone, Copy, PartialEq, Eq)]
pub struct U256 {
    pub low: u128,
    pub high: u128,
}

/// Channel identity.
pub type ChannelId = U256;

/// The number of a message in its channel.
pub type Nonce = U256;

/// The key of a message: its channel, and its number there.
pub type MessageKey = (ChannelId, Nonce);

/// State of a channel.
#[derive(Debug, Clone, Copy, PartialEq, Eq)]
pub enum ChannelState {
    /// Channel between chains is initiated but do not yet send or receive messages in this state.
    Initiated,
    /// Channel is open and can send and receive messages.
    Open,
    /// Channel is closed along with its messages.
    Closed,
}

impl ChainId {
    /// The encoded form.
    pub open spec fn code(self) -> Seq<u8> {
        match self {
            ChainId::Consensus => seq![0u8],
            ChainId::Domain(domain) => seq![1u8] + scale::u32_code(domain.0),
        }
    }

    /// Adds the encoded form at the end of `out`.
    pub fn encode_to(&self, out: &mut Vec<u8>)
        ensures
            final(out)@ == old(out)@ + self.code(),
    {
        let ghost before = out@;
        match self {
            ChainId::Consensus => {
                out.push(0);
            },
            ChainId::Domain(domain) => {
                out.push(1);
                let number: Vec<u8> = encode_u32(domain.0);
                append_bytes(out, number.as_slice());
            },
        }
        proof {
            assert(out@ =~= before + self.code());
        }
    }

    /// Decodes the chain that `bytes` begin with, and tells how many bytes it takes.
    pub fn decode(bytes: &[u8]) -> (r: Option<(ChainId, usize)>)
        ensures
            match r {
                Some((chain, len)) => scale::begins(bytes@, chain.code()) && len
                    == chain.code().len(),
                None => forall|chain: ChainId| !scale::begins(bytes@, #[trigger] chain.code()),
            },
    {
        proof {
            scale::lemma_number_codes();
            assert forall|chain: ChainId| scale::begins(
                bytes@,
                #[trigger] chain.code(),
            ) implies bytes@.len() >= 1 && bytes@[0] == chain.code()[0] && (bytes@[0] == 0
                || bytes@[0] == 1 && bytes@.len() >= 5) by {
                assert(bytes@.take(chain.code().len() as int)[0] == bytes@[0]);
            }
        }
        match decode_u8(bytes) {
            Ok(0) => {
                proof {
                    assert(bytes@.take(1) =~= ChainId::Consensus.code());
                }
                Some((ChainId::Consensus, 1))
            },
            Ok(1) => {
                let rest: &[u8] = slice_subrange(bytes, 1, bytes.len());
                match decode_u32(rest) {
                    Ok(number) => {
                        let chain = ChainId::Domain(DomainId(number));
                        proof {
                            assert(bytes@.take(5) =~= seq![1u8] + rest@.take(4));
                        }
                        Some((chain, 5))
                    },
                    Err(_) => None,
                }
            },
            _ => None,
        }
    }
}

impl U256 {
    /// The encoded form: the low half, then the high half.
    pub open spec fn code(self) -> Seq<u8> {
        scale::u128_code(self.low) + scale::u128_code(self.high)
    }

    /// Adds the encoded form at the end of `out`.
    pub fn encode_to(&self, out: &mut Vec<u8>)
        ensures
            final(out)@ == old(out)@ + self.code(),
    {
        let ghost before = out@;
        let low: Vec<u8> = encode_u128(self.low);
        append_bytes(out, low.as_slice());
        let high: Vec<u8> = encode_u128(self.high);
        append_bytes(out, high.as_slice());
        proof {
            assert(out@ =~= before + self.code());
        }
    }
}

/// The encoded form of a number is 32 bytes long and tells the numbers apart.
pub proof fn lemma_u256_code(a: U256, b: U256)
    ensures
        a.code().len() == 32,
        a.code() == b.code() ==> a == b,
{
    scale::lemma_number_codes();
    if a.code() == b.code() {
        assert(a.code().subrange(0, 16) =~= scale::u128_code(a.low));
        assert(b.code().subrange(0, 16) =~= scale::u128_code(b.low));
        assert(a.code().subrange(16, 32) =~= scale::u128_code(a.high));
        assert(b.code().subrange(16, 32) =~= scale::u128_code(b.high));
    }
}

/// What follows an encoded chain can be told from it.
pub proof fn lemma_chain_code(a: ChainId, rest_a: Seq<u8>, b: ChainId, rest_b: Seq<u8>)
    requires
        a.code() + rest_a == b.code() + rest_b,
    ensures
        a == b,
        rest_a == rest_b,
{
    scale::lemma_number_codes();
    let whole = a.code() + rest_a;
    assert(whole[0] == a.code()[0]);
    assert((b.code() + rest_b)[0] == b.code()[0]);
    match (a, b) {
        (ChainId::Consensus, ChainId::Consensus) => {
            assert(rest_a =~= whole.subrange(1, whole.len() as int));
            assert(rest_b =~= (b.code() + rest_b).subrange(1, whole.len() as int));
        },
        (ChainId::Domain(x), ChainId::Domain(y)) => {
            assert(scale::u32_code(x.0) =~= whole.subrange(1, 5));
            assert(scale::u32_code(y.0) =~= (b.code() + rest_b).subrange(1, 5));
            assert(rest_a =~= whole.subrange(5, whole.len() as int));
            assert(rest_b =~= (b.code() + rest_b).subrange(5, whole.len() as int));
        },
        _ => {},
    }
}

/// A chain is told by its first byte; a domain has the four bytes of its number behind it, the
/// lowest first.
pub proof fn law_chain_bytes(domain: DomainId)
    ensures
        ChainId::Consensus.code() == seq![0u8],
        ({
            let code = ChainId::Domain(domain).code();
            &&& code.len() == 5
            &&& code[0] == 1
            &&& code[1] + 256 * code[2] + 65536 * code[3] + 16777216 * code[4] == domain.0
        }),
{
    scale::law_bytes_are_base_256_digits(domain.0 as nat, 4, 0);
    scale::law_bytes_are_base_256_digits(domain.0 as nat, 4, 1);
    scale::law_bytes_are_base_256_digits(domain.0 as nat, 4, 2);
    scale::law_bytes_are_base_256_digits(domain.0 as nat, 4, 3);
    reveal_with_fuel(vstd::arithmetic::power::pow, 5);
    assert(vstd::arithmetic::power::pow(256, 0) == 1);
    assert(vstd::arithmetic::power::pow(256, 1) == 256);
    assert(vstd::arithmetic::power::pow(256, 2) == 65536);
    assert(vstd::arithmetic::power::pow(256, 3) == 16777216);
    let code = ChainId::Domain(domain).code();
    let number = scale::u32_code(domain.0);
    assert(code[1] == number[0]);
    assert(code[2] == number[1]);
    assert(code[3] == number[2]);
    assert(code[4] == number[3]);
}

/// A number of 256 bits is the sixteen bytes of its low half and then those of its high half, the
/// lowest byte of each first.
pub proof fn law_u256_bytes(value: U256, i: int)
    requires
        0 <= i < 16,
    ensures
        value.code().len() == 32,
        value.code()[i] == (value.low as int / vstd::arithmetic::power::pow(256, i as nat)) % 256,
        value.code()[16 + i] == (value.high as int / vstd::arithmetic::power::pow(256, i as nat))
            % 256,
{
    scale::law_bytes_are_base_256_digits(value.low as nat, 16, i);
    scale::law_bytes_are_base_256_digits(value.high as nat, 16, i);
}

} // verus!
