//! The binary encoding of plain values, as `parity_scale_codec` has it.
use vstd::prelude::*;

verus! {

/// The reason for which a number cannot be decoded.
pub const NOT_ENOUGH_DATA: &'static str = "Not enough data to fill buffer";

/// The lowest `count` bytes of a number, the lowest first.
pub open spec fn le_bytes(value: nat, count: nat) -> Seq<u8>
    decreases count,
{
    if count == 0 {
        Seq::empty()
    } else {
        seq![(value % 256) as u8] + le_bytes(value / 256, (count - 1) as nat)
    }
}

/// The encoded form of 32 bits: four bytes, the lowest first.
pub open spec fn u32_code(value: u32) -> Seq<u8> {
    le_bytes(value as nat, 4)
}

/// The encoded form of 128 bits: sixteen bytes, the lowest first.
pub open spec fn u128_code(value: u128) -> Seq<u8> {
    le_bytes(value as nat, 16)
}

/// The encoded form of a length. The two lowest bits tell how many bytes it takes.
pub open spec fn length_code(len: u32) -> Seq<u8> {
    if len < 0x40 {
        le_bytes((4 * len) as nat, 1)
    } else if len < 0x4000 {
        le_bytes((4 * len + 1) as nat, 2)
    } else if len < 0x4000_0000 {
        le_bytes((4 * len + 2) as nat, 4)
    } else {
        seq![3u8] + le_bytes(len as nat, 4)
    }
}

/// `parity_scale_codec::Encode::encode` on a `u32`: its bytes, the lowest first.
#[verifier::external_body]
pub(crate) fn encode_u32(value: u32) -> (r: Vec<u8>)
    ensures
        r@ == u32_code(value),
{
    parity_scale_codec::Encode::encode(&value)
}

/// `parity_scale_codec::Encode::encode` on a `u128`: its bytes, the lowest first.
#[verifier::external_body]
pub(crate) fn encode_u128(value: u128) -> (r: Vec<u8>)
    ensures
        r@ == u128_code(value),
{
    parity_scale_codec::Encode::encode(&value)
}

/// `parity_scale_codec::Encode::encode` on a `Compact<u32>`, which stands before the items of a
/// list: one, two, four or five bytes, as the length needs.
#[verifier::external_body]
pub(crate) fn encode_length(len: u32) -> (r: Vec<u8>)
    ensures
        r@ == length_code(len),
{
    parity_scale_codec::Encode::encode(&parity_scale_codec::Compact(len))
}

/// `parity_scale_codec::Decode::decode` for a `u32`: takes four bytes off the front of the input,
/// the lowest first. On a shorter input it fails, and the text of its error says so.
#[verifier::external_body]
pub(crate) fn decode_u32(bytes: &[u8]) -> (res: Result<u32, String>)
    ensures
        match res {
            Ok(value) => bytes@.len() >= 4 && u32_code(value) == bytes@.take(4),
            Err(text) => bytes@.len() < 4 && text@ == NOT_ENOUGH_DATA@,
        },
{
    parity_scale_codec::Decode::decode(&mut &bytes[..]).map_err(
        |error: parity_scale_codec::Error| error.to_string(),
    )
}

/// `parity_scale_codec::Decode::decode` for a `u128`: takes sixteen bytes off the front of the
/// input, the lowest first. On a shorter input it fails, and the text of its error says so.
#[verifier::external_body]
pub(crate) fn decode_u128(bytes: &[u8]) -> (res: Result<u128, String>)
    ensures
        match res {
            Ok(value) => bytes@.len() >= 16 && u128_code(value) == bytes@.take(16),
            Err(text) => bytes@.len() < 16 && text@ == NOT_ENOUGH_DATA@,
        },
{
    parity_scale_codec::Decode::decode(&mut &bytes[..]).map_err(
        |error: parity_scale_codec::Error| error.to_string(),
    )
}

/// `parity_scale_codec::Decode::decode` for a `u8`: takes one byte off the front of the input. On
/// an empty input it fails, and the text of its error says so.
#[verifier::external_body]
pub(crate) fn decode_u8(bytes: &[u8]) -> (res: Result<u8, String>)
    ensures
        match res {
            Ok(value) => bytes@.len() >= 1 && value == bytes@[0],
            Err(text) => bytes@.len() < 1 && text@ == NOT_ENOUGH_DATA@,
        },
{
    parity_scale_codec::Decode::decode(&mut &bytes[..]).map_err(
        |error: parity_scale_codec::Error| error.to_string(),
    )
}

/// `bytes` begins with `code`.
pub open spec fn begins(bytes: Seq<u8>, code: Seq<u8>) -> bool {
    code.len() <= bytes.len() && bytes.take(code.len() as int) == code
}

/// What begins with a code is the code and what follows it.
pub proof fn lemma_begins(bytes: Seq<u8>, code: Seq<u8>)
    ensures
        begins(bytes, code) ==> bytes == code + bytes.skip(code.len() as int),
        forall|rest: Seq<u8>| bytes == #[trigger] (code + rest) ==> begins(bytes, code),
{
    if begins(bytes, code) {
        assert(bytes =~= bytes.take(code.len() as int) + bytes.skip(code.len() as int));
    }
    assert forall|rest: Seq<u8>| bytes == #[trigger] (code + rest) implies begins(
        bytes,
        code,
    ) by {
        assert(bytes.take(code.len() as int) =~= code);
    }
}

/// `parity_scale_codec::Decode::decode` for a `Compact<u32>`: takes a length off the front of the
/// input. It fails where the input begins with the encoded form of no length, a longer form than
/// the length needs among them.
#[verifier::external_body]
pub(crate) fn decode_length(bytes: &[u8]) -> (r: Option<u32>)
    ensures
        match r {
            Some(len) => begins(bytes@, length_code(len)),
            None => forall|len: u32| !begins(bytes@, #[trigger] length_code(len)),
        },
{
    let len: Option<parity_scale_codec::Compact<u32>> = parity_scale_codec::Decode::decode(
        &mut &bytes[..],
    ).ok();
    len.map(|len| len.0)
}

/// How many bytes the encoded form of a length takes.
pub fn length_size(len: u32) -> (r: usize)
    ensures
        r == length_code(len).len(),
{
    proof {
        lemma_length_code_shape(len);
    }
    if len < 0x40 {
        1
    } else if len < 0x4000 {
        2
    } else if len < 0x4000_0000 {
        4
    } else {
        5
    }
}

/// Why a value cannot be decoded: what could not be, and for which reason, which may have a reason
/// of its own.
#[derive(Debug, PartialEq, Eq)]
pub struct DecodeError {
    /// The innermost reason comes first.
    reasons: Vec<String>,
}

/// As many tabs.
pub open spec fn tabs(count: nat) -> Seq<char> {
    Seq::new(count, |i: int| '\t')
}

/// The text of reasons, the outermost first: each on a line of its own, and further in than the
/// one before.
pub open spec fn reasons_text(reasons: Seq<Seq<char>>, indent: nat) -> Seq<char>
    decreases reasons.len(),
{
    if reasons.len() == 0 {
        Seq::empty()
    } else if reasons.len() > 1 {
        tabs(indent) + reasons[0] + ":\n"@ + reasons_text(reasons.drop_first(), indent + 1)
    } else if indent > 0 {
        tabs(indent) + reasons[0] + "\n"@
    } else {
        reasons[0]
    }
}

impl View for DecodeError {
    type V = Seq<Seq<char>>;

    /// The reasons, the outermost first.
    closed spec fn view(&self) -> Seq<Seq<char>> {
        Seq::new(
            self.reasons.len() as nat,
            |i: int| self.reasons[self.reasons.len() - 1 - i]@,
        )
    }
}

impl DecodeError {
    /// An error with one reason.
    pub fn new(reason: String) -> (r: DecodeError)
        ensures
            r@ == seq![reason@],
    {
        let mut reasons: Vec<String> = Vec::new();
        reasons.push(reason);
        let r = DecodeError { reasons };
        proof {
            assert(r@ =~= seq![reason@]);
        }
        r
    }

    /// The error as the reason why something else cannot be decoded.
    pub fn chain(self, description: &str) -> (r: DecodeError)
        ensures
            r@ == seq![description@] + self@,
    {
        let ghost before = self@;
        let mut reasons: Vec<String> = self.reasons;
        reasons.push(String::from_str(description));
        let r = DecodeError { reasons };
        proof {
            assert(r@ =~= seq![description@] + before);
        }
        r
    }

    /// The text of the error.
    pub fn message(&self) -> (r: String)
        ensures
            r@ == reasons_text(self@, 0),
    {
        let mut r = String::new();
        let mut left: usize = self.reasons.len();
        let mut indent: usize = 0;
        proof {
            assert(self@.skip(0) =~= self@);
            assert(r@ + reasons_text(self@, 0) =~= reasons_text(self@, 0));
        }
        while left > 0
            invariant
                0 <= left <= self.reasons.len(),
                indent == self.reasons.len() - left,
                r@ + reasons_text(self@.skip(indent as int), indent as nat) == reasons_text(
                    self@,
                    0,
                ),
            decreases left,
        {
            let ghost before = r@;
            let ghost here = self@.skip(indent as int);
            push_tabs(&mut r, indent);
            left -= 1;
            r.append(self.reasons[left].as_str());
            if left > 0 {
                r.append(":\n");
            } else if indent > 0 {
                r.append("\n");
            }
            proof {
                assert(here[0] == self.reasons[left as int]@);
                assert(here.drop_first() =~= self@.skip(indent + 1));
                assert(r@ + reasons_text(self@.skip(indent + 1), (indent + 1) as nat) =~= before
                    + reasons_text(here, indent as nat));
            }
            indent += 1;
        }
        proof {
            assert(reasons_text(self@.skip(indent as int), indent as nat) =~= Seq::<char>::empty());
            assert(r@ + Seq::<char>::empty() =~= r@);
        }
        r
    }
}

fn push_tabs(r: &mut String, count: usize)
    ensures
        final(r)@ == old(r)@ + tabs(count as nat),
{
    let ghost before = r@;
    let mut i: usize = 0;
    proof {
        assert(before + tabs(0) =~= before);
        reveal_strlit("\t");
    }
    while i < count
        invariant
            before == old(r)@,
            0 <= i <= count,
            r@ == before + tabs(i as nat),
            "\t"@ == seq!['\t'],
        decreases count - i,
    {
        r.append("\t");
        i += 1;
        proof {
            assert(r@ =~= before + tabs(i as nat));
        }
    }
}

/// 256 to the power of `count`.
spec fn bound(count: nat) -> nat
    decreases count,
{
    if count == 0 {
        1
    } else {
        256 * bound((count - 1) as nat)
    }
}

proof fn lemma_le_bytes_len(value: nat, count: nat)
    ensures
        le_bytes(value, count).len() == count,
    decreases count,
{
    if count > 0 {
        lemma_le_bytes_len(value / 256, (count - 1) as nat);
    }
}

proof fn lemma_le_bytes_injective(a: nat, b: nat, count: nat)
    requires
        le_bytes(a, count) == le_bytes(b, count),
        a < bound(count),
        b < bound(count),
    ensures
        a == b,
    decreases count,
{
    if count > 0 {
        let rest = (count - 1) as nat;
        let x = le_bytes(a, count);
        let y = le_bytes(b, count);
        lemma_le_bytes_len(a / 256, rest);
        lemma_le_bytes_len(b / 256, rest);
        assert(x[0] == (a % 256) as u8);
        assert(y[0] == (b % 256) as u8);
        assert(le_bytes(a / 256, rest) =~= x.subrange(1, count as int));
        assert(le_bytes(b / 256, rest) =~= y.subrange(1, count as int));
        assert(a / 256 < bound(rest)) by (nonlinear_arith)
            requires
                a < 256 * bound(rest),
        ;
        assert(b / 256 < bound(rest)) by (nonlinear_arith)
            requires
                b < 256 * bound(rest),
        ;
        lemma_le_bytes_injective(a / 256, b / 256, rest);
    }
}

/// How long the encoded forms are, and that they tell the values apart.
pub proof fn lemma_number_codes()
    ensures
        forall|v: u32| (#[trigger] u32_code(v)).len() == 4,
        forall|v: u128| (#[trigger] u128_code(v)).len() == 16,
        forall|a: u32, b: u32| #[trigger] u32_code(a) == #[trigger] u32_code(b) ==> a == b,
        forall|a: u128, b: u128| #[trigger] u128_code(a) == #[trigger] u128_code(b) ==> a == b,
{
    reveal_with_fuel(bound, 17);
    assert(bound(4) == 0x1_0000_0000);
    assert(bound(16) == 0x1_0000_0000_0000_0000_0000_0000_0000_0000);
    assert forall|v: u32| (#[trigger] u32_code(v)).len() == 4 by {
        lemma_le_bytes_len(v as nat, 4);
    }
    assert forall|v: u128| (#[trigger] u128_code(v)).len() == 16 by {
        lemma_le_bytes_len(v as nat, 16);
    }
    assert forall|a: u32, b: u32| #[trigger] u32_code(a) == #[trigger] u32_code(b) implies a
        == b by {
        lemma_le_bytes_injective(a as nat, b as nat, 4);
    }
    assert forall|a: u128, b: u128| #[trigger] u128_code(a) == #[trigger] u128_code(b) implies a
        == b by {
        lemma_le_bytes_injective(a as nat, b as nat, 16);
    }
}

/// The length, and the first byte, of an encoded length.
proof fn lemma_length_code_shape(len: u32)
    ensures
        length_code(len).len() == (if len < 0x40 {
            1nat
        } else if len < 0x4000 {
            2
        } else if len < 0x4000_0000 {
            4
        } else {
            5
        }),
        length_code(len)[0] % 4 == (if len < 0x40 {
            0int
        } else if len < 0x4000 {
            1
        } else if len < 0x4000_0000 {
            2
        } else {
            3
        }),
{
    lemma_le_bytes_len((4 * len) as nat, 1);
    lemma_le_bytes_len((4 * len + 1) as nat, 2);
    lemma_le_bytes_len((4 * len + 2) as nat, 4);
    lemma_le_bytes_len(len as nat, 4);
    if len < 0x40 {
        assert(length_code(len)[0] == ((4 * len) as nat % 256) as u8);
    } else if len < 0x4000 {
        assert(length_code(len)[0] == ((4 * len + 1) as nat % 256) as u8);
    } else if len < 0x4000_0000 {
        assert(length_code(len)[0] == ((4 * len + 2) as nat % 256) as u8);
    }
}

/// What follows an encoded length can be told from it.
pub proof fn lemma_length_code(a: u32, rest_a: Seq<u8>, b: u32, rest_b: Seq<u8>)
    requires
        length_code(a) + rest_a == length_code(b) + rest_b,
    ensures
        a == b,
        rest_a == rest_b,
{
    let x = length_code(a) + rest_a;
    let y = length_code(b) + rest_b;
    lemma_length_code_shape(a);
    lemma_length_code_shape(b);
    assert(x[0] == length_code(a)[0]);
    assert(y[0] == length_code(b)[0]);
    let n = length_code(a).len() as int;
    assert(n == length_code(b).len());
    assert(length_code(a) =~= x.subrange(0, n));
    assert(length_code(b) =~= y.subrange(0, n));
    assert(rest_a =~= x.subrange(n, x.len() as int));
    assert(rest_b =~= y.subrange(n, y.len() as int));
    reveal_with_fuel(bound, 5);
    if n == 1 {
        lemma_le_bytes_injective((4 * a) as nat, (4 * b) as nat, 1);
    } else if n == 2 {
        lemma_le_bytes_injective((4 * a + 1) as nat, (4 * b + 1) as nat, 2);
    } else if n == 4 {
        lemma_le_bytes_injective((4 * a + 2) as nat, (4 * b + 2) as nat, 4);
    } else {
        lemma_le_bytes_len(a as nat, 4);
        lemma_le_bytes_len(b as nat, 4);
        assert(le_bytes(a as nat, 4) =~= length_code(a).subrange(1, 5));
        assert(le_bytes(b as nat, 4) =~= length_code(b).subrange(1, 5));
        lemma_le_bytes_injective(a as nat, b as nat, 4);
    }
}

/// The bytes of a number are its digits to the base of 256, the lowest first.
pub proof fn law_bytes_are_base_256_digits(value: nat, count: nat, i: int)
    requires
        0 <= i < count,
    ensures
        le_bytes(value, count).len() == count,
        le_bytes(value, count)[i] == (value as int / vstd::arithmetic::power::pow(256, i as nat))
            % 256,
    decreases count,
{
    reveal(vstd::arithmetic::power::pow);
    let rest = (count - 1) as nat;
    lemma_le_bytes_len(value, count);
    lemma_le_bytes_len(value / 256, rest);
    if i == 0 {
        assert(vstd::arithmetic::power::pow(256, 0) == 1);
    } else {
        law_bytes_are_base_256_digits(value / 256, rest, i - 1);
        let p = vstd::arithmetic::power::pow(256, (i - 1) as nat);
        vstd::arithmetic::power::lemma_pow_positive(256, (i - 1) as nat);
        assert(vstd::arithmetic::power::pow(256, i as nat) == 256 * p);
        vstd::arithmetic::div_mod::lemma_div_denominator(value as int, 256, p);
        assert(le_bytes(value, count)[i] == le_bytes(value / 256, rest)[i - 1]);
    }
}

/// The first byte of an encoded length has in its two lowest bits how the length is written: in the
/// upper bits of one, two or four bytes, or in four bytes of its own. The shortest of these that the
/// length fits in is taken.
pub proof fn law_length_is_written_shortest(len: u32)
    ensures
        ({
            let code = length_code(len);
            if len < 64 {
                &&& code.len() == 1
                &&& code[0] == 4 * len
            } else if len < 16384 {
                &&& code.len() == 2
                &&& code[0] + 256 * code[1] == 4 * len + 1
            } else if len < 1073741824 {
                &&& code.len() == 4
                &&& code[0] + 256 * code[1] + 65536 * code[2] + 16777216 * code[3] == 4 * len + 2
            } else {
                &&& code.len() == 5
                &&& code[0] == 3
                &&& code[1] + 256 * code[2] + 65536 * code[3] + 16777216 * code[4] == len
            }
        }),
{
    lemma_length_code_shape(len);
    if len < 64 {
        lemma_low_bytes((4 * len) as nat);
    } else if len < 16384 {
        lemma_low_bytes((4 * len + 1) as nat);
    } else if len < 1073741824 {
        lemma_low_bytes((4 * len + 2) as nat);
    } else {
        lemma_low_bytes(len as nat);
        let code = length_code(len);
        let number = le_bytes(len as nat, 4);
        assert(code[1] == number[0]);
        assert(code[2] == number[1]);
        assert(code[3] == number[2]);
        assert(code[4] == number[3]);
    }
}

/// The bytes of a small number make it up again.
proof fn lemma_low_bytes(value: nat)
    ensures
        value < 256 ==> le_bytes(value, 1)[0] == value,
        value < 65536 ==> le_bytes(value, 2)[0] + 256 * le_bytes(value, 2)[1] == value,
        value < 4294967296 ==> le_bytes(value, 4)[0] + 256 * le_bytes(value, 4)[1] + 65536
            * le_bytes(value, 4)[2] + 16777216 * le_bytes(value, 4)[3] == value,
{
    let v1 = value / 256;
    let v2 = v1 / 256;
    let v3 = v2 / 256;
    lemma_le_bytes_len(value, 1);
    lemma_le_bytes_len(value, 2);
    lemma_le_bytes_len(value, 4);
    lemma_le_bytes_step(value, 0);
    lemma_le_bytes_step(value, 1);
    lemma_le_bytes_step(v1, 0);
    lemma_le_bytes_step(value, 3);
    lemma_le_bytes_step(v1, 2);
    lemma_le_bytes_step(v2, 1);
    lemma_le_bytes_step(v3, 0);
}

/// The lowest byte stands first, and the others follow.
proof fn lemma_le_bytes_step(value: nat, more: nat)
    ensures
        le_bytes(value, more + 1)[0] == value % 256,
        forall|i: int|
            0 <= i < more ==> le_bytes(value, more + 1)[i + 1] == #[trigger] le_bytes(
                value / 256,
                more,
            )[i],
{
    lemma_le_bytes_len(value / 256, more);
}

/// One reason stands alone. Where a reason has a reason of its own, a colon ends the line and the
/// other one follows, one tab further in.
pub proof fn law_reasons_are_indented(a: Seq<char>, b: Seq<char>, c: Seq<char>)
    ensures
        reasons_text(seq![a], 0) == a,
        reasons_text(seq![a, b], 0) == a + ":\n\t"@ + b + "\n"@,
        reasons_text(seq![a, b, c], 0) == a + ":\n\t"@ + b + ":\n\t\t"@ + c + "\n"@,
{
    reveal_strlit(":\n");
    reveal_strlit("\n");
    reveal_strlit(":\n\t");
    reveal_strlit(":\n\t\t");
    reveal_with_fuel(reasons_text, 4);
    assert(seq![a, b].drop_first() =~= seq![b]);
    assert(seq![a, b, c].drop_first() =~= seq![b, c]);
    assert(seq![b, c].drop_first() =~= seq![c]);
    assert(tabs(0) + a =~= a);
    assert(reasons_text(seq![b], 1) == tabs(1) + b + "\n"@);
    assert(reasons_text(seq![a, b], 0) =~= a + ":\n\t"@ + b + "\n"@);
    assert(reasons_text(seq![c], 2) == tabs(2) + c + "\n"@);
    assert(reasons_text(seq![b, c], 1) == tabs(1) + b + ":\n"@ + reasons_text(seq![c], 2));
    assert(reasons_text(seq![a, b, c], 0) =~= a + ":\n\t"@ + b + ":\n\t\t"@ + c + "\n"@);
}

} // verus!
