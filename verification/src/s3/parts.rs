//! How an object lies in its parts.
use vstd::prelude::*;

use crate::text;
use crate::text::push_decimal;

verus! {

/// A run of bytes and the position of its first byte.
#[derive(Clone, PartialEq, Eq, Debug)]
pub struct Part {
    pub offset: u64,
    pub data: Vec<u8>,
}

/// The bucket key of the part `num` of the object `key`.
pub open spec fn part_key_text(key: Seq<char>, num: nat) -> Seq<char> {
    key + "/"@ + text::decimal(num)
}

/// The bucket key of the part `num` of the object `key`.
pub fn part_key(key: &str, num: u64) -> (r: String)
    ensures
        r@ == part_key_text(key@, num as nat),
{
    let mut r = String::from_str(key);
    r.append("/");
    push_decimal(&mut r, num);
    proof {
        assert(r@ =~= part_key_text(key@, num as nat));
    }
    r
}

/// The byte at `pos` of an object whose parts of `part_size` bytes are `stored`.
pub open spec fn object_byte(stored: Map<nat, Seq<u8>>, part_size: nat, pos: nat) -> u8 {
    stored[pos / part_size][(pos % part_size) as int]
}

/// The `len` bytes from `pos` on of an object whose parts of `part_size` bytes are `stored`.
pub open spec fn object_bytes(
    stored: Map<nat, Seq<u8>>,
    part_size: nat,
    pos: nat,
    len: nat,
) -> Seq<u8> {
    Seq::new(len, |i: int| object_byte(stored, part_size, (pos + i) as nat))
}

/// A position is in the part that the division gives, at the remainder.
pub proof fn lemma_position(pos: nat, part_size: nat)
    requires
        part_size > 0,
    ensures
        (pos / part_size) * part_size + pos % part_size == pos,
        pos % part_size < part_size,
        (pos / part_size + 1) * part_size == (pos / part_size) * part_size + part_size,
{
    vstd::arithmetic::div_mod::lemma_fundamental_div_mod(pos as int, part_size as int);
    vstd::arithmetic::mul::lemma_mul_is_commutative((pos / part_size) as int, part_size as int);
    vstd::arithmetic::mul::lemma_mul_is_distributive_add_other_way(
        part_size as int,
        (pos / part_size) as int,
        1,
    );
}

/// The position `i` of the part `k` is one position of the object.
pub proof fn lemma_position_in_part(k: nat, i: nat, part_size: nat)
    requires
        i < part_size,
    ensures
        (k * part_size + i) / part_size == k,
        (k * part_size + i) % part_size == i,
{
    vstd::arithmetic::div_mod::lemma_fundamental_div_mod_converse(
        (k * part_size + i) as int,
        part_size as int,
        k as int,
        i as int,
    );
}

/// Parts of a higher number lie behind.
pub proof fn lemma_part_order(j: nat, k: nat, part_size: nat)
    requires
        j < k,
    ensures
        (j + 1) * part_size <= k * part_size,
        j * part_size <= k * part_size,
        (j + 1) * part_size == j * part_size + part_size,
{
    vstd::arithmetic::mul::lemma_mul_inequality((j + 1) as int, k as int, part_size as int);
    vstd::arithmetic::mul::lemma_mul_is_distributive_add_other_way(
        part_size as int,
        j as int,
        1,
    );
}

/// The position of the last `/` of a bucket key tells object key and part number apart.
pub proof fn law_part_keys_distinct(key1: Seq<char>, num1: nat, key2: Seq<char>, num2: nat)
    requires
        part_key_text(key1, num1) == part_key_text(key2, num2),
    ensures
        key1 == key2,
        num1 == num2,
{
    reveal_strlit("/");
    text::lemma_decimal_digits(num1);
    text::lemma_decimal_digits(num2);
    let s = part_key_text(key1, num1);
    let d1 = text::decimal(num1);
    let d2 = text::decimal(num2);
    assert(s.len() == key1.len() + 1 + d1.len());
    assert(part_key_text(key2, num2).len() == key2.len() + 1 + d2.len());
    assert(s[key1.len() as int] == '/');
    assert(part_key_text(key2, num2)[key2.len() as int] == '/');
    if key1.len() < key2.len() {
        assert(s[key2.len() as int] == d1[key2.len() - key1.len() - 1]);
        assert(text::is_digit(d1[key2.len() - key1.len() - 1]));
    }
    if key2.len() < key1.len() {
        assert(part_key_text(key2, num2)[key1.len() as int] == d2[key1.len() - key2.len() - 1]);
        assert(text::is_digit(d2[key1.len() - key2.len() - 1]));
    }
    assert(key1 =~= s.subrange(0, key1.len() as int));
    assert(key2 =~= part_key_text(key2, num2).subrange(0, key1.len() as int));
    assert(d1 =~= s.subrange((key1.len() + 1) as int, s.len() as int));
    assert(d2 =~= part_key_text(key2, num2).subrange((key1.len() + 1) as int, s.len() as int));
    text::lemma_decimal_injective(num1, num2);
}

/// The bucket key of a part is the key of the object, a slash and the digits of the number of the
/// part.
pub proof fn law_part_key_names_the_part(key: Seq<char>, num: nat)
    ensures
        ({
            let text = part_key_text(key, num);
            let number = text.subrange((key.len() + 1) as int, text.len() as int);
            &&& text.len() > key.len() + 1
            &&& text.subrange(0, key.len() as int) == key
            &&& text[key.len() as int] == '/'
            &&& text::all_digits(number)
            &&& text::digits_value(number) == num
        }),
{
    reveal_strlit("/");
    text::lemma_decimal_digits(num);
    text::lemma_decimal_value(num);
    let text = part_key_text(key, num);
    assert(text.subrange(0, key.len() as int) =~= key);
    assert(text.subrange((key.len() + 1) as int, text.len() as int) =~= text::decimal(num));
}

/// The bytes of an object lie in its parts one behind the other: those of the part `k` are the bytes
/// of the object from `k` part sizes on.
pub proof fn law_parts_lie_in_a_row(stored: Map<nat, Seq<u8>>, part_size: nat, k: nat)
    requires
        part_size > 0,
        stored[k].len() == part_size,
    ensures
        object_bytes(stored, part_size, k * part_size, part_size) == stored[k],
{
    let row = object_bytes(stored, part_size, k * part_size, part_size);
    assert forall|i: int| 0 <= i < part_size implies #[trigger] row[i] == stored[k][i] by {
        lemma_position_in_part(k, i as nat, part_size);
    }
    assert(row =~= stored[k]);
}

} // verus!
