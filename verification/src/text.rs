//! Decimal numerals and small searches in text.
use vstd::prelude::*;

verus! {

/// The character of a decimal digit.
pub open spec fn digit_char(d: nat) -> char {
    (48 + d) as char
}

/// `n` written in decimal, without leading zeros.
pub open spec fn decimal(n: nat) -> Seq<char>
    decreases n,
{
    if n < 10 {
        seq![digit_char(n)]
    } else {
        decimal(n / 10).push(digit_char(n % 10))
    }
}

pub open spec fn is_digit(c: char) -> bool {
    '0' <= c && c <= '9'
}

pub open spec fn all_digits(s: Seq<char>) -> bool {
    forall|i: int| 0 <= i < s.len() ==> is_digit(#[trigger] s[i])
}

/// The number that a run of decimal digits denotes.
pub open spec fn digits_value(s: Seq<char>) -> nat
    decreases s.len(),
{
    if s.len() == 0 {
        0
    } else {
        (digits_value(s.drop_last()) * 10 + (s.last() as int - 48)) as nat
    }
}

/// Longest run of digits that is read as one number.
pub const MAX_DIGITS: usize = 20;

/// `s` is a numeral for `n`: an optional plus sign and one to twenty digits, whose value fits in
/// 64 bits.
pub open spec fn is_numeral(s: Seq<char>, n: u64) -> bool {
    let digits = if s.len() > 0 && s[0] == '+' {
        s.drop_first()
    } else {
        s
    };
    &&& 1 <= digits.len() <= MAX_DIGITS
    &&& all_digits(digits)
    &&& digits_value(digits) == n
}

/// `needle` occurs somewhere in `hay`.
pub open spec fn occurs(hay: Seq<char>, needle: Seq<char>) -> bool {
    exists|i: int|
        0 <= i <= hay.len() - needle.len() && #[trigger] hay.subrange(i, i + needle.len())
            == needle
}

pub open spec fn starts_with(s: Seq<char>, prefix: Seq<char>) -> bool {
    prefix.len() <= s.len() && s.subrange(0, prefix.len() as int) == prefix
}

proof fn lemma_decimal_shape(n: nat)
    ensures
        decimal(n).len() >= 1,
        all_digits(decimal(n)),
        digits_value(decimal(n)) == n,
    decreases n,
{
    if n < 10 {
        let s = seq![digit_char(n)];
        assert(decimal(n) == s);
        assert(s.drop_last() =~= Seq::<char>::empty());
        assert(digits_value(s.drop_last()) == 0);
    } else {
        lemma_decimal_shape(n / 10);
        let s = decimal(n);
        assert(s.drop_last() =~= decimal(n / 10));
    }
}

proof fn lemma_decimal_length(n: nat, k: nat)
    requires
        k >= 1,
        n < vstd::arithmetic::power::pow(10, k),
    ensures
        decimal(n).len() <= k,
    decreases k,
{
    reveal(vstd::arithmetic::power::pow);
    if n >= 10 {
        assert(k > 1) by {
            reveal_with_fuel(vstd::arithmetic::power::pow, 2);
        }
        assert(vstd::arithmetic::power::pow(10, k) == 10 * vstd::arithmetic::power::pow(
            10,
            (k - 1) as nat,
        ));
        lemma_decimal_length(n / 10, (k - 1) as nat);
    }
}

/// The decimal form of a 64-bit number is a numeral for it.
pub proof fn lemma_decimal_is_numeral(n: u64)
    ensures
        is_numeral(decimal(n as nat), n),
        all_digits(decimal(n as nat)),
        decimal(n as nat).len() >= 1,
{
    lemma_decimal_shape(n as nat);
    assert(vstd::arithmetic::power::pow(10, 20) == 100000000000000000000int) by {
        reveal_with_fuel(vstd::arithmetic::power::pow, 21);
    }
    lemma_decimal_length(n as nat, 20);
    assert(is_digit(decimal(n as nat)[0]));
}

/// The decimal form determines the number.
pub proof fn lemma_decimal_injective(a: nat, b: nat)
    requires
        decimal(a) == decimal(b),
    ensures
        a == b,
{
    lemma_decimal_shape(a);
    lemma_decimal_shape(b);
}

/// Decimal forms hold digits only.
pub proof fn lemma_decimal_digits(n: nat)
    ensures
        decimal(n).len() >= 1,
        all_digits(decimal(n)),
{
    lemma_decimal_shape(n);
}

/// The decimal form of a number denotes it.
pub proof fn lemma_decimal_value(n: nat)
    ensures
        digits_value(decimal(n)) == n,
{
    lemma_decimal_shape(n);
}

fn digit_str(d: u64) -> (s: &'static str)
    requires
        d < 10,
    ensures
        s@ == seq![digit_char(d as nat)],
{
    proof {
        reveal_strlit("0");
        reveal_strlit("1");
        reveal_strlit("2");
        reveal_strlit("3");
        reveal_strlit("4");
        reveal_strlit("5");
        reveal_strlit("6");
        reveal_strlit("7");
        reveal_strlit("8");
        reveal_strlit("9");
    }
    match d {
        0 => "0",
        1 => "1",
        2 => "2",
        3 => "3",
        4 => "4",
        5 => "5",
        6 => "6",
        7 => "7",
        8 => "8",
        _ => "9",
    }
}

/// Appends the decimal form of `n`.
pub fn push_decimal(s: &mut String, n: u64)
    ensures
        final(s)@ == old(s)@ + decimal(n as nat),
    decreases n,
{
    if n >= 10 {
        push_decimal(s, n / 10);
    }
    s.append(digit_str(n % 10));
    proof {
        assert(s@ =~= old(s)@ + decimal(n as nat));
    }
}

/// The characters of `s`, one by one.
pub fn chars_of(s: &str) -> (r: Vec<char>)
    ensures
        r@ == s@,
{
    let mut r: Vec<char> = Vec::new();
    let n: usize = s.unicode_len();
    let mut it = s.chars();
    let mut i: usize = 0;
    while i < n
        invariant
            n == s@.len(),
            0 <= i <= n,
            r@ == s@.subrange(0, i as int),
            vstd::std_specs::iter::IteratorSpec::remaining(&it) == s@.subrange(i as int, n as int),
        decreases n - i,
    {
        match it.next() {
            Some(c) => {
                r.push(c);
            },
            None => {},
        }
        i += 1;
        proof {
            assert(s@.subrange(i as int, n as int) =~= s@.subrange(
                i - 1,
                n as int,
            ).drop_first());
            assert(r@ =~= s@.subrange(0, i as int));
        }
    }
    proof {
        assert(r@ =~= s@);
    }
    r
}

/// Whether `needle` occurs in `hay`.
pub fn contains(hay: &str, needle: &str) -> (r: bool)
    ensures
        r == occurs(hay@, needle@),
{
    let h: Vec<char> = chars_of(hay);
    let n: Vec<char> = chars_of(needle);
    if n.len() > h.len() {
        return false;
    }
    let last: usize = h.len() - n.len();
    let mut i: usize = 0;
    loop
        invariant
            h@ == hay@,
            n@ == needle@,
            last == h.len() - n.len(),
            0 <= i <= last,
            forall|k: int|
                0 <= k < i ==> #[trigger] hay@.subrange(k, k + needle@.len()) != needle@,
        decreases last - i,
    {
        if matches_at(&h, i, &n) {
            return true;
        }
        if i == last {
            return false;
        }
        i += 1;
    }
}

/// Whether the characters of `s` from `from` on begin with `word`.
pub fn matches_at(s: &Vec<char>, from: usize, word: &Vec<char>) -> (r: bool)
    requires
        from + word.len() <= s.len(),
    ensures
        r == (s@.subrange(from as int, from + word.len()) == word@),
{
    let mut i: usize = 0;
    while i < word.len()
        invariant
            from + word.len() <= s.len(),
            0 <= i <= word.len(),
            forall|k: int| 0 <= k < i ==> s@[from + k] == #[trigger] word@[k],
        decreases word.len() - i,
    {
        if s[from + i] != word[i] {
            proof {
                assert(s@.subrange(from as int, from + word.len())[i as int] != word@[i as int]);
            }
            return false;
        }
        i += 1;
    }
    proof {
        assert(s@.subrange(from as int, from + word.len()) =~= word@);
    }
    true
}

/// No digit stands at `end`.
pub open spec fn run_ends(s: Seq<char>, end: int) -> bool {
    end == s.len() || !is_digit(s[end])
}

proof fn lemma_numeral_end(s: Seq<char>, from: int, first: int, end: int, e: int, n: u64)
    requires
        0 <= from <= first <= end <= s.len(),
        first == (if from < s.len() && s[from] == '+' {
            from + 1
        } else {
            from
        }),
        forall|k: int| first <= k < end ==> is_digit(#[trigger] s[k]),
        run_ends(s, end),
        from <= e <= s.len(),
        run_ends(s, e),
        is_numeral(s.subrange(from, e), n),
    ensures
        e == end,
        1 <= end - first <= MAX_DIGITS,
        digits_value(s.subrange(first, end)) == n,
{
    let t = s.subrange(from, e);
    assert(t.len() > 0);
    assert(t[0] == s[from]);
    let digits = if t.len() > 0 && t[0] == '+' {
        t.drop_first()
    } else {
        t
    };
    assert(digits =~= s.subrange(first, e));
    assert forall|k: int| first <= k < e implies is_digit(#[trigger] s[k]) by {
        assert(is_digit(digits[k - first]));
    }
    if e < end {
        assert(is_digit(s[e]));
    }
    if end < e {
        assert(is_digit(s[end]));
    }
}

/// A numeral that goes on as far as its digits do has one end and one value.
pub proof fn lemma_numeral_unique(s: Seq<char>, from: int, end: int, n: u64, e: int, m: u64)
    requires
        0 <= from <= end <= s.len(),
        run_ends(s, end),
        is_numeral(s.subrange(from, end), n),
        from <= e <= s.len(),
        run_ends(s, e),
        is_numeral(s.subrange(from, e), m),
    ensures
        e == end,
        n == m,
{
    let t = s.subrange(from, end);
    assert(t.len() > 0);
    assert(t[0] == s[from]);
    let first = if s[from] == '+' {
        from + 1
    } else {
        from
    };
    let digits = if t.len() > 0 && t[0] == '+' {
        t.drop_first()
    } else {
        t
    };
    assert(digits =~= s.subrange(first, end));
    assert forall|k: int| first <= k < end implies is_digit(#[trigger] s[k]) by {
        assert(is_digit(digits[k - first]));
    }
    lemma_numeral_end(s, from, first, end, e, m);
}

/// Reads the numeral that begins at `from` and goes on as far as its digits do; gives its value
/// and the position behind it.
pub fn numeral_at(s: &Vec<char>, from: usize) -> (r: Option<(u64, usize)>)
    requires
        from <= s.len(),
    ensures
        match r {
            Some((n, end)) => {
                &&& from < end <= s.len()
                &&& run_ends(s@, end as int)
                &&& is_numeral(s@.subrange(from as int, end as int), n)
            },
            None => forall|e: int, n: u64|
                from <= e <= s.len() && run_ends(s@, e) ==> !#[trigger] is_numeral(
                    s@.subrange(from as int, e),
                    n,
                ),
        },
{
    let first: usize = if from < s.len() && s[from] == '+' {
        from + 1
    } else {
        from
    };
    let mut end: usize = first;
    let mut value: u128 = 0;
    proof {
        assert(s@.subrange(first as int, first as int) =~= Seq::<char>::empty());
    }
    while end < s.len() && end - first < MAX_DIGITS && s[end] >= '0' && s[end] <= '9'
        invariant
            from <= first <= end <= s.len(),
            end - first <= MAX_DIGITS,
            forall|k: int| first <= k < end ==> is_digit(#[trigger] s[k]),
            value == digits_value(s@.subrange(first as int, end as int)),
            value < pow10((end - first) as nat),
        decreases s.len() - end,
    {
        let d: u128 = (s[end] as u32 - 48) as u128;
        proof {
            lemma_pow10_bound((end - first) as nat);
            assert(s@.subrange(first as int, end + 1).drop_last() =~= s@.subrange(
                first as int,
                end as int,
            ));
            assert(pow10((end - first + 1) as nat) == 10 * pow10((end - first) as nat));
        }
        value = value * 10 + d;
        end += 1;
    }
    if end < s.len() && s[end] >= '0' && s[end] <= '9' {
        proof {
            // More digits follow than a numeral may have.
            assert forall|e: int, n: u64| from <= e <= s.len() && run_ends(s@, e) implies
                !#[trigger] is_numeral(s@.subrange(from as int, e), n) by {
                lemma_numeral_prefix(s@, from as int, first as int, end as int, e, n);
            }
        }
        return None;
    }
    if end == first || value > u64::MAX as u128 {
        proof {
            assert forall|e: int, n: u64| from <= e <= s.len() && run_ends(s@, e) implies
                !#[trigger] is_numeral(s@.subrange(from as int, e), n) by {
                if is_numeral(s@.subrange(from as int, e), n) {
                    lemma_numeral_end(s@, from as int, first as int, end as int, e, n);
                }
            }
        }
        return None;
    }
    proof {
        let t = s@.subrange(from as int, end as int);
        assert(t[0] == s@[from as int]);
        if first == from + 1 {
            assert(t.drop_first() =~= s@.subrange(first as int, end as int));
        } else {
            assert(t[0] == s@[first as int]);
            assert(is_digit(s@[first as int]));
            assert(t =~= s@.subrange(first as int, end as int));
        }
        assert(all_digits(s@.subrange(first as int, end as int)));
    }
    Some((value as u64, end))
}

spec fn pow10(k: nat) -> nat
    decreases k,
{
    if k == 0 {
        1
    } else {
        10 * pow10((k - 1) as nat)
    }
}

proof fn lemma_pow10_bound(k: nat)
    requires
        k < 20,
    ensures
        pow10(k) <= 10000000000000000000nat,
{
    reveal_with_fuel(pow10, 20);
}

proof fn lemma_numeral_prefix(s: Seq<char>, from: int, first: int, end: int, e: int, n: u64)
    requires
        0 <= from <= first <= end < s.len(),
        first == (if from < s.len() && s[from] == '+' {
            from + 1
        } else {
            from
        }),
        forall|k: int| first <= k < end ==> is_digit(#[trigger] s[k]),
        is_digit(s[end]),
        end - first == MAX_DIGITS,
        from <= e <= s.len(),
        run_ends(s, e),
    ensures
        !is_numeral(s.subrange(from, e), n),
{
    let t = s.subrange(from, e);
    if e > from {
        assert(t[0] == s[from]);
    }
    let digits = if t.len() > 0 && t[0] == '+' {
        t.drop_first()
    } else {
        t
    };
    if e > from {
        assert(digits =~= s.subrange(first, e));
    }
    if first <= e < end {
        assert(is_digit(s[e]));
    }
}

/// The digit at a place of the decimal form is the one that the number has there: with `k` digits
/// behind it, the remainder by ten of the number divided by ten to the `k`. There is no leading
/// zero.
pub proof fn law_decimal_has_the_digits(n: nat, i: int)
    requires
        0 <= i < decimal(n).len(),
    ensures
        decimal(n)[i] as int - 48 == (n as int / vstd::arithmetic::power::pow(
            10,
            (decimal(n).len() - 1 - i) as nat,
        )) % 10,
        n < vstd::arithmetic::power::pow(10, decimal(n).len()),
        n > 0 ==> decimal(n)[0] != '0',
        n == 0 ==> decimal(n).len() == 1,
    decreases n,
{
    reveal(vstd::arithmetic::power::pow);
    let len = decimal(n).len();
    if n < 10 {
        reveal_with_fuel(vstd::arithmetic::power::pow, 2);
    } else {
        let front = decimal(n / 10);
        lemma_decimal_digits(n / 10);
        assert(front.len() == len - 1);
        assert(vstd::arithmetic::power::pow(10, len) == 10 * vstd::arithmetic::power::pow(
            10,
            (len - 1) as nat,
        ));
        law_decimal_has_the_digits(n / 10, 0);
        assert(decimal(n)[0] == front[0]);
        if i < front.len() {
            law_decimal_has_the_digits(n / 10, i);
            assert(decimal(n)[i] == front[i]);
            let k = (front.len() - 1 - i) as nat;
            let p = vstd::arithmetic::power::pow(10, k);
            vstd::arithmetic::power::lemma_pow_positive(10, k);
            assert(vstd::arithmetic::power::pow(10, (k + 1) as nat) == 10 * p);
            vstd::arithmetic::div_mod::lemma_div_denominator(n as int, 10, p);
        } else {
            assert(vstd::arithmetic::power::pow(10, 0) == 1);
        }
    }
}

/// A run of digits denotes what its two parts do, the first one times ten for every digit of the
/// second; one digit denotes itself.
pub proof fn law_digits_have_places(a: Seq<char>, b: Seq<char>, c: char)
    requires
        all_digits(a),
        all_digits(b),
        is_digit(c),
    ensures
        digits_value(a + b) == digits_value(a) * vstd::arithmetic::power::pow(10, b.len())
            + digits_value(b),
        digits_value(seq![c]) == c as int - 48,
    decreases b.len(),
{
    reveal(vstd::arithmetic::power::pow);
    let one = seq![c];
    assert(one.drop_last() =~= Seq::<char>::empty());
    assert(digits_value(one.drop_last()) == 0);
    if b.len() == 0 {
        assert(a + b =~= a);
        assert(vstd::arithmetic::power::pow(10, 0) == 1);
    } else {
        let front = b.drop_last();
        assert forall|i: int| 0 <= i < front.len() implies is_digit(#[trigger] front[i]) by {
            assert(front[i] == b[i]);
        }
        assert(is_digit(b[b.len() - 1]));
        law_digits_have_places(a, front, c);
        assert((a + b).drop_last() =~= a + front);
        assert((a + b).last() == b.last());
        let p = vstd::arithmetic::power::pow(10, front.len());
        assert(vstd::arithmetic::power::pow(10, b.len()) == 10 * p);
        let v = digits_value(a) as int;
        assert((v * p) * 10 == v * (10 * p)) by (nonlinear_arith);
        assert(0 <= v * p) by {
            vstd::arithmetic::power::lemma_pow_positive(10, front.len());
            vstd::arithmetic::mul::lemma_mul_nonnegative(v, p);
        }
    }
}

/// A run of one to twenty digits is a numeral for what it denotes, if that fits in 64 bits, and no
/// other run of digits is; a plus sign in front makes no difference.
pub proof fn law_numerals_of_digits(s: Seq<char>, n: u64)
    requires
        all_digits(s),
    ensures
        is_numeral(s, n) <==> 1 <= s.len() <= 20 && digits_value(s) == n,
        is_numeral(seq!['+'] + s, n) <==> 1 <= s.len() <= 20 && digits_value(s) == n,
{
    if s.len() > 0 {
        assert(is_digit(s[0]));
    }
    assert((seq!['+'] + s).drop_first() =~= s);
}

/// A text occurs between any two others, and only a text that can be cut in front of it and behind
/// it has it.
pub proof fn law_occurs_between(hay: Seq<char>, needle: Seq<char>)
    ensures
        occurs(hay, needle) <==> exists|before: Seq<char>, after: Seq<char>|
            hay == #[trigger] (before + needle + after),
{
    if occurs(hay, needle) {
        let i = choose|i: int|
            0 <= i <= hay.len() - needle.len() && #[trigger] hay.subrange(i, i + needle.len())
                == needle;
        let before = hay.subrange(0, i);
        let after = hay.subrange(i + needle.len(), hay.len() as int);
        assert(hay =~= before + needle + after);
    }
    if exists|before: Seq<char>, after: Seq<char>| hay == #[trigger] (before + needle + after) {
        let (before, after) = choose|before: Seq<char>, after: Seq<char>|
            hay == #[trigger] (before + needle + after);
        let i = before.len() as int;
        assert(hay.subrange(i, i + needle.len()) =~= needle);
    }
}

/// Nothing but digits, with at most one plus sign in front, is a numeral.
pub proof fn law_numerals_are_of_digits(s: Seq<char>, n: u64)
    requires
        is_numeral(s, n),
    ensures
        s.len() > 0,
        is_digit(s[0]) || s[0] == '+' && s.len() > 1,
        forall|i: int| 0 < i < s.len() ==> is_digit(#[trigger] s[i]),
{
    let digits = if s.len() > 0 && s[0] == '+' {
        s.drop_first()
    } else {
        s
    };
    assert forall|i: int| 0 < i < s.len() implies is_digit(#[trigger] s[i]) by {
        if s[0] == '+' {
            assert(digits[i - 1] == s[i]);
        }
    }
    assert(is_digit(digits[0]));
}

} // verus!
