//! Byte ranges as they stand in request and response headers.
use vstd::prelude::*;

use crate::s3::error::S3Error;
use crate::text;
use crate::text::{chars_of, matches_at, numeral_at, push_decimal};

verus! {

/// The text of a byte range with both ends, the second one included.
pub open spec fn byte_range(start: nat, end: nat) -> Seq<char> {
    text::decimal(start) + "-"@ + text::decimal(end)
}

/// The text of a byte range whose start or end may be left open.
pub open spec fn open_byte_range(range: (Option<u64>, Option<u64>)) -> Option<Seq<char>> {
    match range {
        (Some(start), Some(end)) => Some(byte_range(start as nat, end as nat)),
        (Some(start), None) => Some(text::decimal(start as nat) + "-"@),
        (None, Some(end)) => Some("-"@ + text::decimal(end as nat)),
        (None, None) => None,
    }
}

/// Writes a byte range; one with neither end is an error.
pub fn range_to_string(range: (Option<u64>, Option<u64>)) -> (res: Result<String, S3Error>)
    ensures
        match open_byte_range(range) {
            Some(text) => res is Ok && res->Ok_0@ == text,
            None => res == Err::<String, S3Error>(S3Error::InvalidRange),
        },
{
    let mut text = String::new();
    match range {
        (Some(start), Some(end)) => {
            push_decimal(&mut text, start);
            text.append("-");
            push_decimal(&mut text, end);
            proof {
                assert(text@ =~= byte_range(start as nat, end as nat));
            }
        },
        (Some(start), None) => {
            push_decimal(&mut text, start);
            text.append("-");
            proof {
                assert(text@ =~= text::decimal(start as nat) + "-"@);
            }
        },
        (None, Some(end)) => {
            text.append("-");
            push_decimal(&mut text, end);
            proof {
                assert(text@ =~= "-"@ + text::decimal(end as nat));
            }
        },
        (None, None) => {
            return Err(S3Error::InvalidRange);
        },
    }
    Ok(text)
}

/// `text` names the positions from `first` to `last`: the digits of the one, a hyphen, and the
/// digits of the other.
pub open spec fn names_positions(text: Seq<char>, hyphen: int, first: nat, last: nat) -> bool {
    &&& 1 <= hyphen < text.len() - 1
    &&& text[hyphen] == '-'
    &&& text::all_digits(text.subrange(0, hyphen))
    &&& text::all_digits(text.subrange(hyphen + 1, text.len() as int))
    &&& text::digits_value(text.subrange(0, hyphen)) == first
    &&& text::digits_value(text.subrange(hyphen + 1, text.len() as int)) == last
}

/// `header` asks for the positions from `first` to `last`.
pub open spec fn asks_for(header: Seq<char>, first: nat, last: nat) -> bool {
    &&& header.len() > 6
    &&& header.take(6) == "bytes="@
    &&& exists|hyphen: int| #[trigger] names_positions(header.skip(6), hyphen, first, last)
}

/// The value of a `Range` header that asks for the bytes from `start` to `end`, both included.
pub fn range_header(start: u64, end: u64) -> (header: String)
    ensures
        header@ == "bytes="@ + byte_range(start as nat, end as nat),
        asks_for(header@, start as nat, end as nat),
{
    let mut header = String::from_str("bytes=");
    push_decimal(&mut header, start);
    header.append("-");
    push_decimal(&mut header, end);
    proof {
        assert(header@ =~= "bytes="@ + byte_range(start as nat, end as nat));
        law_header_asks_for_its_range(start as nat, end as nat);
    }
    header
}

/// `s` is `bytes <start>-<end>/<total>`, `dash` and `slash` being the positions of the two
/// separators.
pub open spec fn content_range_at(
    s: Seq<char>,
    dash: int,
    slash: int,
    range: (u64, u64, u64),
) -> bool {
    &&& 6 <= dash < slash < s.len()
    &&& s.subrange(0, 6) == "bytes "@
    &&& s[dash] == '-'
    &&& s[slash] == '/'
    &&& text::is_numeral(s.subrange(6, dash), range.0)
    &&& text::is_numeral(s.subrange(dash + 1, slash), range.1)
    &&& text::is_numeral(s.subrange(slash + 1, s.len() as int), range.2)
}

/// `s` is the content range `(start, end, total)`.
pub open spec fn is_content_range(s: Seq<char>, range: (u64, u64, u64)) -> bool {
    exists|dash: int, slash: int| content_range_at(s, dash, slash, range)
}

/// The content range that `s` is, if it is one.
pub open spec fn parsed_range(s: Seq<char>) -> Option<(u64, u64, u64)> {
    if exists|range: (u64, u64, u64)| is_content_range(s, range) {
        Some(choose|range: (u64, u64, u64)| is_content_range(s, range))
    } else {
        None
    }
}

/// Reads a content range as `(start, end, total)`.
pub fn parse_range(range_str: &str) -> (res: Result<(u64, u64, u64), S3Error>)
    ensures
        match parsed_range(range_str@) {
            Some(range) => res == Ok::<(u64, u64, u64), S3Error>(range) && is_content_range(
                range_str@,
                range,
            ),
            None => res == Err::<(u64, u64, u64), S3Error>(S3Error::ParseRange),
        },
{
    let s: Vec<char> = chars_of(range_str);
    let word: Vec<char> = chars_of("bytes ");
    proof {
        reveal_strlit("bytes ");
    }
    if s.len() < word.len() || !matches_at(&s, 0, &word) {
        proof {
            assert forall|range: (u64, u64, u64)| !is_content_range(range_str@, range) by {}
        }
        return Err(S3Error::ParseRange);
    }
    let ghost t = s@;
    match numeral_at(&s, word.len()) {
        Some((start, dash)) => {
            if dash < s.len() && s[dash] == '-' {
                match numeral_at(&s, dash + 1) {
                    Some((end, slash)) => {
                        if slash < s.len() && s[slash] == '/' {
                            match numeral_at(&s, slash + 1) {
                                Some((total, stop)) => {
                                    if stop == s.len() {
                                        proof {
                                            assert(content_range_at(
                                                t,
                                                dash as int,
                                                slash as int,
                                                (start, end, total),
                                            ));
                                            assert(is_content_range(t, (start, end, total)));
                                            lemma_content_range_unique(
                                                t,
                                                (start, end, total),
                                                parsed_range(t)->0,
                                            );
                                        }
                                        return Ok((start, end, total));
                                    }
                                },
                                None => {},
                            }
                        }
                    },
                    None => {},
                }
            }
        },
        None => {},
    }
    proof {
        assert forall|range: (u64, u64, u64)| !is_content_range(t, range) by {
            if is_content_range(t, range) {
                let (d, l) = choose|d: int, l: int| content_range_at(t, d, l, range);
                lemma_content_range_read(t, d, l, range);
            }
        }
    }
    Err(S3Error::ParseRange)
}

/// Where the three numerals of a content range end.
proof fn lemma_content_range_read(s: Seq<char>, dash: int, slash: int, range: (u64, u64, u64))
    requires
        content_range_at(s, dash, slash, range),
    ensures
        text::run_ends(s, dash),
        text::run_ends(s, slash),
        text::run_ends(s, s.len() as int),
        forall|e: int, n: u64|
            6 <= e <= s.len() && text::run_ends(s, e) && #[trigger] text::is_numeral(
                s.subrange(6, e),
                n,
            ) ==> e == dash && n == range.0,
        forall|e: int, n: u64|
            dash + 1 <= e <= s.len() && text::run_ends(s, e)
                && #[trigger] text::is_numeral(s.subrange(dash + 1, e), n) ==> e == slash
                && n == range.1,
        forall|e: int, n: u64|
            slash + 1 <= e <= s.len() && text::run_ends(s, e)
                && #[trigger] text::is_numeral(s.subrange(slash + 1, e), n) ==> e == s.len()
                && n == range.2,
{
    assert forall|e: int, n: u64|
        6 <= e <= s.len() && text::run_ends(s, e) && #[trigger] text::is_numeral(
            s.subrange(6, e),
            n,
        ) implies e == dash && n == range.0 by {
        text::lemma_numeral_unique(s, 6, dash, range.0, e, n);
    }
    assert forall|e: int, n: u64|
        dash + 1 <= e <= s.len() && text::run_ends(s, e)
            && #[trigger] text::is_numeral(s.subrange(dash + 1, e), n) implies e == slash && n
        == range.1 by {
        text::lemma_numeral_unique(s, dash + 1, slash, range.1, e, n);
    }
    assert forall|e: int, n: u64|
        slash + 1 <= e <= s.len() && text::run_ends(s, e)
            && #[trigger] text::is_numeral(s.subrange(slash + 1, e), n) implies e == s.len()
        && n == range.2 by {
        text::lemma_numeral_unique(s, slash + 1, s.len() as int, range.2, e, n);
    }
}

/// A text is the content range of at most one triple.
pub proof fn lemma_content_range_unique(s: Seq<char>, a: (u64, u64, u64), b: (u64, u64, u64))
    requires
        is_content_range(s, a),
        is_content_range(s, b),
    ensures
        a == b,
{
    let (d, l) = choose|d: int, l: int| content_range_at(s, d, l, a);
    let (d2, l2) = choose|d2: int, l2: int| content_range_at(s, d2, l2, b);
    lemma_content_range_read(s, d, l, a);
    lemma_content_range_read(s, d2, l2, b);
}

/// A content range that was written down in plain decimal is read back as it was.
pub proof fn law_content_range_reads_back(start: u64, end: u64, total: u64)
    ensures
        is_content_range(
            "bytes "@ + byte_range(start as nat, end as nat) + "/"@ + text::decimal(
                total as nat,
            ),
            (start, end, total),
        ),
        parsed_range(
            "bytes "@ + byte_range(start as nat, end as nat) + "/"@ + text::decimal(total as nat),
        ) == Some((start, end, total)),
{
    reveal_strlit("bytes ");
    reveal_strlit("-");
    reveal_strlit("/");
    text::lemma_decimal_is_numeral(start);
    text::lemma_decimal_is_numeral(end);
    text::lemma_decimal_is_numeral(total);
    let a = text::decimal(start as nat);
    let b = text::decimal(end as nat);
    let c = text::decimal(total as nat);
    let s = "bytes "@ + byte_range(start as nat, end as nat) + "/"@ + c;
    let dash = 6 + a.len() as int;
    let slash = dash + 1 + b.len() as int;
    assert(s.subrange(0, 6) =~= "bytes "@);
    assert(s.subrange(6, dash) =~= a);
    assert(s.subrange(dash + 1, slash) =~= b);
    assert(s.subrange(slash + 1, s.len() as int) =~= c);
    assert(content_range_at(s, dash, slash, (start, end, total)));
    assert(is_content_range(s, (start, end, total)));
    lemma_content_range_unique(s, (start, end, total), parsed_range(s)->0);
}

/// The text of a byte range names its first and its last position, and is of digits but for the
/// hyphen between the two.
pub proof fn law_byte_range_names_its_ends(start: nat, end: nat) -> (hyphen: int)
    ensures
        names_positions(byte_range(start, end), hyphen, start, end),
        forall|p: int|
            0 <= p < byte_range(start, end).len() && p != hyphen ==> text::is_digit(
                #[trigger] byte_range(start, end)[p],
            ),
{
    reveal_strlit("-");
    text::lemma_decimal_digits(start);
    text::lemma_decimal_digits(end);
    text::lemma_decimal_value(start);
    text::lemma_decimal_value(end);
    let a = text::decimal(start);
    let b = text::decimal(end);
    let text = byte_range(start, end);
    let hyphen = a.len() as int;
    assert(text.subrange(0, hyphen) =~= a);
    assert(text.subrange(hyphen + 1, text.len() as int) =~= b);
    assert forall|p: int| 0 <= p < text.len() && p != hyphen implies text::is_digit(
        #[trigger] text[p],
    ) by {
        if p < hyphen {
            assert(text::is_digit(a[p]));
        } else {
            assert(text::is_digit(b[p - hyphen - 1]));
        }
    }
    hyphen
}

/// A byte range with one end left open is that of the other end with the hyphen on the open side;
/// one with neither end has no text.
pub proof fn law_open_ranges_leave_out_one_end(start: u64, end: u64)
    ensures
        open_byte_range((Some(start), None)) matches Some(text) && {
            &&& text.len() > 1
            &&& text.last() == '-'
            &&& text::all_digits(text.drop_last())
            &&& text::digits_value(text.drop_last()) == start
            &&& text + text::decimal(end as nat) == byte_range(start as nat, end as nat)
        },
        open_byte_range((None, Some(end))) matches Some(text) && {
            &&& text.len() > 1
            &&& text[0] == '-'
            &&& text::all_digits(text.drop_first())
            &&& text::digits_value(text.drop_first()) == end
            &&& text::decimal(start as nat) + text == byte_range(start as nat, end as nat)
        },
        open_byte_range((Some(start), Some(end))) == Some(byte_range(start as nat, end as nat)),
        open_byte_range((None, None)) is None,
{
    reveal_strlit("-");
    text::lemma_decimal_digits(start as nat);
    text::lemma_decimal_digits(end as nat);
    text::lemma_decimal_value(start as nat);
    text::lemma_decimal_value(end as nat);
    let a = text::decimal(start as nat);
    let b = text::decimal(end as nat);
    assert((a + "-"@).drop_last() =~= a);
    assert(("-"@ + b).drop_first() =~= b);
    assert((a + "-"@) + b =~= byte_range(start as nat, end as nat));
    assert(a + ("-"@ + b) =~= byte_range(start as nat, end as nat));
}

/// A header with the text of a byte range asks for the positions from the start of the range to its
/// end.
pub proof fn law_header_asks_for_its_range(start: nat, end: nat)
    ensures
        asks_for("bytes="@ + byte_range(start, end), start, end),
{
    reveal_strlit("bytes=");
    let header = "bytes="@ + byte_range(start, end);
    let hyphen = law_byte_range_names_its_ends(start, end);
    assert(header.take(6) =~= "bytes="@);
    assert(header.skip(6) =~= byte_range(start, end));
    assert(names_positions(header.skip(6), hyphen, start, end));
}

/// Only a text of the form `bytes <start>-<end>/<total>`, with a numeral for each of the three, is a
/// content range.
pub proof fn law_content_range_form(s: Seq<char>, range: (u64, u64, u64)) -> (numerals: (
    Seq<char>,
    Seq<char>,
    Seq<char>,
))
    requires
        parsed_range(s) == Some(range),
    ensures
        s == "bytes "@ + numerals.0 + "-"@ + numerals.1 + "/"@ + numerals.2,
        text::is_numeral(numerals.0, range.0),
        text::is_numeral(numerals.1, range.1),
        text::is_numeral(numerals.2, range.2),
{
    reveal_strlit("bytes ");
    reveal_strlit("-");
    reveal_strlit("/");
    let (dash, slash) = choose|dash: int, slash: int| content_range_at(s, dash, slash, range);
    let a = s.subrange(6, dash);
    let b = s.subrange(dash + 1, slash);
    let c = s.subrange(slash + 1, s.len() as int);
    let whole = "bytes "@ + a + "-"@ + b + "/"@ + c;
    assert forall|i: int| 0 <= i < s.len() implies #[trigger] s[i] == whole[i] by {
        if i < 6 {
            assert(s[i] == s.subrange(0, 6)[i]);
        }
    }
    assert(s =~= whole);
    (a, b, c)
}

} // verus!
