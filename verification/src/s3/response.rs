//! The response to a request for byte ranges of a part.
use vstd::prelude::*;

use crate::s3::error::S3Error;
use crate::s3::parts::Part;
use crate::s3::range;
use crate::s3::range::parse_range;
use crate::text;
use crate::text::{chars_of, contains, matches_at};

verus! {

/// What the body of a response holds.
#[derive(Debug, Clone, PartialEq, Eq)]
pub enum ResponseBody {
    /// One run of bytes, the first of them at `start`.
    Single { start: u64 },
    /// Several runs of bytes, as entries between `boundary` lines.
    Multipart { boundary: String },
}

/// One entry of a body with several runs of bytes.
#[derive(Debug, Clone, PartialEq, Eq)]
pub struct MultipartEntry {
    /// The content range that the entry's headers give.
    pub content_range: Option<String>,
    pub data: Vec<u8>,
}

/// What follows `prefix` in `s`, if that is anything, and all on one line.
pub open spec fn value_after(s: Seq<char>, prefix: Seq<char>) -> Option<Seq<char>> {
    let rest = s.subrange(prefix.len() as int, s.len() as int);
    if text::starts_with(s, prefix) && rest.len() > 0 && !rest.contains('\n') {
        Some(rest)
    } else {
        None
    }
}

/// The boundary that a content type of several byte ranges names.
pub open spec fn boundary_in(content_type: Seq<char>) -> Option<Seq<char>> {
    match value_after(content_type, "multipart/byteranges; boundary="@) {
        Some(boundary) => Some(boundary),
        None => value_after(content_type, "multipart/byteranges;boundary="@),
    }
}

fn read_value_after(s: &str, prefix: &str) -> (r: Option<String>)
    ensures
        match value_after(s@, prefix@) {
            Some(rest) => r is Some && r->0@ == rest,
            None => r is None,
        },
{
    let cs: Vec<char> = chars_of(s);
    let ps: Vec<char> = chars_of(prefix);
    if cs.len() <= ps.len() || !matches_at(&cs, 0, &ps) {
        return None;
    }
    let ghost rest = s@.subrange(prefix@.len() as int, s@.len() as int);
    let mut i: usize = ps.len();
    while i < cs.len()
        invariant
            cs@ == s@,
            ps@ == prefix@,
            rest == s@.subrange(prefix@.len() as int, s@.len() as int),
            ps.len() <= i <= cs.len(),
            forall|k: int| ps.len() <= k < i ==> #[trigger] cs@[k] != '\n',
        decreases cs.len() - i,
    {
        if cs[i] == '\n' {
            proof {
                assert(rest[i - ps.len()] == '\n');
                assert(rest.contains('\n'));
            }
            return None;
        }
        i += 1;
    }
    proof {
        assert forall|k: int| 0 <= k < rest.len() implies rest[k] != '\n' by {
            assert(rest[k] == cs@[ps.len() + k]);
        }
    }
    let n: usize = ps.len();
    let m: usize = cs.len();
    Some(String::from_str(s.substring_char(n, m)))
}

/// The boundary that a content type of several byte ranges names.
pub fn find_boundary(content_type: &str) -> (r: Option<String>)
    ensures
        match boundary_in(content_type@) {
            Some(boundary) => r is Some && r->0@ == boundary,
            None => r is None,
        },
{
    match read_value_after(content_type, "multipart/byteranges; boundary=") {
        Some(boundary) => Some(boundary),
        None => read_value_after(content_type, "multipart/byteranges;boundary="),
    }
}

/// Whether a content type says that the body is one run of bytes.
pub open spec fn is_single_run(content_type: Seq<char>) -> bool {
    text::occurs(content_type, "octet-stream"@)
}

/// The bytes from `start` to `end`, both included, are some bytes, and not more than a buffer can
/// hold.
pub open spec fn can_be_held(start: u64, end: u64) -> bool {
    &&& start <= end
    &&& end - start < u64::MAX
    &&& ((end - start + 1) as u64) as usize <= isize::MAX
}

/// Whether the bytes from `start` to `end`, both included, are some bytes, and not more than a
/// buffer can hold.
fn check_can_be_held(start: u64, end: u64) -> (r: bool)
    ensures
        r == can_be_held(start, end),
{
    if end < start || end - start == u64::MAX {
        return false;
    }
    let len: u64 = end - start + 1;
    #[verifier::truncate]
    let capacity: usize = len as usize;
    capacity <= isize::MAX as usize
}

/// The position of the first byte that a content range tells of, or why it is not usable.
pub open spec fn range_start(content_range: Seq<char>) -> Result<u64, S3Error> {
    match range::parsed_range(content_range) {
        None => Err(S3Error::ParseRange),
        Some((start, end, _)) => if can_be_held(start, end) {
            Ok(start)
        } else {
            Err(S3Error::ParseRange)
        },
    }
}

/// The position of the first byte that a content range tells of.
fn read_range_start(content_range: &str) -> (res: Result<u64, S3Error>)
    ensures
        res == range_start(content_range@),
{
    match parse_range(content_range) {
        Err(error) => Err(error),
        Ok((start, end, _)) => {
            if check_can_be_held(start, end) {
                Ok(start)
            } else {
                Err(S3Error::ParseRange)
            }
        },
    }
}

/// `res` is what the headers of a response tell of its body.
pub open spec fn body_told(
    content_type: Option<String>,
    content_range: Option<String>,
    res: Result<ResponseBody, S3Error>,
) -> bool {
    match content_type {
        None => res == Err::<ResponseBody, S3Error>(S3Error::MissingContentType),
        Some(ty) => if is_single_run(ty@) {
            match content_range {
                None => res == Err::<ResponseBody, S3Error>(S3Error::MissingContentRange),
                Some(range) => match range_start(range@) {
                    Err(error) => res == Err::<ResponseBody, S3Error>(error),
                    Ok(start) => res == Ok::<ResponseBody, S3Error>(
                        ResponseBody::Single { start },
                    ),
                },
            }
        } else {
            match boundary_in(ty@) {
                None => res == Err::<ResponseBody, S3Error>(S3Error::MissingBoundary),
                Some(text) => res matches Ok(ResponseBody::Multipart { boundary }) && boundary@
                    == text,
            }
        },
    }
}

/// Tells from the headers of a response what its body holds.
pub fn response_body(content_type: Option<String>, content_range: Option<String>) -> (res: Result<
    ResponseBody,
    S3Error,
>)
    ensures
        match content_type {
            None => res == Err::<ResponseBody, S3Error>(S3Error::MissingContentType),
            Some(ty) => if is_single_run(ty@) {
                match content_range {
                    None => res == Err::<ResponseBody, S3Error>(S3Error::MissingContentRange),
                    Some(range) => match range_start(range@) {
                        Err(error) => res == Err::<ResponseBody, S3Error>(error),
                        Ok(start) => res == Ok::<ResponseBody, S3Error>(
                            ResponseBody::Single { start },
                        ),
                    },
                }
            } else {
                match boundary_in(ty@) {
                    None => res == Err::<ResponseBody, S3Error>(S3Error::MissingBoundary),
                    Some(text) => res matches Ok(ResponseBody::Multipart { boundary })
                        && boundary@ == text,
                }
            },
        },
        body_told(content_type, content_range, res),
{
    match content_type {
        None => Err(S3Error::MissingContentType),
        Some(ty) => {
            if contains(ty.as_str(), "octet-stream") {
                match content_range {
                    None => Err(S3Error::MissingContentRange),
                    Some(range) => match read_range_start(range.as_str()) {
                        Ok(start) => Ok(ResponseBody::Single { start }),
                        Err(error) => Err(error),
                    },
                }
            } else {
                match find_boundary(ty.as_str()) {
                    None => Err(S3Error::MissingBoundary),
                    Some(boundary) => Ok(ResponseBody::Multipart { boundary }),
                }
            }
        },
    }
}

impl MultipartEntry {
    /// The position of the entry's first byte, or why it cannot be told.
    pub open spec fn start(self) -> Result<u64, S3Error> {
        match self.content_range {
            None => Err(S3Error::MissingEntryContentRange),
            Some(range) => range_start(range@),
        }
    }
}

/// The entry `i` is the first of `entries` whose position cannot be told.
pub open spec fn first_unreadable(entries: Seq<MultipartEntry>, i: int) -> bool {
    &&& 0 <= i < entries.len()
    &&& entries[i].start() is Err
    &&& forall|k: int| 0 <= k < i ==> (#[trigger] entries[k]).start() is Ok
}

/// `res` is what the entries of a body come to.
pub open spec fn entries_placed(
    entries: Seq<MultipartEntry>,
    failure: Option<String>,
    res: Result<Vec<Part>, S3Error>,
) -> bool {
    match res {
        Ok(parts) => {
            &&& failure is None
            &&& parts.len() == entries.len()
            &&& forall|i: int|
                0 <= i < entries.len() ==> {
                    &&& (#[trigger] parts[i]).data@ == entries[i].data@
                    &&& entries[i].start() == Ok::<u64, S3Error>(parts[i].offset)
                }
        },
        Err(error) => {
            ||| exists|i: int|
                #[trigger] first_unreadable(entries, i) && entries[i].start() == Err::<
                    u64,
                    S3Error,
                >(error)
            ||| {
                &&& forall|i: int| !#[trigger] first_unreadable(entries, i)
                &&& failure is Some
                &&& error == (S3Error::Multipart { error: failure->0 })
            }
        },
    }
}

/// Turns the entries of a body into runs of bytes. `failure` is why the reading of the body
/// stopped short of its end; an entry before that point comes first.
pub fn entries_to_parts(entries: Vec<MultipartEntry>, failure: Option<String>) -> (res: Result<
    Vec<Part>,
    S3Error,
>)
    ensures
        match res {
            Ok(parts) => {
                &&& failure is None
                &&& parts.len() == entries.len()
                &&& forall|i: int|
                    0 <= i < entries.len() ==> {
                        &&& (#[trigger] parts[i]).data@ == entries[i].data@
                        &&& entries[i].start() == Ok::<u64, S3Error>(parts[i].offset)
                    }
            },
            Err(error) => {
                ||| exists|i: int|
                    first_unreadable(entries@, i) && entries[i].start() == Err::<u64, S3Error>(
                        error,
                    )
                ||| {
                    &&& forall|i: int| !#[trigger] first_unreadable(entries@, i)
                    &&& failure is Some
                    &&& error == (S3Error::Multipart { error: failure->0 })
                }
            },
        },
        entries_placed(entries@, failure, res),
{
    let mut parts: Vec<Part> = Vec::new();
    let ghost all = entries@;
    for entry in it: entries
        invariant
            it.seq() == all,
            parts.len() == it.index(),
            forall|i: int|
                0 <= i < parts.len() ==> {
                    &&& (#[trigger] parts[i]).data@ == all[i].data@
                    &&& all[i].start() == Ok::<u64, S3Error>(parts[i].offset)
                },
    {
        let ghost i = parts.len() as int;
        proof {
            assert(entry == all[i]);
            assert forall|k: int| 0 <= k < i implies (#[trigger] all[k]).start() is Ok by {
                assert(all[k].start() == Ok::<u64, S3Error>(parts[k].offset));
            }
        }
        match entry.content_range {
            None => {
                proof {
                    assert(first_unreadable(all, i));
                }
                return Err(S3Error::MissingEntryContentRange);
            },
            Some(range) => match read_range_start(range.as_str()) {
                Err(error) => {
                    proof {
                        assert(first_unreadable(all, i));
                    }
                    return Err(error);
                },
                Ok(start) => {
                    parts.push(Part { offset: start, data: entry.data });
                },
            },
        }
    }
    proof {
        assert forall|i: int| !#[trigger] first_unreadable(all, i) by {
            if 0 <= i < all.len() {
                assert(all[i].start() == Ok::<u64, S3Error>(parts[i].offset));
            }
        }
    }
    match failure {
        None => Ok(parts),
        Some(error) => Err(S3Error::Multipart { error }),
    }
}

/// A content type that has `octet-stream` in it, with whatever in front and behind, tells of one run
/// of bytes, and no other does.
pub proof fn law_octet_streams_are_single_runs(content_type: Seq<char>)
    ensures
        is_single_run(content_type) <==> exists|before: Seq<char>, after: Seq<char>|
            content_type == #[trigger] (before + "octet-stream"@ + after),
{
    text::law_occurs_between(content_type, "octet-stream"@);
}

/// Any boundary on one line is found behind either form of the content type of several runs of
/// bytes.
pub proof fn law_boundary_is_found(boundary: Seq<char>)
    requires
        boundary.len() > 0,
        !boundary.contains('\n'),
    ensures
        boundary_in("multipart/byteranges; boundary="@ + boundary) == Some(boundary),
        boundary_in("multipart/byteranges;boundary="@ + boundary) == Some(boundary),
{
    reveal_strlit("multipart/byteranges; boundary=");
    reveal_strlit("multipart/byteranges;boundary=");
    let spaced = "multipart/byteranges; boundary="@;
    let tight = "multipart/byteranges;boundary="@;
    assert((spaced + boundary).subrange(0, spaced.len() as int) =~= spaced);
    assert((spaced + boundary).subrange(spaced.len() as int, (spaced + boundary).len() as int)
        =~= boundary);
    assert((tight + boundary).subrange(0, tight.len() as int) =~= tight);
    assert((tight + boundary).subrange(tight.len() as int, (tight + boundary).len() as int)
        =~= boundary);
    let ty = tight + boundary;
    if text::starts_with(ty, spaced) {
        assert(ty.subrange(0, spaced.len() as int)[21] == ty[21]);
        assert(spaced[21] == ' ');
        assert(ty[21] == 'b');
    }
}

/// A run of bytes is placed where the content range says that it starts; one that would end before
/// it starts is refused.
pub proof fn law_runs_are_placed_at_their_start(start: u64, end: u64, total: u64)
    ensures
        ({
            let told = "bytes "@ + range::byte_range(start as nat, end as nat) + "/"@
                + text::decimal(total as nat);
            &&& start <= end && end - start < isize::MAX ==> range_start(told) == Ok::<u64, S3Error>(
                start,
            )
            &&& end < start ==> range_start(told) == Err::<u64, S3Error>(S3Error::ParseRange)
        }),
{
    range::law_content_range_reads_back(start, end, total);
}

/// An entry is placed by its own content range, and one without any cannot be placed.
pub proof fn law_entries_are_placed_at_their_start(
    entry: MultipartEntry,
    start: u64,
    end: u64,
    total: u64,
)
    requires
        entry.content_range is Some ==> (entry.content_range->0)@ == "bytes "@ + range::byte_range(
            start as nat,
            end as nat,
        ) + "/"@ + text::decimal(total as nat),
        start <= end,
        end - start < isize::MAX,
    ensures
        entry.start() == (if entry.content_range is Some {
            Ok::<u64, S3Error>(start)
        } else {
            Err::<u64, S3Error>(S3Error::MissingEntryContentRange)
        }),
{
    law_runs_are_placed_at_their_start(start, end, total);
}

/// A boundary that is found is what follows one of the two forms of the content type, and is on one
/// line.
pub proof fn law_found_boundary_follows(content_type: Seq<char>, boundary: Seq<char>)
    requires
        boundary_in(content_type) == Some(boundary),
    ensures
        boundary.len() > 0,
        !boundary.contains('\n'),
        content_type == "multipart/byteranges; boundary="@ + boundary || content_type
            == "multipart/byteranges;boundary="@ + boundary,
{
    let spaced = "multipart/byteranges; boundary="@;
    let tight = "multipart/byteranges;boundary="@;
    if value_after(content_type, spaced) is Some {
        assert(content_type =~= content_type.subrange(0, spaced.len() as int) + boundary);
    } else {
        assert(content_type =~= content_type.subrange(0, tight.len() as int) + boundary);
    }
}

/// A run of more bytes than can be held is refused, and so is one whose content range cannot be read.
pub proof fn law_unusable_runs_are_refused(content_range: Seq<char>)
    ensures
        range::parsed_range(content_range) is None ==> range_start(content_range) == Err::<
            u64,
            S3Error,
        >(S3Error::ParseRange),
        range::parsed_range(content_range) matches Some((start, end, _)) ==> usize::MAX == u64::MAX
            && end - start >= isize::MAX ==> range_start(content_range) == Err::<u64, S3Error>(
            S3Error::ParseRange,
        ),
        range_start(content_range) matches Ok(first) ==> range::parsed_range(
            content_range,
        ) matches Some((start, end, _)) && first == start && start <= end,
{
}

/// The body of a response whose content type has `octet-stream` in it is one run of bytes from the
/// start of its content range on. One with a content type of several byte ranges and nothing of
/// `octet-stream` has its runs between lines of the boundary.
pub proof fn law_response_tells_its_body(
    content_type: String,
    content_range: Option<String>,
    before: Seq<char>,
    after: Seq<char>,
    boundary: Seq<char>,
    range: (u64, u64, u64),
    res: Result<ResponseBody, S3Error>,
)
    requires
        body_told(Some(content_type), content_range, res),
        range.0 <= range.1,
        range.1 - range.0 < isize::MAX,
    ensures
        content_type@ == before + "octet-stream"@ + after && (content_range matches Some(text)
            && text@ == "bytes "@ + range::byte_range(range.0 as nat, range.1 as nat) + "/"@
            + text::decimal(range.2 as nat)) ==> res == Ok::<ResponseBody, S3Error>(
            ResponseBody::Single { start: range.0 },
        ),
        content_type@ == before + "octet-stream"@ + after && content_range is None ==> res == Err::<
            ResponseBody,
            S3Error,
        >(S3Error::MissingContentRange),
        boundary.len() > 0 && !boundary.contains('\n') && (content_type@
            == "multipart/byteranges; boundary="@ + boundary || content_type@
            == "multipart/byteranges;boundary="@ + boundary) && !is_single_run(content_type@) ==> (
        res matches Ok(ResponseBody::Multipart { boundary: found }) && found@ == boundary),
{
    law_octet_streams_are_single_runs(content_type@);
    law_runs_are_placed_at_their_start(range.0, range.1, range.2);
    if boundary.len() > 0 && !boundary.contains('\n') {
        law_boundary_is_found(boundary);
    }
    if content_type@ == before + "octet-stream"@ + after {
        assert(is_single_run(content_type@));
    }
}

/// Where every entry of a body has a content range and the body is read to its end, there is a run of
/// bytes for every entry, in their order: the bytes of the entry, placed where its own content range
/// starts.
pub proof fn law_entries_keep_their_bytes(
    entries: Seq<MultipartEntry>,
    told: Seq<(u64, u64, u64)>,
    res: Result<Vec<Part>, S3Error>,
)
    requires
        entries_placed(entries, None, res),
        told.len() == entries.len(),
        forall|i: int|
            #![trigger entries[i]]
            0 <= i < entries.len() ==> {
                &&& told[i].0 <= told[i].1
                &&& told[i].1 - told[i].0 < isize::MAX
                &&& entries[i].content_range matches Some(text) && text@ == "bytes "@
                    + range::byte_range(told[i].0 as nat, told[i].1 as nat) + "/"@ + text::decimal(
                    told[i].2 as nat,
                )
            },
    ensures
        res matches Ok(parts) && {
            &&& parts.len() == entries.len()
            &&& forall|i: int|
                0 <= i < entries.len() ==> (#[trigger] parts[i]).offset == told[i].0
                    && parts[i].data@ == entries[i].data@
        },
{
    assert forall|i: int| 0 <= i < entries.len() implies #[trigger] entries[i].start() == Ok::<
        u64,
        S3Error,
    >(told[i].0) by {
        law_entries_are_placed_at_their_start(entries[i], told[i].0, told[i].1, told[i].2);
    }
    assert forall|i: int| !#[trigger] first_unreadable(entries, i) by {
        if 0 <= i < entries.len() {
            assert(entries[i].start() is Ok);
        }
    }
    if res is Ok {
        let parts = res->Ok_0;
        assert forall|i: int| 0 <= i < entries.len() implies (#[trigger] parts[i]).offset
            == told[i].0 && parts[i].data@ == entries[i].data@ by {
            assert(entries[i].start() == Ok::<u64, S3Error>(parts[i].offset));
        }
    }
}

} // verus!
