//! What is asked of one part, and how it is taken out of the response.
use vstd::prelude::*;

use crate::bytes::copy_range;
use crate::s3::error::S3Error;
use crate::s3::overlap;
use crate::s3::overlap::{find_overlaps, new_overlaps, Overlaps};
use crate::s3::parts::Part;
use crate::s3::plan::{PartRequest, Span, SpanModel};
use crate::s3::range;
use crate::s3::range::range_to_string;
use crate::text;

verus! {

/// The byte ranges of spans, separated by a comma and a blank.
pub open spec fn ranges_text(spans: Seq<SpanModel>) -> Seq<char>
    decreases spans.len(),
{
    if spans.len() == 0 {
        Seq::empty()
    } else {
        let last = range::byte_range(
            spans.last().start,
            (spans.last().start + spans.last().len - 1) as nat,
        );
        if spans.len() == 1 {
            last
        } else {
            ranges_text(spans.drop_last()) + ", "@ + last
        }
    }
}

/// The part holds all of the `len` bytes from `start` on.
pub open spec fn holds(part: Part, start: nat, len: nat) -> bool {
    part.offset <= start && start + len <= part.offset + part.data.len()
}

/// The part `i` goes before the part `j`: it starts earlier, or as early and ends earlier, or
/// with the same ends was named earlier.
pub open spec fn goes_before(parts: Seq<Part>, i: int, j: int) -> bool {
    let a = parts[i];
    let b = parts[j];
    let a_end = a.offset + a.data.len();
    let b_end = b.offset + b.data.len();
    ||| a.offset < b.offset
    ||| a.offset == b.offset && a_end < b_end
    ||| a.offset == b.offset && a_end == b_end && i < j
}

/// The part `i` is the first of those that hold the `len` bytes from `start` on.
pub open spec fn serves(parts: Seq<Part>, i: int, start: nat, len: nat) -> bool {
    &&& 0 <= i < parts.len()
    &&& holds(parts[i], start, len)
    &&& forall|j: int|
        0 <= j < parts.len() && j != i && holds(#[trigger] parts[j], start, len) ==> goes_before(
            parts,
            i,
            j,
        )
}

/// No position of any of the runs is beyond 64 bits.
pub open spec fn parts_fit(parts: Seq<Part>) -> bool {
    forall|i: int|
        0 <= i < parts.len() ==> (#[trigger] parts[i]).offset + parts[i].data.len() <= u64::MAX
}

/// Whether no position of any of the runs is beyond 64 bits.
pub fn check_parts_fit(parts: &Vec<Part>) -> (r: bool)
    ensures
        r == parts_fit(parts@),
{
    let mut i: usize = 0;
    while i < parts.len()
        invariant
            0 <= i <= parts.len(),
            forall|k: int|
                0 <= k < i ==> (#[trigger] parts[k]).offset + parts[k].data.len() <= u64::MAX,
        decreases parts.len() - i,
    {
        if parts[i].data.len() as u64 > u64::MAX - parts[i].offset {
            return false;
        }
        i += 1;
    }
    true
}

/// The intervals of runs of bytes, each tagged with its number.
spec fn tagged(parts: Seq<Part>) -> Seq<(u64, u64, usize)> {
    Seq::new(
        parts.len(),
        |i: int|
            (
                parts[i].offset,
                (parts[i].offset + parts[i].data.len()) as u64,
                i as usize,
            ),
    )
}

fn overlaps_of(parts: &Vec<Part>) -> (r: Overlaps)
    requires
        parts_fit(parts@),
    ensures
        overlap::intervals(r).to_multiset() == tagged(parts@).to_multiset(),
        forall|i: int, j: int|
            0 <= i < j < overlap::intervals(r).len() ==> interval_lt(
                #[trigger] overlap::intervals(r)[i],
                #[trigger] overlap::intervals(r)[j],
            ),
{
    let mut v: Vec<(u64, u64, usize)> = Vec::new();
    let mut i: usize = 0;
    while i < parts.len()
        invariant
            parts_fit(parts@),
            0 <= i <= parts.len(),
            v@ == tagged(parts@).take(i as int),
        decreases parts.len() - i,
    {
        v.push((parts[i].offset, parts[i].offset + parts[i].data.len() as u64, i));
        i += 1;
        proof {
            assert(v@ =~= tagged(parts@).take(i as int));
        }
    }
    proof {
        assert(tagged(parts@).take(i as int) =~= tagged(parts@));
        assert(forall|i: int, j: int|
            0 <= i < j < v@.len() ==> (#[trigger] v@[i]).2 < (#[trigger] v@[j]).2);
    }
    new_overlaps(v)
}

/// The order of intervals with different tags.
spec fn interval_lt(a: (u64, u64, usize), b: (u64, u64, usize)) -> bool {
    a.0 < b.0 || (a.0 == b.0 && a.1 < b.1) || (a.0 == b.0 && a.1 == b.1 && a.2 < b.2)
}

proof fn lemma_filter_keeps_order(
    s: Seq<(u64, u64, usize)>,
    pred: spec_fn((u64, u64, usize)) -> bool,
)
    requires
        forall|i: int, j: int|
            0 <= i < j < s.len() ==> interval_lt(#[trigger] s[i], #[trigger] s[j]),
    ensures
        forall|i: int, j: int|
            0 <= i < j < s.filter(pred).len() ==> interval_lt(
                #[trigger] s.filter(pred)[i],
                #[trigger] s.filter(pred)[j],
            ),
    decreases s.len(),
{
    reveal(Seq::filter);
    if s.len() > 0 {
        let front = s.drop_last();
        lemma_filter_keeps_order(front, pred);
        assert forall|i: int, j: int| 0 <= i < j < s.filter(pred).len() implies interval_lt(
            #[trigger] s.filter(pred)[i],
            #[trigger] s.filter(pred)[j],
        ) by {
            let f = front.filter(pred);
            assert(s.filter(pred)[i] == f[i]);
            if j < f.len() {
                assert(s.filter(pred)[j] == f[j]);
            } else {
                assert(f.contains(f[i]));
                front.lemma_filter_contains_rev(pred, f[i]);
                let m = choose|m: int| 0 <= m < front.len() && front[m] == f[i];
                assert(s[m] == f[i]);
                assert(s[s.len() - 1] == s.last());
            }
        }
    }
}

/// The number of the part that serves the `len` bytes from `start` on.
fn serving_part(overlaps: &Overlaps, parts: &Vec<Part>, start: usize, len: usize) -> (r: Option<
    usize,
>)
    requires
        parts_fit(parts@),
        len > 0,
        start + len <= usize::MAX,
        overlap::intervals(*overlaps).to_multiset() == tagged(parts@).to_multiset(),
        forall|i: int, j: int|
            0 <= i < j < overlap::intervals(*overlaps).len() ==> interval_lt(
                #[trigger] overlap::intervals(*overlaps)[i],
                #[trigger] overlap::intervals(*overlaps)[j],
            ),
    ensures
        match r {
            Some(i) => serves(parts@, i as int, start as nat, len as nat),
            None => forall|i: int|
                0 <= i < parts.len() ==> !holds(#[trigger] parts[i], start as nat, len as nat),
        },
{
    let end: usize = start + len - 1;
    let found: Vec<(u64, u64, usize)> = find_overlaps(overlaps, start as u64, start as u64 + 1);
    let ghost all = overlap::intervals(*overlaps);
    let ghost pred = |iv: (u64, u64, usize)|
        overlap::overlaps_with(iv, start as u64, (start + 1) as u64);
    proof {
        lemma_filter_keeps_order(all, pred);
        assert(found@ == all.filter(pred));
        all.to_multiset_ensures();
        tagged(parts@).to_multiset_ensures();
        assert forall|t: int| 0 <= t < found.len() implies tagged(parts@).contains(
            #[trigger] found@[t],
        ) by {
            assert(found@.contains(found@[t]));
            all.lemma_filter_contains_rev(pred, found@[t]);
            assert(all.to_multiset().count(found@[t]) > 0);
        }
        assert forall|j: int|
            0 <= j < parts.len() && holds(
                #[trigger] parts[j],
                start as nat,
                len as nat,
            ) implies found@.contains(tagged(parts@)[j]) by {
            let iv = tagged(parts@)[j];
            assert(tagged(parts@).contains(iv));
            assert(all.to_multiset().count(iv) > 0);
            assert(all.contains(iv));
            let m = choose|m: int| 0 <= m < all.len() && all[m] == iv;
            all.lemma_filter_contains(pred, m);
        }
    }
    let mut t: usize = 0;
    while t < found.len()
        invariant
            parts_fit(parts@),
            len > 0,
            end == start + len - 1,
            0 <= t <= found.len(),
            forall|u: int|
                0 <= u < found.len() ==> tagged(parts@).contains(#[trigger] found@[u]),
            forall|i: int, j: int|
                0 <= i < j < found.len() ==> interval_lt(
                    #[trigger] found@[i],
                    #[trigger] found@[j],
                ),
            forall|j: int|
                0 <= j < parts.len() && holds(
                    #[trigger] parts[j],
                    start as nat,
                    len as nat,
                ) ==> found@.contains(tagged(parts@)[j]),
            forall|u: int|
                0 <= u < t ==> !holds(
                    parts[(#[trigger] found@[u]).2 as int],
                    start as nat,
                    len as nat,
                ),
        decreases found.len() - t,
    {
        let (iv_start, iv_stop, tag) = found[t];
        proof {
            assert(tagged(parts@).contains(found@[t as int]));
            let m = choose|m: int|
                0 <= m < tagged(parts@).len() && tagged(parts@)[m] == found@[t as int];
            assert(m < parts.len());
            assert(tagged(parts@)[m].2 == m as usize);
            assert(m == tag);
        }
        if start as u64 >= iv_start && (end as u64) < iv_stop {
            proof {
                assert forall|j: int|
                    0 <= j < parts.len() && j != tag && holds(
                        #[trigger] parts[j],
                        start as nat,
                        len as nat,
                    ) implies goes_before(parts@, tag as int, j) by {
                    let iv = tagged(parts@)[j];
                    assert(found@.contains(iv));
                    let u = choose|u: int| 0 <= u < found.len() && found@[u] == iv;
                    assert(iv.2 == j);
                    if u < t {
                        assert(!holds(parts[found@[u].2 as int], start as nat, len as nat));
                    } else if u > t {
                        assert(interval_lt(found@[t as int], found@[u]));
                    }
                }
            }
            return Some(tag);
        }
        t += 1;
    }
    proof {
        assert forall|i: int| 0 <= i < parts.len() implies !holds(
            #[trigger] parts[i],
            start as nat,
            len as nat,
        ) by {
            if holds(parts[i], start as nat, len as nat) {
                let iv = tagged(parts@)[i];
                assert(found@.contains(iv));
                let u = choose|u: int| 0 <= u < found.len() && found@[u] == iv;
                assert(found@[u].2 == i);
            }
        }
    }
    None
}

/// `data` is what the runs of bytes `parts` hold for `span`.
pub open spec fn span_data(parts: Seq<Part>, span: Span, data: Seq<u8>) -> bool {
    exists|i: int|
        #[trigger] serves(parts, i, span.start as nat, span.len as nat) && data
            == parts[i].data@.subrange(
            span.start - parts[i].offset,
            span.start - parts[i].offset + span.len,
        )
}

/// None of the runs of bytes holds all of `span`.
pub open spec fn unserved(parts: Seq<Part>, span: Span) -> bool {
    forall|i: int|
        0 <= i < parts.len() ==> !holds(#[trigger] parts[i], span.start as nat, span.len as nat)
}

/// One of the runs of bytes holds all of `span`.
pub open spec fn has_span(parts: Seq<Part>, span: Span) -> bool {
    exists|i: int|
        0 <= i < parts.len() && holds(#[trigger] parts[i], span.start as nat, span.len as nat)
}

impl PartRequest {
    /// Every span has a byte, and none has a position beyond the machine's numbers.
    pub open spec fn wf(self) -> bool {
        &&& self.spans.len() > 0
        &&& forall|s: int|
            0 <= s < self.spans.len() ==> (#[trigger] self.spans[s]).len > 0 && self.spans[s].start
                + self.spans[s].len <= usize::MAX
    }

    /// The value of the `Range` header that asks for all the spans.
    pub fn range_header(&self) -> (header: String)
        requires
            self.wf(),
        ensures
            header@ == "bytes="@ + ranges_text(self.spans_view()),
            exists|starts: Seq<int>| #[trigger]
                lists_spans(header@, 6, starts, self.spans_view()),
    {
        let mut header = String::from_str("bytes=");
        let ghost spans = self.spans_view();
        let mut s: usize = 0;
        proof {
            assert(header@ =~= "bytes="@ + ranges_text(spans.take(0)));
        }
        while s < self.spans.len()
            invariant
                self.wf(),
                spans == self.spans_view(),
                0 <= s <= self.spans.len(),
                header@ == "bytes="@ + ranges_text(spans.take(s as int)),
            decreases self.spans.len() - s,
        {
            if s > 0 {
                header.append(", ");
            }
            let span: Span = self.spans[s];
            let end: u64 = (span.start + span.len - 1) as u64;
            let range: String = range_to_string((Some(span.start as u64), Some(end))).unwrap();
            header.append(range.as_str());
            proof {
                let next = spans.take(s + 1);
                assert(next.drop_last() =~= spans.take(s as int));
                assert(next.last() == span@);
                if s == 0 {
                    assert(spans.take(0) =~= Seq::<SpanModel>::empty());
                }
                assert(header@ =~= "bytes="@ + ranges_text(next));
            }
            s += 1;
        }
        proof {
            assert(spans.take(s as int) =~= spans);
            let starts = law_header_lists_every_span(*self, header@);
            assert(lists_spans(header@, 6, starts, spans));
        }
        header
    }

    /// Takes the bytes of every span out of the runs of bytes that the part was answered with.
    pub fn extract(&self, parts: &Vec<Part>) -> (res: Result<Vec<Vec<u8>>, S3Error>)
        requires
            self.wf(),
            parts_fit(parts@),
        ensures
            match res {
                Ok(data) => {
                    &&& data.len() == self.spans.len()
                    &&& forall|s: int|
                        0 <= s < data.len() ==> span_data(
                            parts@,
                            self.spans[s],
                            (#[trigger] data[s])@,
                        )
                },
                Err(error) => {
                    &&& error == S3Error::ParseRanges
                    &&& exists|s: int|
                        0 <= s < self.spans.len() && unserved(parts@, #[trigger] self.spans[s])
                },
            },
    {
        let overlaps: Overlaps = overlaps_of(parts);
        let mut data: Vec<Vec<u8>> = Vec::new();
        let mut s: usize = 0;
        while s < self.spans.len()
            invariant
                self.wf(),
                parts_fit(parts@),
                overlap::intervals(overlaps).to_multiset() == tagged(parts@).to_multiset(),
                forall|i: int, j: int|
                    0 <= i < j < overlap::intervals(overlaps).len() ==> interval_lt(
                        #[trigger] overlap::intervals(overlaps)[i],
                        #[trigger] overlap::intervals(overlaps)[j],
                    ),
                0 <= s <= self.spans.len(),
                data.len() == s,
                forall|k: int|
                    0 <= k < s ==> span_data(parts@, self.spans[k], (#[trigger] data[k])@),
            decreases self.spans.len() - s,
        {
            let span: Span = self.spans[s];
            match serving_part(&overlaps, parts, span.start, span.len) {
                None => {
                    proof {
                        assert(unserved(parts@, self.spans[s as int]));
                    }
                    return Err(S3Error::ParseRanges);
                },
                Some(i) => {
                    let from: usize = span.start - parts[i].offset as usize;
                    let bytes: Vec<u8> = copy_range(&parts[i].data, from, span.len);
                    proof {
                        assert(serves(parts@, i as int, span.start as nat, span.len as nat));
                        assert(span_data(parts@, span, bytes@));
                    }
                    data.push(bytes);
                },
            }
            s += 1;
        }
        Ok(data)
    }
}

/// Where the item `s` of a list ends: in front of the comma and the blank, or at the end.
pub open spec fn item_end(text: Seq<char>, starts: Seq<int>, s: int) -> int {
    if s + 1 < starts.len() {
        starts[s + 1] - 2
    } else {
        text.len() as int
    }
}

/// The item `s` of a list names the first and the last position of the span `span`, and a comma and
/// a blank follow unless it is the last one.
pub open spec fn item_names_span(
    text: Seq<char>,
    from: int,
    starts: Seq<int>,
    s: int,
    span: SpanModel,
) -> bool {
    let end = item_end(text, starts, s);
    &&& from <= starts[s] < end <= text.len()
    &&& exists|hyphen: int| #[trigger]
        range::names_positions(
            text.subrange(starts[s], end),
            hyphen,
            span.start,
            (span.start + span.len - 1) as nat,
        )
    &&& s + 1 < starts.len() ==> end + 1 < text.len() && text[end] == ',' && text[end + 1] == ' '
}

/// An item that is not the last one ends at `p`.
pub open spec fn item_ends_at(text: Seq<char>, starts: Seq<int>, p: int) -> bool {
    exists|s: int| 0 <= s < starts.len() - 1 && p == #[trigger] item_end(text, starts, s)
}

/// `text` is, from `from` on, a list with one item for every span, in their order: the item of a
/// span names its first and its last position. Items are separated by a comma and a blank, and
/// there is no other comma.
pub open spec fn lists_spans(
    text: Seq<char>,
    from: int,
    starts: Seq<int>,
    spans: Seq<SpanModel>,
) -> bool {
    &&& starts.len() == spans.len()
    &&& starts.len() > 0
    &&& starts[0] == from
    &&& forall|s: int|
        0 <= s < spans.len() ==> #[trigger] item_names_span(text, from, starts, s, spans[s])
    &&& forall|p: int|
        0 <= p < text.len() && #[trigger] text[p] == ',' ==> item_ends_at(text, starts, p)
}

proof fn lemma_lists_one(prefix: Seq<char>, span: SpanModel)
    requires
        span.len > 0,
        !prefix.contains(','),
    ensures
        lists_spans(
            prefix + range::byte_range(span.start, (span.start + span.len - 1) as nat),
            prefix.len() as int,
            seq![prefix.len() as int],
            seq![span],
        ),
{
    let first = span.start;
    let end = (span.start + span.len - 1) as nat;
    let last = range::byte_range(first, end);
    let text = prefix + last;
    let starts = seq![prefix.len() as int];
    let hyphen = range::law_byte_range_names_its_ends(first, end);
    assert(text.subrange(starts[0], item_end(text, starts, 0)) =~= last);
    assert(item_names_span(text, prefix.len() as int, starts, 0, span));
    assert forall|p: int| 0 <= p < text.len() implies #[trigger] text[p] != ',' by {
        if p < prefix.len() {
            assert(text[p] == prefix[p]);
            assert(prefix.contains(prefix[p]));
        } else {
            let q = p - prefix.len();
            assert(text[p] == last[q]);
            if q != hyphen {
                assert(text::is_digit(last[q]));
            }
        }
    }
}

proof fn lemma_lists_more(
    head: Seq<char>,
    from: int,
    before: Seq<int>,
    front: Seq<SpanModel>,
    span: SpanModel,
)
    requires
        span.len > 0,
        0 <= from,
        lists_spans(head, from, before, front),
    ensures
        lists_spans(
            head + ", "@ + range::byte_range(span.start, (span.start + span.len - 1) as nat),
            from,
            before.push((head.len() + 2) as int),
            front.push(span),
        ),
{
    reveal_strlit(", ");
    let n = front.len() as int;
    let spans = front.push(span);
    let end = (span.start + span.len - 1) as nat;
    let last = range::byte_range(span.start, end);
    let text = head + ", "@ + last;
    let starts = before.push((head.len() + 2) as int);
    let hyphen = range::law_byte_range_names_its_ends(span.start, end);
    assert(item_names_span(head, from, before, 0, front[0]));
    assert forall|s: int| 0 <= s < spans.len() implies #[trigger] item_names_span(
        text,
        from,
        starts,
        s,
        spans[s],
    ) by {
        let stop = item_end(text, starts, s);
        if s < n {
            assert(item_names_span(head, from, before, s, front[s]));
            assert(starts[s] == before[s]);
            assert(stop == item_end(head, before, s));
            assert(text.subrange(starts[s], stop) =~= head.subrange(before[s], stop));
        } else {
            assert(text.subrange(starts[s], stop) =~= last);
            assert(range::names_positions(
                text.subrange(starts[s], stop),
                hyphen,
                span.start,
                end,
            ));
        }
    }
    assert forall|p: int| 0 <= p < text.len() && #[trigger] text[p] == ',' implies item_ends_at(
        text,
        starts,
        p,
    ) by {
        if p < head.len() {
            assert(head[p] == ',');
            assert(item_ends_at(head, before, p));
            let s = choose|s: int|
                0 <= s < before.len() - 1 && p == #[trigger] item_end(head, before, s);
            assert(item_end(text, starts, s) == p);
        } else if p == head.len() {
            assert(item_end(text, starts, n - 1) == p);
        } else if p > head.len() + 1 {
            let q = p - head.len() - 2;
            assert(text[p] == last[q]);
            if q != hyphen {
                assert(text::is_digit(last[q]));
            }
        }
    }
}

proof fn lemma_lists_spans(prefix: Seq<char>, spans: Seq<SpanModel>) -> (starts: Seq<int>)
    requires
        spans.len() > 0,
        forall|s: int| 0 <= s < spans.len() ==> (#[trigger] spans[s]).len > 0,
        !prefix.contains(','),
    ensures
        lists_spans(prefix + ranges_text(spans), prefix.len() as int, starts, spans),
    decreases spans.len(),
{
    let front = spans.drop_last();
    let span = spans.last();
    assert(spans =~= front.push(span));
    assert(spans[spans.len() - 1].len > 0);
    if spans.len() == 1 {
        assert(spans =~= seq![span]);
        lemma_lists_one(prefix, span);
        seq![prefix.len() as int]
    } else {
        assert forall|s: int| 0 <= s < front.len() implies (#[trigger] front[s]).len > 0 by {
            assert(front[s] == spans[s]);
        }
        let before = lemma_lists_spans(prefix, front);
        let head = prefix + ranges_text(front);
        lemma_lists_more(head, prefix.len() as int, before, front, span);
        assert(prefix + ranges_text(spans) =~= head + ", "@ + range::byte_range(
            span.start,
            (span.start + span.len - 1) as nat,
        ));
        before.push((head.len() + 2) as int)
    }
}

/// A request asks for all of its spans and for nothing else: what follows `bytes=` in the header,
/// taken apart at the commas, has as many items as the request has spans, and the item of each span
/// names the first and the last position of the span.
pub proof fn law_header_lists_every_span(request: PartRequest, header: Seq<char>) -> (starts: Seq<
    int,
>)
    requires
        request.wf(),
        header == "bytes="@ + ranges_text(request.spans_view()),
    ensures
        header.subrange(0, 6) == "bytes="@,
        lists_spans(header, 6, starts, request.spans_view()),
        starts.len() == request.spans.len(),
        forall|s: int|
            0 <= s < request.spans.len() ==> (#[trigger] request.spans_view()[s]).start
                == request.spans[s].start && request.spans_view()[s].len == request.spans[s].len,
{
    reveal_strlit("bytes=");
    let spans = request.spans_view();
    assert forall|s: int| 0 <= s < spans.len() implies (#[trigger] spans[s]).len > 0 by {
        assert(spans[s] == request.spans[s]@);
    }
    assert forall|p: int| 0 <= p < 6 implies "bytes="@[p] != ',' by {}
    assert(header.subrange(0, 6) =~= "bytes="@);
    lemma_lists_spans("bytes="@, spans)
}

/// A span is served as soon as one run of bytes reaches over all of it.
pub proof fn law_covering_run_serves(runs: Seq<Part>, span: Span, i: int)
    requires
        0 <= i < runs.len(),
        runs[i].offset <= span.start,
        span.start + span.len <= runs[i].offset + runs[i].data.len(),
    ensures
        !unserved(runs, span),
{
    assert(holds(runs[i], span.start as nat, span.len as nat));
}

/// The run of bytes that serves a span reaches over all of it, and no other one that does starts
/// earlier, or as early and ends earlier.
pub proof fn law_first_run_serves(runs: Seq<Part>, i: int, start: nat, len: nat, j: int)
    requires
        serves(runs, i, start, len),
        0 <= j < runs.len(),
        runs[j].offset <= start,
        start + len <= runs[j].offset + runs[j].data.len(),
    ensures
        runs[i].offset <= start,
        start + len <= runs[i].offset + runs[i].data.len(),
        runs[i].offset <= runs[j].offset,
        runs[i].offset == runs[j].offset ==> runs[i].data.len() <= runs[j].data.len(),
        runs[i].offset == runs[j].offset && runs[i].data.len() == runs[j].data.len() ==> i <= j,
{
    assert(holds(runs[j], start, len));
}

/// Runs of bytes fit if each of them does, which is that it ends at a 64-bit position.
pub proof fn law_each_run_fits(runs: Seq<Part>, run: Part)
    ensures
        parts_fit(Seq::<Part>::empty()),
        parts_fit(runs.push(run)) <==> parts_fit(runs) && run.offset + run.data.len()
            <= 18446744073709551615,
{
    let longer = runs.push(run);
    if parts_fit(longer) {
        assert forall|i: int| 0 <= i < runs.len() implies (#[trigger] runs[i]).offset
            + runs[i].data.len() <= u64::MAX by {
            assert(longer[i] == runs[i]);
        }
        assert(longer[runs.len() as int] == run);
    }
}

} // verus!
