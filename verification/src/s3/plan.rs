//! Which bytes of which parts make up some byte ranges of an object.
use vstd::prelude::*;

use crate::s3::parts;

verus! {

/// A run of bytes of one part, and where it belongs: at `at` in the result of the range `range`.
#[derive(Debug, Clone, Copy, PartialEq, Eq)]
pub struct Span {
    /// Position in the part.
    pub start: usize,
    pub len: usize,
    pub range: usize,
    pub at: usize,
}

/// A span in mathematical numbers.
pub ghost struct SpanModel {
    pub start: nat,
    pub len: nat,
    pub range: nat,
    pub at: nat,
}

impl View for Span {
    type V = SpanModel;

    open spec fn view(&self) -> SpanModel {
        SpanModel {
            start: self.start as nat,
            len: self.len as nat,
            range: self.range as nat,
            at: self.at as nat,
        }
    }
}

/// All that is asked of one part.
#[derive(Debug)]
pub struct PartRequest {
    pub parts_num: u64,
    pub spans: Vec<Span>,
}

impl PartRequest {
    pub open spec fn spans_view(self) -> Seq<SpanModel> {
        self.spans@.map_values(|s: Span| s@)
    }
}

/// The first position of a range `(offset, len)` that lies in the part `k`, if any does.
pub open spec fn span_lo(range: (u64, u64), part_size: nat, k: nat) -> nat {
    if range.0 as nat <= k * part_size {
        k * part_size
    } else {
        range.0 as nat
    }
}

/// The position behind the last one of a range `(offset, len)` that lies in the part `k`, if any
/// does.
pub open spec fn span_hi(range: (u64, u64), part_size: nat, k: nat) -> nat {
    if range.0 + range.1 <= (k + 1) * part_size {
        (range.0 + range.1) as nat
    } else {
        (k + 1) * part_size
    }
}

/// The range has a byte in the part `k`.
pub open spec fn in_part(range: (u64, u64), part_size: nat, k: nat) -> bool {
    span_lo(range, part_size, k) < span_hi(range, part_size, k)
}

/// What the range number `r` has in the part `k`.
pub open spec fn span_of(range: (u64, u64), r: nat, part_size: nat, k: nat) -> SpanModel {
    let lo = span_lo(range, part_size, k);
    SpanModel {
        start: (lo - k * part_size) as nat,
        len: (span_hi(range, part_size, k) - lo) as nat,
        range: r,
        at: (lo - range.0) as nat,
    }
}

/// What the ranges have in the part `k`, in the order of the ranges.
pub open spec fn part_spans(ranges: Seq<(u64, u64)>, part_size: nat, k: nat) -> Seq<SpanModel>
    decreases ranges.len(),
{
    if ranges.len() == 0 {
        Seq::empty()
    } else {
        let before = part_spans(ranges.drop_last(), part_size, k);
        if in_part(ranges.last(), part_size, k) {
            before.push(span_of(ranges.last(), (ranges.len() - 1) as nat, part_size, k))
        } else {
            before
        }
    }
}

/// No part is asked twice, and none in vain.
pub open spec fn requests_distinct(requests: Seq<PartRequest>) -> bool {
    &&& forall|p: int, q: int|
        0 <= p < q < requests.len() ==> (#[trigger] requests[p]).parts_num != (
        #[trigger] requests[q]).parts_num
    &&& forall|q: int| 0 <= q < requests.len() ==> (#[trigger] requests[q]).spans.len() > 0
}

/// The request `q` is the one for the part `k`.
pub open spec fn asks_part(requests: Seq<PartRequest>, q: int, k: nat) -> bool {
    0 <= q < requests.len() && requests[q].parts_num == k
}

/// What is asked of the part `k`.
pub open spec fn spans_for(requests: Seq<PartRequest>, k: nat) -> Seq<SpanModel> {
    if exists|q: int| asks_part(requests, q, k) {
        requests[choose|q: int| asks_part(requests, q, k)].spans_view()
    } else {
        Seq::empty()
    }
}

/// The ranges can be laid out in parts of that size.
pub open spec fn ranges_fit(ranges: Seq<(u64, u64)>, part_size: u64) -> bool {
    &&& 0 < part_size <= usize::MAX
    &&& forall|r: int|
        0 <= r < ranges.len() ==> (#[trigger] ranges[r]).0 + ranges[r].1 <= u64::MAX && ranges[r].1
            <= usize::MAX
}

/// The reading of some byte ranges of an object: which bytes to ask of which part.
#[derive(Debug)]
pub struct GetObject {
    pub part_size: u64,
    /// The ranges, as `(offset, len)`.
    pub ranges: Vec<(u64, u64)>,
    pub requests: Vec<PartRequest>,
}

impl GetObject {
    /// The requests ask of every part exactly what the ranges have there.
    pub open spec fn wf(self) -> bool {
        &&& ranges_fit(self.ranges@, self.part_size)
        &&& requests_distinct(self.requests@)
        &&& forall|k: nat|
            #[trigger] spans_for(self.requests@, k) == part_spans(
                self.ranges@,
                self.part_size as nat,
                k,
            )
    }
}

/// A request of the list is the one for its part.
pub proof fn lemma_spans_for(requests: Seq<PartRequest>, q: int)
    requires
        requests_distinct(requests),
        0 <= q < requests.len(),
    ensures
        spans_for(requests, requests[q].parts_num as nat) == requests[q].spans_view(),
{
    let k = requests[q].parts_num as nat;
    assert(asks_part(requests, q, k));
    let p = choose|p: int| asks_part(requests, p, k);
    assert(asks_part(requests, p, k));
    if p < q {
        assert(requests[p].parts_num != requests[q].parts_num);
    }
    if q < p {
        assert(requests[q].parts_num != requests[p].parts_num);
    }
}

/// Adds one span to what is asked of the part `num`.
fn add_span(requests: &mut Vec<PartRequest>, num: u64, span: Span)
    requires
        requests_distinct(old(requests)@),
    ensures
        requests_distinct(final(requests)@),
        forall|k: nat|
            #[trigger] spans_for(final(requests)@, k) == (if k == num {
                spans_for(old(requests)@, k).push(span@)
            } else {
                spans_for(old(requests)@, k)
            }),
{
    let ghost before = requests@;
    let mut q: usize = 0;
    while q < requests.len()
        invariant
            requests@ == before,
            before == old(requests)@,
            requests_distinct(before),
            0 <= q <= requests.len(),
            forall|p: int| 0 <= p < q ==> (#[trigger] requests@[p]).parts_num != num,
        decreases requests.len() - q,
    {
        if requests[q].parts_num == num {
            requests[q].spans.push(span);
            proof {
                let after = requests@;
                assert(after[q as int].spans_view() =~= before[q as int].spans_view().push(span@));
                assert forall|p: int| 0 <= p < after.len() && p != q implies #[trigger] after[p]
                    == before[p] by {}
                assert(after[q as int].parts_num == num);
                assert(requests_distinct(after));
                lemma_spans_for(after, q as int);
                lemma_spans_for(before, q as int);
                assert forall|k: nat| k != num implies #[trigger] spans_for(after, k) == spans_for(
                    before,
                    k,
                ) by {
                    lemma_spans_same(before, after, k);
                }
            }
            return;
        }
        q += 1;
    }
    let mut spans: Vec<Span> = Vec::new();
    spans.push(span);
    requests.push(PartRequest { parts_num: num, spans });
    proof {
        let after = requests@;
        let last = before.len() as int;
        assert(after[last].spans_view() =~= Seq::<SpanModel>::empty().push(span@));
        assert(requests_distinct(after));
        lemma_spans_for(after, last);
        assert forall|p: int| !#[trigger] asks_part(before, p, num as nat) by {}
        assert forall|k: nat| k != num implies #[trigger] spans_for(after, k) == spans_for(
            before,
            k,
        ) by {
            lemma_spans_same(before, after, k);
        }
    }
}

proof fn lemma_spans_same(before: Seq<PartRequest>, after: Seq<PartRequest>, k: nat)
    requires
        requests_distinct(before),
        requests_distinct(after),
        before.len() <= after.len(),
        forall|q: int|
            0 <= q < before.len() && (#[trigger] before[q]).parts_num == k ==> after[q]
                == before[q],
        forall|q: int|
            0 <= q < after.len() && (#[trigger] after[q]).parts_num == k ==> q < before.len()
                && before[q] == after[q],
    ensures
        spans_for(after, k) == spans_for(before, k),
{
    if exists|q: int| asks_part(before, q, k) {
        let q = choose|q: int| asks_part(before, q, k);
        assert(asks_part(after, q, k));
        lemma_spans_for(before, q);
        lemma_spans_for(after, q);
    } else {
        assert forall|q: int| !#[trigger] asks_part(after, q, k) by {
            if asks_part(after, q, k) {
                assert(asks_part(before, q, k));
            }
        }
    }
}

/// What the first `r` ranges have in the part `k`, and also the range `r` if that part is before
/// `lim`.
spec fn spans_so_far(
    ranges: Seq<(u64, u64)>,
    r: int,
    lim: nat,
    part_size: nat,
    k: nat,
) -> Seq<SpanModel> {
    let before = part_spans(ranges.take(r), part_size, k);
    if r < ranges.len() && k < lim && in_part(ranges[r], part_size, k) {
        before.push(span_of(ranges[r], r as nat, part_size, k))
    } else {
        before
    }
}

proof fn lemma_before_first_part(range: (u64, u64), part_size: nat, k: nat)
    requires
        part_size > 0,
        k < range.0 as nat / part_size,
    ensures
        !in_part(range, part_size, k),
{
    parts::lemma_position(range.0 as nat, part_size);
    parts::lemma_part_order(k, range.0 as nat / part_size, part_size);
}

proof fn lemma_behind_last_part(range: (u64, u64), part_size: nat, lim: nat, k: nat)
    requires
        range.0 + range.1 <= lim * part_size,
        lim <= k,
    ensures
        !in_part(range, part_size, k),
{
    if lim < k {
        parts::lemma_part_order(lim, k, part_size);
    }
}

/// Lays the ranges out in requests to parts of `part_size` bytes.
pub fn plan_ranges(ranges: &[(u64, u64)], part_size: u64) -> (plan: GetObject)
    requires
        ranges_fit(ranges@, part_size),
    ensures
        plan.wf(),
        plan.ranges@ == ranges@,
        plan.part_size == part_size,
{
    let mut requests: Vec<PartRequest> = Vec::new();
    let mut kept: Vec<(u64, u64)> = Vec::new();
    let ghost ps = part_size as nat;
    let mut r: usize = 0;
    proof {
        assert(ranges@.take(0) =~= Seq::<(u64, u64)>::empty());
        assert forall|k: nat| #[trigger] spans_for(requests@, k) == part_spans(
            ranges@.take(0),
            ps,
            k,
        ) by {
            assert forall|q: int| !#[trigger] asks_part(requests@, q, k) by {}
        }
    }
    while r < ranges.len()
        invariant
            ranges_fit(ranges@, part_size),
            ps == part_size,
            0 <= r <= ranges.len(),
            kept@ == ranges@.take(r as int),
            requests_distinct(requests@),
            forall|k: nat|
                #[trigger] spans_for(requests@, k) == part_spans(ranges@.take(r as int), ps, k),
        decreases ranges.len() - r,
    {
        let (offset, len) = ranges[r];
        let ghost range = ranges@[r as int];
        let total: usize = len as usize;
        let mut at: usize = 0;
        let mut pos: u64 = offset;
        let mut num: u64 = offset / part_size;
        proof {
            assert forall|k: nat| #[trigger] spans_for(requests@, k) == spans_so_far(
                ranges@,
                r as int,
                num as nat,
                ps,
                k,
            ) by {
                if k < num {
                    lemma_before_first_part(range, ps, k);
                }
            }
            parts::lemma_position(offset as nat, ps);
        }
        while at < total
            invariant
                ranges_fit(ranges@, part_size),
                ps == part_size,
                0 <= r < ranges.len(),
                range == ranges@[r as int],
                range == (offset, len),
                total == len,
                0 <= at <= total,
                pos == offset + at,
                at < total ==> num * ps <= pos < (num + 1) * ps && (at == 0 || pos == num * ps),
                at == 0 ==> num == offset / part_size,
                at > 0 ==> at == total || pos == num * ps,
                at > 0 && at == total ==> pos <= num * ps,
                requests_distinct(requests@),
                forall|k: nat|
                    #[trigger] spans_for(requests@, k) == spans_so_far(
                        ranges@,
                        r as int,
                        num as nat,
                        ps,
                        k,
                    ),
            decreases total - at,
        {
            proof {
                vstd::arithmetic::mul::lemma_mul_is_distributive_add_other_way(
                    ps as int,
                    num as int,
                    1,
                );
                parts::lemma_position_in_part(num as nat, (pos - num * ps) as nat, ps);
            }
            let offset_in_part: usize = (pos % part_size) as usize;
            let room: usize = part_size as usize - offset_in_part;
            let left: usize = total - at;
            let split_len: usize = if room < left {
                room
            } else {
                left
            };
            let span = Span { start: offset_in_part, len: split_len, range: r, at };
            proof {
                assert(span_lo(range, ps, num as nat) == pos);
                assert(span_hi(range, ps, num as nat) == pos + split_len);
                assert(in_part(range, ps, num as nat));
                assert(span@ == span_of(range, r as nat, ps, num as nat));
            }
            let ghost before = requests@;
            add_span(&mut requests, num, span);
            proof {
                assert forall|k: nat| #[trigger] spans_for(requests@, k) == spans_so_far(
                    ranges@,
                    r as int,
                    (num + 1) as nat,
                    ps,
                    k,
                ) by {
                    assert(spans_for(before, k) == spans_so_far(
                        ranges@,
                        r as int,
                        num as nat,
                        ps,
                        k,
                    ));
                }
                vstd::arithmetic::mul::lemma_mul_is_distributive_add_other_way(
                    ps as int,
                    (num + 1) as int,
                    1,
                );
                assert(num < u64::MAX) by {
                    if num == u64::MAX {
                        vstd::arithmetic::mul::lemma_mul_inequality(1, ps as int, num as int);
                        vstd::arithmetic::mul::lemma_mul_is_commutative(num as int, ps as int);
                    }
                }
            }
            pos += split_len as u64;
            at += split_len;
            num += 1;
        }
        kept.push(ranges[r]);
        proof {
            let next = ranges@.take(r + 1);
            assert(next.drop_last() =~= ranges@.take(r as int));
            assert(next.last() == range);
            assert(kept@ =~= next);
            assert forall|k: nat| #[trigger] spans_for(requests@, k) == part_spans(
                next,
                ps,
                k,
            ) by {
                if k >= num && total > 0 {
                    lemma_behind_last_part(range, ps, num as nat, k);
                }
            }
        }
        r += 1;
    }
    proof {
        assert(ranges@.take(r as int) =~= ranges@);
    }
    GetObject { part_size, ranges: kept, requests }
}

/// The spans of a part: each is what its range has there, and they come in the order of the
/// ranges.
pub proof fn lemma_part_spans(ranges: Seq<(u64, u64)>, part_size: nat, k: nat)
    ensures
        forall|s: int|
            0 <= s < part_spans(ranges, part_size, k).len() ==> {
                let span = #[trigger] part_spans(ranges, part_size, k)[s];
                &&& span.range < ranges.len()
                &&& in_part(ranges[span.range as int], part_size, k)
                &&& span == span_of(ranges[span.range as int], span.range, part_size, k)
            },
        forall|s: int, t: int|
            0 <= s < t < part_spans(ranges, part_size, k).len() ==> (#[trigger] part_spans(
                ranges,
                part_size,
                k,
            )[s]).range < (#[trigger] part_spans(ranges, part_size, k)[t]).range,
    decreases ranges.len(),
{
    if ranges.len() > 0 {
        let front = ranges.drop_last();
        lemma_part_spans(front, part_size, k);
        let before = part_spans(front, part_size, k);
        let all = part_spans(ranges, part_size, k);
        assert forall|s: int| 0 <= s < all.len() implies {
            let span = #[trigger] all[s];
            &&& span.range < ranges.len()
            &&& in_part(ranges[span.range as int], part_size, k)
            &&& span == span_of(ranges[span.range as int], span.range, part_size, k)
        } by {
            if s < before.len() {
                assert(all[s] == before[s]);
                assert(front[before[s].range as int] == ranges[before[s].range as int]);
            }
        }
        assert forall|s: int, t: int| 0 <= s < t < all.len() implies (#[trigger] all[s]).range < (
        #[trigger] all[t]).range by {
            assert(all[s] == before[s]);
            if t < before.len() {
                assert(all[t] == before[t]);
            }
        }
    }
}

/// A range with a byte in a part has a span among those of the part.
pub proof fn lemma_span_index(ranges: Seq<(u64, u64)>, part_size: nat, k: nat, r: nat) -> (s: int)
    requires
        r < ranges.len(),
        in_part(ranges[r as int], part_size, k),
    ensures
        0 <= s < part_spans(ranges, part_size, k).len(),
        part_spans(ranges, part_size, k)[s] == span_of(ranges[r as int], r, part_size, k),
    decreases ranges.len(),
{
    if r == ranges.len() - 1 {
        part_spans(ranges, part_size, k).len() - 1
    } else {
        lemma_span_index(ranges.drop_last(), part_size, k, r)
    }
}

/// What the bounds of the spans of a plan are.
pub proof fn lemma_plan_span(plan: GetObject, q: int, s: int)
    requires
        plan.wf(),
        0 <= q < plan.requests.len(),
        0 <= s < plan.requests[q].spans.len(),
    ensures
        plan.requests[q].spans_view() == part_spans(
            plan.ranges@,
            plan.part_size as nat,
            plan.requests[q].parts_num as nat,
        ),
        ({
            let span = plan.requests[q].spans[s];
            let num = plan.requests[q].parts_num as nat;
            let range = plan.ranges[span.range as int];
            &&& span.len > 0
            &&& span.start + span.len <= plan.part_size
            &&& span.range < plan.ranges.len()
            &&& span.at + span.len <= range.1
            &&& num * plan.part_size + span.start == range.0 + span.at
            &&& in_part(range, plan.part_size as nat, num)
            &&& span@ == span_of(range, span.range as nat, plan.part_size as nat, num)
        }),
{
    let ps = plan.part_size as nat;
    let num = plan.requests[q].parts_num as nat;
    lemma_spans_for(plan.requests@, q);
    let spans = part_spans(plan.ranges@, ps, num);
    assert(plan.requests[q].spans_view() == spans);
    lemma_part_spans(plan.ranges@, ps, num);
    let span = plan.requests[q].spans[s];
    assert(plan.requests[q].spans_view()[s] == span@);
    assert(spans[s] == span@);
    vstd::arithmetic::mul::lemma_mul_is_distributive_add_other_way(ps as int, num as int, 1);
}

/// Two different spans of a plan that belong to the same range do not meet.
pub proof fn lemma_plan_disjoint(plan: GetObject, q1: int, s1: int, q2: int, s2: int)
    requires
        plan.wf(),
        0 <= q1 < plan.requests.len(),
        0 <= s1 < plan.requests[q1].spans.len(),
        0 <= q2 < plan.requests.len(),
        0 <= s2 < plan.requests[q2].spans.len(),
        q1 != q2 || s1 != s2,
        plan.requests[q1].spans[s1].range == plan.requests[q2].spans[s2].range,
    ensures
        ({
            let a = plan.requests[q1].spans[s1];
            let b = plan.requests[q2].spans[s2];
            a.at + a.len <= b.at || b.at + b.len <= a.at
        }),
{
    let ps = plan.part_size as nat;
    let a = plan.requests[q1].spans[s1];
    let b = plan.requests[q2].spans[s2];
    let n1 = plan.requests[q1].parts_num as nat;
    let n2 = plan.requests[q2].parts_num as nat;
    lemma_plan_span(plan, q1, s1);
    lemma_plan_span(plan, q2, s2);
    if q1 == q2 {
        lemma_part_spans(plan.ranges@, ps, n1);
        assert(plan.requests[q1].spans_view()[s1] == a@);
        assert(plan.requests[q1].spans_view()[s2] == b@);
        if s1 < s2 {
            assert(part_spans(plan.ranges@, ps, n1)[s1].range < part_spans(
                plan.ranges@,
                ps,
                n1,
            )[s2].range);
        } else {
            assert(part_spans(plan.ranges@, ps, n1)[s2].range < part_spans(
                plan.ranges@,
                ps,
                n1,
            )[s1].range);
        }
    } else {
        if q1 < q2 {
            assert(plan.requests@[q1].parts_num != plan.requests@[q2].parts_num);
        } else {
            assert(plan.requests@[q2].parts_num != plan.requests@[q1].parts_num);
        }
        if n1 < n2 {
            parts::lemma_part_order(n1, n2, ps);
        } else {
            parts::lemma_part_order(n2, n1, ps);
        }
    }
}

/// The span `s` of the request `q` brings the byte `j` of the range `r`.
pub open spec fn brings(plan: GetObject, q: int, s: int, r: int, j: int) -> bool {
    &&& 0 <= q < plan.requests.len()
    &&& 0 <= s < plan.requests[q].spans.len()
    &&& plan.requests[q].spans[s].range == r
    &&& plan.requests[q].spans[s].at <= j < plan.requests[q].spans[s].at
        + plan.requests[q].spans[s].len
}

/// Every byte of every range is brought by one span, and by one only, from the part and the
/// position where it lies.
pub proof fn law_every_byte_asked_once(plan: GetObject, r: int, j: int) -> (at: (int, int))
    requires
        plan.wf(),
        0 <= r < plan.ranges.len(),
        0 <= j < plan.ranges[r].1,
    ensures
        brings(plan, at.0, at.1, r, j),
        forall|q: int, s: int| brings(plan, q, s, r, j) ==> q == at.0 && s == at.1,
        ({
            let span = plan.requests[at.0].spans[at.1];
            let pos = (plan.ranges[r].0 + j) as nat;
            &&& plan.requests[at.0].parts_num == pos / (plan.part_size as nat)
            &&& span.start + (j - span.at) == pos % (plan.part_size as nat)
        }),
{
    let ps = plan.part_size as nat;
    let range = plan.ranges[r];
    let pos = (range.0 + j) as nat;
    let k = pos / ps;
    parts::lemma_position(pos, ps);
    assert(in_part(range, ps, k));
    let s = lemma_span_index(plan.ranges@, ps, k, r as nat);
    assert(spans_for(plan.requests@, k) == part_spans(plan.ranges@, ps, k));
    assert(exists|q: int| asks_part(plan.requests@, q, k));
    let q = choose|q: int| asks_part(plan.requests@, q, k);
    lemma_spans_for(plan.requests@, q);
    assert(plan.requests[q].spans_view()[s] == plan.requests[q].spans[s]@);
    lemma_plan_span(plan, q, s);
    assert forall|q2: int, s2: int| brings(plan, q2, s2, r, j) implies q2 == q && s2 == s by {
        if q2 != q || s2 != s {
            lemma_plan_disjoint(plan, q, s, q2, s2);
        }
    }
    (q, s)
}

/// Nothing is asked for but bytes of the ranges: the byte `i` of a span lies in the range that the
/// span belongs to, at the place that the span says.
pub proof fn law_only_ranges_asked(plan: GetObject, q: int, s: int, i: int)
    requires
        plan.wf(),
        0 <= q < plan.requests.len(),
        0 <= s < plan.requests[q].spans.len(),
        0 <= i < plan.requests[q].spans[s].len,
    ensures
        ({
            let span = plan.requests[q].spans[s];
            let range = plan.ranges[span.range as int];
            &&& span.range < plan.ranges.len()
            &&& span.at + i < range.1
            &&& plan.requests[q].parts_num * plan.part_size + span.start + i == range.0 + span.at
                + i
        }),
{
    lemma_plan_span(plan, q, s);
}

proof fn lemma_spans_in_order(ranges: Seq<(u64, u64)>, part_size: nat, k: nat)
    ensures
        forall|s: int|
            0 <= s < part_spans(ranges, part_size, k).len() ==> (#[trigger] part_spans(
                ranges,
                part_size,
                k,
            )[s]).range < ranges.len(),
        forall|s: int, t: int|
            0 <= s < t < part_spans(ranges, part_size, k).len() ==> (#[trigger] part_spans(
                ranges,
                part_size,
                k,
            )[s]).range < (#[trigger] part_spans(ranges, part_size, k)[t]).range,
    decreases ranges.len(),
{
    if ranges.len() > 0 {
        lemma_spans_in_order(ranges.drop_last(), part_size, k);
        let before = part_spans(ranges.drop_last(), part_size, k);
        let spans = part_spans(ranges, part_size, k);
        assert forall|s: int, t: int| 0 <= s < t < spans.len() implies (#[trigger] spans[s]).range
            < (#[trigger] spans[t]).range by {
            assert(spans[s] == before[s]);
            if t < before.len() {
                assert(spans[t] == before[t]);
            }
        }
    }
}

/// What is asked of a part comes in the order of the ranges, at most one span for each.
pub proof fn law_spans_follow_the_ranges(plan: GetObject, q: int, s: int, t: int)
    requires
        plan.wf(),
        0 <= q < plan.requests.len(),
        0 <= s < t < plan.requests[q].spans.len(),
    ensures
        plan.requests[q].spans[s].range < plan.requests[q].spans[t].range,
{
    let k = plan.requests[q].parts_num as nat;
    let ps = plan.part_size as nat;
    lemma_spans_for(plan.requests@, q);
    lemma_spans_in_order(plan.ranges@, ps, k);
    let spans = part_spans(plan.ranges@, ps, k);
    assert(spans_for(plan.requests@, k) == spans);
    assert(spans[s] == plan.requests[q].spans[s]@);
    assert(spans[t] == plan.requests[q].spans[t]@);
    assert(spans[s].range < spans[t].range);
}

/// No part is asked twice.
pub proof fn law_parts_are_asked_once(plan: GetObject, p: int, q: int)
    requires
        plan.wf(),
        0 <= p < plan.requests.len(),
        0 <= q < plan.requests.len(),
        p != q,
    ensures
        plan.requests[p].parts_num != plan.requests[q].parts_num,
        plan.requests[p].spans.len() > 0,
{
    if p < q {
        assert(plan.requests@[p].parts_num != plan.requests@[q].parts_num);
    } else {
        assert(plan.requests@[q].parts_num != plan.requests@[p].parts_num);
    }
    assert(plan.requests@[p].spans.len() > 0);
}

} // verus!
