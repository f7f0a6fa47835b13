//! Reading byte ranges of an object.
use vstd::prelude::*;

use crate::bytes::{copy_into, zeros};
use crate::s3::datastore::{Datastore, Object};
use crate::s3::error::S3Error;
use crate::s3::extract;
use crate::s3::parts;
use crate::s3::parts::Part;
use crate::s3::plan;
use crate::s3::plan::{plan_ranges, GetObject, Span};
use crate::s3::put;
use crate::s3::put::PutMoment;
use crate::s3::update;
use crate::s3::update::UpdateObject;
use crate::s3::upload;

verus! {

/// For every request of the plan and every span of it, `data` has the bytes.
spec fn data_fits(plan: GetObject, data: Seq<Vec<Vec<u8>>>) -> bool {
    &&& data.len() == plan.requests.len()
    &&& forall|q: int|
        0 <= q < data.len() ==> (#[trigger] data[q]).len() == plan.requests[q].spans.len()
    &&& forall|q: int, s: int|
        0 <= q < data.len() && 0 <= s < data[q].len() ==> (#[trigger] data[q][s]).len()
            == plan.requests[q].spans[s].len
}

/// `parts` are the ranges of the plan, one run of bytes for each, with every byte taken from the
/// span that brings it.
spec fn assembled(plan: GetObject, data: Seq<Vec<Vec<u8>>>, parts: Seq<Part>) -> bool {
    &&& parts.len() == plan.ranges.len()
    &&& forall|r: int|
        0 <= r < parts.len() ==> {
            &&& (#[trigger] parts[r]).offset == plan.ranges[r].0
            &&& parts[r].data.len() == plan.ranges[r].1
        }
    &&& forall|q: int, s: int, r: int, j: int| #[trigger]
        plan::brings(plan, q, s, r, j) ==> parts[r].data[j] == data[q][s][j
            - plan.requests[q].spans[s].at]
}

/// The first `q` requests, and the first `s` spans of the next one, are in their places.
spec fn placed(plan: GetObject, data: Seq<Vec<Vec<u8>>>, parts: Seq<Part>, q: int, s: int) -> bool {
    forall|q2: int, s2: int, r: int, j: int| #[trigger]
        plan::brings(plan, q2, s2, r, j) && (q2 < q || q2 == q && s2 < s) ==> parts[r].data[j]
            == data[q2][s2][j - plan.requests[q2].spans[s2].at]
}

/// The runs of bytes have the size of the ranges.
spec fn sized(ranges: Seq<(u64, u64)>, parts: Seq<Part>) -> bool {
    &&& parts.len() == ranges.len()
    &&& forall|r: int|
        0 <= r < parts.len() ==> {
            &&& (#[trigger] parts[r]).offset == ranges[r].0
            &&& parts[r].data.len() == ranges[r].1
        }
}

impl GetObject {
    /// A run of bytes for every range, still to be filled.
    fn blank_parts(&self) -> (parts: Vec<Part>)
        requires
            self.wf(),
        ensures
            sized(self.ranges@, parts@),
    {
        let mut parts: Vec<Part> = Vec::new();
        let mut r: usize = 0;
        while r < self.ranges.len()
            invariant
                self.wf(),
                0 <= r <= self.ranges.len(),
                parts.len() == r,
                forall|i: int|
                    0 <= i < r ==> {
                        &&& (#[trigger] parts@[i]).offset == self.ranges[i].0
                        &&& parts@[i].data.len() == self.ranges[i].1
                    },
            decreases self.ranges.len() - r,
        {
            let (offset, len) = self.ranges[r];
            proof {
                assert(self.ranges@[r as int].1 <= usize::MAX);
            }
            parts.push(Part { offset, data: zeros(len as usize) });
            r += 1;
        }
        parts
    }

    /// Puts the bytes of all the spans in their places, one run of bytes for each range.
    fn assemble(&self, data: &Vec<Vec<Vec<u8>>>) -> (parts: Vec<Part>)
        requires
            self.wf(),
            data_fits(*self, data@),
        ensures
            assembled(*self, data@, parts@),
    {
        let mut parts: Vec<Part> = self.blank_parts();
        let mut q: usize = 0;
        while q < self.requests.len()
            invariant
                self.wf(),
                data_fits(*self, data@),
                sized(self.ranges@, parts@),
                0 <= q <= self.requests.len(),
                placed(*self, data@, parts@, q as int, 0),
            decreases self.requests.len() - q,
        {
            let mut s: usize = 0;
            while s < self.requests[q].spans.len()
                invariant
                    self.wf(),
                    data_fits(*self, data@),
                    sized(self.ranges@, parts@),
                    0 <= q < self.requests.len(),
                    0 <= s <= self.requests[q as int].spans.len(),
                    placed(*self, data@, parts@, q as int, s as int),
                decreases self.requests[q as int].spans.len() - s,
            {
                let span: Span = self.requests[q].spans[s];
                proof {
                    plan::lemma_plan_span(*self, q as int, s as int);
                    assert(data@[q as int].len() == self.requests[q as int].spans.len());
                    assert(data@[q as int][s as int].len() == span.len);
                }
                let ghost before = parts@;
                copy_into(&mut parts[span.range].data, span.at, &data[q][s]);
                proof {
                    let now = parts@;
                    let r = span.range as int;
                    assert forall|i: int| 0 <= i < now.len() && i != r implies #[trigger] now[i]
                        == before[i] by {}
                    assert forall|q2: int, s2: int, r2: int, j: int| #[trigger]
                        plan::brings(*self, q2, s2, r2, j) && (q2 < q || q2 == q && s2
                            < s + 1) implies now[r2].data[j] == data[q2][s2][j
                        - self.requests[q2].spans[s2].at] by {
                        plan::lemma_plan_span(*self, q2, s2);
                        if q2 != q || s2 != s {
                            assert(before[r2].data[j] == data[q2][s2][j
                                - self.requests[q2].spans[s2].at]);
                            if r2 == r {
                                plan::lemma_plan_disjoint(*self, q as int, s as int, q2, s2);
                            }
                        }
                    }
                }
                s += 1;
            }
            q += 1;
        }
        parts
    }
}

/// `res` is what starting the reading of some byte ranges of the object `key` comes to.
pub open spec fn get_started(
    store: Map<Seq<char>, Object>,
    key: Seq<char>,
    ranges: Seq<(u64, u64)>,
    res: Result<Option<GetObject>, S3Error>,
) -> bool {
    if ranges.len() == 0 {
        res == Ok::<Option<GetObject>, S3Error>(None)
    } else if !store.contains_key(key) {
        res matches Err(S3Error::NotFound { key: missing }) && missing@ == key
    } else {
        res matches Ok(Some(plan)) && plan.wf() && plan.ranges@ == ranges && plan.part_size
            == store[key].part_size
    }
}

/// Starts the reading of some byte ranges `(offset, len)` of an object. With no ranges there is
/// nothing to read.
pub fn get_object_with_ranges(store: &Datastore, key: &str, ranges: &[(u64, u64)]) -> (res: Result<
    Option<GetObject>,
    S3Error,
>)
    requires
        store.wf(),
        ranges@.len() > 0 && store@.contains_key(key@) ==> plan::ranges_fit(
            ranges@,
            store@[key@].part_size,
        ),
    ensures
        if ranges@.len() == 0 {
            res == Ok::<Option<GetObject>, S3Error>(None)
        } else if !store@.contains_key(key@) {
            res matches Err(S3Error::NotFound { key: missing }) && missing@ == key@
        } else {
            res matches Ok(Some(plan)) && plan.wf() && plan.ranges@ == ranges@ && plan.part_size
                == store@[key@].part_size
        },
        get_started(store@, key@, ranges@, res),
{
    if ranges.len() == 0 {
        return Ok(None);
    }
    match store.get(key) {
        None => Err(S3Error::NotFound { key: String::from_str(key) }),
        Some(obj) => Ok(Some(plan_ranges(ranges, obj.part_size))),
    }
}

/// The runs of bytes are all cut out of `part`.
pub open spec fn cut_from(runs: Seq<Part>, part: Seq<u8>) -> bool {
    forall|i: int|
        0 <= i < runs.len() ==> {
            &&& (#[trigger] runs[i]).offset + runs[i].data.len() <= part.len()
            &&& runs[i].data@ == part.subrange(
                runs[i].offset as int,
                runs[i].offset + runs[i].data.len(),
            )
        }
}

/// Every request of a plan can be sent and answered.
pub proof fn lemma_request_wf(plan: GetObject, q: int)
    requires
        plan.wf(),
        0 <= q < plan.requests.len(),
    ensures
        plan.requests[q].wf(),
{
    assert(plan.requests@[q].spans.len() > 0);
    assert forall|s: int| 0 <= s < plan.requests[q].spans.len() implies (
    #[trigger] plan.requests[q].spans[s]).len > 0 && plan.requests[q].spans[s].start
        + plan.requests[q].spans[s].len <= usize::MAX by {
        plan::lemma_plan_span(plan, q, s);
    }
}

/// `byte` is what the runs of bytes have at the place `k` of `span`: of the runs that hold all of
/// the span, the first one counts.
pub open spec fn span_byte(runs: Seq<Part>, span: Span, k: int, byte: u8) -> bool {
    exists|i: int|
        #[trigger] extract::serves(runs, i, span.start as nat, span.len as nat) && byte
            == runs[i].data[span.start - runs[i].offset + k]
}

/// `parts` are the ranges of the plan, one run of bytes for each, every byte taken from what the
/// part where it lies was answered with.
pub open spec fn filled(plan: GetObject, runs: Seq<Vec<Part>>, parts: Seq<Part>) -> bool {
    &&& parts.len() == plan.ranges.len()
    &&& forall|r: int|
        0 <= r < parts.len() ==> {
            &&& (#[trigger] parts[r]).offset == plan.ranges[r].0
            &&& parts[r].data.len() == plan.ranges[r].1
        }
    &&& forall|q: int, s: int, r: int, j: int| #[trigger]
        plan::brings(plan, q, s, r, j) ==> span_byte(
            runs[q]@,
            plan.requests[q].spans[s],
            j - plan.requests[q].spans[s].at,
            parts[r].data[j],
        )
}

/// The request `q` was answered without all of its span `s`.
pub open spec fn left_out(plan: GetObject, runs: Seq<Vec<Part>>, q: int, s: int) -> bool {
    &&& 0 <= q < plan.requests.len()
    &&& 0 <= s < plan.requests[q].spans.len()
    &&& extract::unserved(runs[q]@, plan.requests[q].spans[s])
}

impl GetObject {
    /// Puts the ranges together from what the requests were answered with.
    pub fn finish(&self, runs: &Vec<Vec<Part>>) -> (res: Result<Vec<Part>, S3Error>)
        requires
            self.wf(),
            runs.len() == self.requests.len(),
            forall|q: int| 0 <= q < runs.len() ==> extract::parts_fit((#[trigger] runs[q])@),
        ensures
            match res {
                Ok(parts) => {
                    &&& filled(*self, runs@, parts@)
                    &&& forall|q: int, s: int| !#[trigger] left_out(*self, runs@, q, s)
                },
                Err(error) => {
                    &&& error == S3Error::ParseRanges
                    &&& exists|q: int, s: int| #[trigger] left_out(*self, runs@, q, s)
                },
            },
    {
        let mut data: Vec<Vec<Vec<u8>>> = Vec::new();
        let mut q: usize = 0;
        while q < self.requests.len()
            invariant
                self.wf(),
                runs.len() == self.requests.len(),
                forall|p: int| 0 <= p < runs.len() ==> extract::parts_fit((#[trigger] runs[p])@),
                0 <= q <= self.requests.len(),
                data.len() == q,
                forall|p: int|
                    0 <= p < q ==> (#[trigger] data[p]).len() == self.requests[p].spans.len(),
                forall|p: int, s: int|
                    0 <= p < q && 0 <= s < data[p].len() ==> extract::span_data(
                        runs[p]@,
                        self.requests[p].spans[s],
                        (#[trigger] data[p][s])@,
                    ),
            decreases self.requests.len() - q,
        {
            proof {
                lemma_request_wf(*self, q as int);
            }
            match self.requests[q].extract(&runs[q]) {
                Ok(spans) => {
                    data.push(spans);
                },
                Err(error) => {
                    proof {
                        let s = choose|s: int|
                            0 <= s < self.requests[q as int].spans.len() && extract::unserved(
                                runs[q as int]@,
                                #[trigger] self.requests[q as int].spans[s],
                            );
                        assert(left_out(*self, runs@, q as int, s));
                    }
                    return Err(error);
                },
            }
            q += 1;
        }
        let parts: Vec<Part> = self.assemble(&data);
        proof {
            assert forall|q: int, s: int, r: int, j: int| #[trigger]
                plan::brings(*self, q, s, r, j) implies span_byte(
                runs[q]@,
                self.requests[q].spans[s],
                j - self.requests[q].spans[s].at,
                parts[r].data[j],
            ) by {
                let span = self.requests[q].spans[s];
                assert(data[q].len() == self.requests[q].spans.len());
                assert(extract::span_data(runs[q]@, span, data[q][s]@));
                let i = choose|i: int|
                    #[trigger] extract::serves(runs[q]@, i, span.start as nat, span.len as nat)
                        && data[q][s]@ == runs[q][i].data@.subrange(
                        span.start - runs[q][i].offset,
                        span.start - runs[q][i].offset + span.len,
                    );
                assert(extract::serves(runs[q]@, i, span.start as nat, span.len as nat));
            }
            assert forall|q: int, s: int| !#[trigger] left_out(*self, runs@, q, s) by {
                if left_out(*self, runs@, q, s) {
                    assert(data[q].len() == self.requests[q].spans.len());
                    assert(extract::span_data(
                        runs[q]@,
                        self.requests[q].spans[s],
                        data[q][s]@,
                    ));
                }
            }
        }
        Ok(parts)
    }
}

/// What is read of a range are the bytes of the object from the range's offset on, as long as the
/// responses hold nothing that is not in the stored parts.
pub proof fn law_get_reads_object(
    plan: GetObject,
    stored: Map<nat, Seq<u8>>,
    runs: Seq<Vec<Part>>,
    read: Seq<Part>,
)
    requires
        plan.wf(),
        forall|q: int|
            0 <= q < plan.requests.len() ==> cut_from(
                (#[trigger] runs[q])@,
                stored[plan.requests[q].parts_num as nat],
            ),
        filled(plan, runs, read),
    ensures
        read.len() == plan.ranges.len(),
        forall|r: int|
            0 <= r < read.len() ==> {
                &&& (#[trigger] read[r]).offset == plan.ranges[r].0
                &&& read[r].data@ == parts::object_bytes(
                    stored,
                    plan.part_size as nat,
                    plan.ranges[r].0 as nat,
                    plan.ranges[r].1 as nat,
                )
            },
{
    let ps = plan.part_size as nat;
    assert forall|r: int| 0 <= r < read.len() implies {
        &&& (#[trigger] read[r]).offset == plan.ranges[r].0
        &&& read[r].data@ == parts::object_bytes(
            stored,
            ps,
            plan.ranges[r].0 as nat,
            plan.ranges[r].1 as nat,
        )
    } by {
        let whole = parts::object_bytes(
            stored,
            ps,
            plan.ranges[r].0 as nat,
            plan.ranges[r].1 as nat,
        );
        assert forall|j: int| 0 <= j < plan.ranges[r].1 implies #[trigger] read[r].data@[j]
            == whole[j] by {
            let (q, s) = plan::law_every_byte_asked_once(plan, r, j);
            assert(plan::brings(plan, q, s, r, j));
            let span = plan.requests[q].spans[s];
            assert(cut_from(runs[q]@, stored[plan.requests[q].parts_num as nat]));
            let k = j - span.at;
            assert(span_byte(runs[q]@, span, k, read[r].data@[j]));
            let i = choose|i: int|
                #[trigger] extract::serves(runs[q]@, i, span.start as nat, span.len as nat)
                    && read[r].data@[j] == runs[q][i].data[span.start - runs[q][i].offset + k];
            let run = runs[q]@[i];
            assert(extract::holds(run, span.start as nat, span.len as nat));
        }
        assert(read[r].data@ =~= whole);
    }
}

/// The responses that hold every span that was asked for are enough.
pub proof fn law_full_answers_suffice(plan: GetObject, runs: Seq<Vec<Part>>)
    requires
        plan.wf(),
        runs.len() == plan.requests.len(),
        forall|q: int, s: int|
            0 <= q < plan.requests.len() && 0 <= s < plan.requests[q].spans.len()
                ==> #[trigger] extract::has_span(runs[q]@, plan.requests[q].spans[s]),
    ensures
        forall|q: int, s: int| !#[trigger] left_out(plan, runs, q, s),
{
    assert forall|q: int, s: int| !#[trigger] left_out(plan, runs, q, s) by {
        if left_out(plan, runs, q, s) {
            let span = plan.requests[q].spans[s];
            assert(extract::has_span(runs[q]@, span));
            let i = choose|i: int|
                0 <= i < runs[q]@.len() && extract::holds(
                    #[trigger] runs[q]@[i],
                    span.start as nat,
                    span.len as nat,
                );
            assert(!extract::holds(runs[q]@[i], span.start as nat, span.len as nat));
        }
    }
}

/// What is read of an object that was put is what was put, unless a part with other bytes was
/// stored in full before.
pub proof fn law_put_then_get(
    before: Map<nat, Seq<u8>>,
    content: Seq<u8>,
    stored: Map<nat, Seq<u8>>,
    plan: GetObject,
    runs: Seq<Vec<Part>>,
    read: Seq<Part>,
)
    requires
        plan.wf(),
        put::put_result(before, content, plan.part_size as nat, stored),
        put::no_other_parts(before, content, plan.part_size as nat),
        forall|r: int|
            0 <= r < plan.ranges.len() ==> (#[trigger] plan.ranges[r]).0 + plan.ranges[r].1
                <= content.len(),
        forall|q: int|
            0 <= q < plan.requests.len() ==> cut_from(
                (#[trigger] runs[q])@,
                stored[plan.requests[q].parts_num as nat],
            ),
        filled(plan, runs, read),
    ensures
        read.len() == plan.ranges.len(),
        forall|r: int|
            0 <= r < read.len() ==> (#[trigger] read[r]).data@ == content.subrange(
                plan.ranges[r].0 as int,
                plan.ranges[r].0 + plan.ranges[r].1,
            ),
{
    law_get_reads_object(plan, stored, runs, read);
    assert forall|r: int| 0 <= r < read.len() implies (#[trigger] read[r]).data@
        == content.subrange(plan.ranges[r].0 as int, plan.ranges[r].0 + plan.ranges[r].1) by {
        let range = plan.ranges[r];
        put::law_put_reads_back(
            before,
            content,
            plan.part_size as nat,
            stored,
            range.0 as nat,
            range.1 as nat,
        );
    }
}

/// What is read of an object after an update is what was written by it, and what was there before
/// at all other positions.
pub proof fn law_update_then_get(
    before: Map<nat, Seq<u8>>,
    offset: nat,
    content: Seq<u8>,
    stored: Map<nat, Seq<u8>>,
    plan: GetObject,
    runs: Seq<Vec<Part>>,
    read: Seq<Part>,
)
    requires
        plan.wf(),
        update::update_result(before, offset, content, plan.part_size as nat, stored),
        forall|q: int|
            0 <= q < plan.requests.len() ==> cut_from(
                (#[trigger] runs[q])@,
                stored[plan.requests[q].parts_num as nat],
            ),
        filled(plan, runs, read),
    ensures
        read.len() == plan.ranges.len(),
        forall|r: int, j: int|
            0 <= r < read.len() && 0 <= j < plan.ranges[r].1 ==> {
                let pos = (plan.ranges[r].0 + j) as nat;
                let byte = #[trigger] read[r].data@[j];
                if offset <= pos < offset + content.len() {
                    byte == content[pos - offset]
                } else {
                    before.contains_key(pos / (plan.part_size as nat)) ==> byte
                        == parts::object_byte(before, plan.part_size as nat, pos)
                }
            },
{
    let ps = plan.part_size as nat;
    law_get_reads_object(plan, stored, runs, read);
    assert forall|r: int, j: int|
        0 <= r < read.len() && 0 <= j < plan.ranges[r].1 implies {
        let pos = (plan.ranges[r].0 + j) as nat;
        let byte = #[trigger] read[r].data@[j];
        if offset <= pos < offset + content.len() {
            byte == content[pos - offset]
        } else {
            before.contains_key(pos / ps) ==> byte == parts::object_byte(before, ps, pos)
        }
    } by {
        let pos = (plan.ranges[r].0 + j) as nat;
        assert(read[r].data@ == parts::object_bytes(
            stored,
            ps,
            plan.ranges[r].0 as nat,
            plan.ranges[r].1 as nat,
        ));
        assert(read[r].data@[j] == parts::object_byte(stored, ps, pos));
        if offset <= pos < offset + content.len() || before.contains_key(pos / ps) {
            update::law_update_reads_back(before, offset, content, ps, stored, pos);
        }
    }
}

/// Every answer that reaches over the spans that were asked for is enough.
pub proof fn law_covering_answers_suffice(
    plan: GetObject,
    runs: Seq<Vec<Part>>,
    covering: spec_fn(int, int) -> int,
)
    requires
        plan.wf(),
        runs.len() == plan.requests.len(),
        forall|q: int, s: int|
            #![trigger plan.requests[q].spans[s]]
            0 <= q < plan.requests.len() && 0 <= s < plan.requests[q].spans.len() ==> {
                let span = plan.requests[q].spans[s];
                let i = covering(q, s);
                &&& 0 <= i < runs[q].len()
                &&& runs[q][i].offset <= span.start
                &&& span.start + span.len <= runs[q][i].offset + runs[q][i].data.len()
            },
    ensures
        forall|q: int, s: int| !#[trigger] left_out(plan, runs, q, s),
{
    assert forall|q: int, s: int| !#[trigger] left_out(plan, runs, q, s) by {
        if left_out(plan, runs, q, s) {
            let span = plan.requests[q].spans[s];
            extract::law_covering_run_serves(runs[q]@, span, covering(q, s));
        }
    }
}

/// What was put is read back by what was recorded of it: any ranges within the size that is recorded
/// can be asked for, and what is read are those ranges of the content, unless a part with other bytes
/// was stored in full before.
pub proof fn law_recorded_put_then_get(
    key: Seq<char>,
    part_size: u64,
    content: Seq<u8>,
    run: Seq<PutMoment>,
    store: Map<Seq<char>, Object>,
    recorded: Map<Seq<char>, Object>,
    ranges: Seq<(u64, u64)>,
    started: Result<Option<GetObject>, S3Error>,
    runs: Seq<Vec<Part>>,
    read: Seq<Part>,
)
    requires
        // The put, to its end.
        content.len() <= u64::MAX,
        put::put_started(key, content.len() as u64, part_size, run[0].put),
        put::put_run(content, run),
        run.last().put.all_stored(),
        put::no_other_parts(run[0].stored, content, part_size as nat),
        run.last().put.recorded_in(store, recorded),
        // The get.
        ranges.len() > 0,
        forall|r: int|
            0 <= r < ranges.len() ==> (#[trigger] ranges[r]).0 + ranges[r].1
                <= recorded[key].total_size,
        get_started(recorded, key, ranges, started),
        started matches Ok(Some(plan)) ==> {
            &&& forall|q: int|
                0 <= q < plan.requests.len() ==> cut_from(
                    (#[trigger] runs[q])@,
                    run.last().stored[plan.requests[q].parts_num as nat],
                )
            &&& filled(plan, runs, read)
        },
    ensures
        recorded[key].total_size == content.len(),
        recorded[key].part_size == part_size,
        started matches Ok(Some(plan)) && plan.part_size == part_size,
        read.len() == ranges.len(),
        forall|r: int|
            0 <= r < read.len() ==> {
                &&& (#[trigger] read[r]).offset == ranges[r].0
                &&& read[r].data@ == content.subrange(
                    ranges[r].0 as int,
                    ranges[r].0 + ranges[r].1,
                )
            },
{
    put::law_put_keeps_its_terms(content, run, run.len() - 1);
    put::law_put_run(content, run);
    let obj = choose|obj: Object| #[trigger]
        run.last().put.is_object(obj) && recorded == store.insert(run.last().put.key@, obj);
    assert(recorded[key] == obj);
    let plan = (started->Ok_0)->0;
    assert(plan.part_size == part_size);
    law_put_then_get(run[0].stored, content, run.last().stored, plan, runs, read);
}

/// Every part that a get asks for of an object that was put is one of those that the put stored.
pub proof fn law_get_asks_for_stored_parts(
    content: Seq<u8>,
    run: Seq<PutMoment>,
    obj: Object,
    plan: GetObject,
    r: int,
    j: int,
) -> (q: int)
    requires
        put::put_run(content, run),
        run.last().put.all_stored(),
        run.last().put.is_object(obj),
        plan.wf(),
        plan.part_size == obj.part_size,
        0 <= r < plan.ranges.len(),
        0 <= j < plan.ranges[r].1,
        plan.ranges[r].0 + plan.ranges[r].1 <= obj.total_size,
    ensures
        0 <= q < plan.requests.len(),
        run.last().stored.contains_key(plan.requests[q].parts_num as nat),
        plan.requests[q].parts_num < obj.parts_len,
        plan.requests[q].parts_num * run[0].put.part_size <= plan.ranges[r].0 + j < (
        plan.requests[q].parts_num + 1) * run[0].put.part_size,
{
    let (q, s) = plan::law_every_byte_asked_once(plan, r, j);
    let ps = plan.part_size as nat;
    let pos = (plan.ranges[r].0 + j) as nat;
    let k = plan.requests[q].parts_num as nat;
    parts::lemma_position(pos, ps);
    put::law_put_keeps_its_terms(content, run, run.len() - 1);
    put::law_put_run(content, run);
    put::law_recorded_object_describes_content(content, run, obj, k);
    assert(run.last().stored.dom().contains(k)) by {
        upload::lemma_piece_bounds(content.len(), ps, k);
    }
    q
}

/// What an update wrote is read back by what is recorded of the object: the update and the get take
/// the parts to be of the size that is recorded, and the bytes that are read are the new ones where
/// the update wrote, and what was there before elsewhere.
pub proof fn law_recorded_update_then_get(
    store: Map<Seq<char>, Object>,
    key: Seq<char>,
    offset: u64,
    content: Seq<u8>,
    states: Seq<UpdateObject>,
    stores: Seq<Map<nat, Seq<u8>>>,
    ranges: Seq<(u64, u64)>,
    plan: GetObject,
    runs: Seq<Vec<Part>>,
    read: Seq<Part>,
    r: int,
    j: int,
)
    requires
        store.contains_key(key),
        content.len() <= u64::MAX,
        // The update, to its end.
        update::update_started(store, key, offset, content.len() as u64, Ok(states[0])),
        update::update_run(content, states, stores),
        states.last().done,
        // The get.
        get_started(store, key, ranges, Ok(Some(plan))),
        forall|q: int|
            0 <= q < plan.requests.len() ==> cut_from(
                (#[trigger] runs[q])@,
                stores.last()[plan.requests[q].parts_num as nat],
            ),
        filled(plan, runs, read),
        0 <= r < ranges.len(),
        0 <= j < ranges[r].1,
    ensures
        read.len() == ranges.len(),
        read[r].offset == ranges[r].0,
        read[r].data.len() == ranges[r].1,
        ({
            let pos = ranges[r].0 + j;
            let size = store[key].part_size as int;
            let k = (pos / size) as nat;
            let byte = read[r].data@[j];
            &&& offset <= pos < offset + content.len() ==> byte == content[pos - offset]
            &&& !(offset <= pos < offset + content.len()) && stores[0].contains_key(k) ==> byte
                == stores[0][k][pos % size]
        }),
{
    update::law_update_run(content, states, stores);
    law_get_reads_object(plan, stores.last(), runs, read);
    law_update_then_get(stores[0], offset as nat, content, stores.last(), plan, runs, read);
    let byte = read[r].data@[j];
}

} // verus!
