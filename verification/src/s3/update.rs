//! Overwriting bytes of an object.
use vstd::prelude::*;

use crate::bytes::{append_bytes, clone_bytes};
use crate::s3::datastore::{Datastore, Object};
use crate::s3::error::S3Error;
use crate::s3::parts;
use crate::s3::parts::part_key;
use crate::s3::range;
use crate::s3::range::range_header;
use crate::text;

verus! {

/// The overwriting of the `content_len` bytes from `offset` on, part by part.
#[derive(Debug)]
pub struct UpdateObject {
    pub key: String,
    pub part_size: u64,
    pub offset: u64,
    pub content_len: u64,
    /// The part that is to be overwritten next.
    pub parts_num: u64,
    /// Whether the last part was overwritten.
    pub done: bool,
}

/// How one part is put together: `head` bytes of the stored part, `body` new bytes, and `tail`
/// bytes of the stored part again.
#[derive(Debug, Clone, Copy, PartialEq, Eq)]
pub struct PartUpdate {
    pub parts_num: u64,
    pub head: usize,
    pub body: usize,
    pub tail: usize,
}

/// The last part that is overwritten.
pub open spec fn last_part(offset: nat, content_len: nat, part_size: nat) -> nat {
    if content_len == 0 {
        offset / part_size
    } else {
        (offset + content_len - 1) as nat / part_size
    }
}

/// How many bytes of the part `k` stay before the new ones.
pub open spec fn head_len(offset: nat, part_size: nat, k: nat) -> nat {
    if k * part_size < offset {
        (offset - k * part_size) as nat
    } else {
        0
    }
}

/// Where in the part `k` the new bytes end.
pub open spec fn body_end(offset: nat, content_len: nat, part_size: nat, k: nat) -> nat {
    if offset + content_len < (k + 1) * part_size {
        (offset + content_len - k * part_size) as nat
    } else {
        part_size
    }
}

/// The part `k` with the bytes of `content`, which starts at `offset`, over it.
pub open spec fn updated_part(
    part: Seq<u8>,
    offset: nat,
    content: Seq<u8>,
    part_size: nat,
    k: nat,
) -> Seq<u8> {
    Seq::new(
        part_size,
        |i: int|
            if offset <= k * part_size + i < offset + content.len() {
                content[k * part_size + i - offset]
            } else {
                part[i]
            },
    )
}

/// What the bounds of an overwritten part are.
proof fn lemma_part_bounds(offset: nat, content_len: nat, part_size: nat, k: nat)
    requires
        part_size > 0,
        offset / part_size <= k <= last_part(offset, content_len, part_size),
    ensures
        (k + 1) * part_size == k * part_size + part_size,
        offset < (k + 1) * part_size,
        k * part_size <= offset + content_len,
        head_len(offset, part_size, k) < part_size,
        head_len(offset, part_size, k) <= body_end(offset, content_len, part_size, k) <= part_size,
        k == offset / part_size ==> head_len(offset, part_size, k) == offset % part_size,
        k > offset / part_size ==> head_len(offset, part_size, k) == 0,
        k < last_part(offset, content_len, part_size) ==> body_end(
            offset,
            content_len,
            part_size,
            k,
        ) == part_size,
{
    let first = offset / part_size;
    let last = last_part(offset, content_len, part_size);
    parts::lemma_position(offset, part_size);
    vstd::arithmetic::mul::lemma_mul_is_distributive_add_other_way(part_size as int, k as int, 1);
    if first < k {
        parts::lemma_part_order(first, k, part_size);
    }
    if content_len > 0 {
        parts::lemma_position((offset + content_len - 1) as nat, part_size);
    }
    if k < last {
        parts::lemma_part_order(k, last, part_size);
    }
}

impl UpdateObject {
    pub open spec fn wf(self) -> bool {
        &&& 0 < self.part_size <= usize::MAX
        &&& self.offset + self.content_len <= u64::MAX
        &&& self.offset as nat / self.part_size as nat <= self.parts_num <= self.last()
        &&& self.done ==> self.parts_num == self.last()
    }

    /// The last part that is overwritten.
    pub open spec fn last(self) -> nat {
        last_part(self.offset as nat, self.content_len as nat, self.part_size as nat)
    }

    /// The update after one more part was overwritten.
    pub open spec fn advanced(self) -> UpdateObject {
        if self.parts_num == self.last() {
            UpdateObject { done: true, ..self }
        } else {
            UpdateObject { parts_num: (self.parts_num + 1) as u64, ..self }
        }
    }

    /// How the next part is put together.
    pub open spec fn is_next_part(self, part: PartUpdate) -> bool {
        let (o, c, p) = (self.offset as nat, self.content_len as nat, self.part_size as nat);
        let k = self.parts_num as nat;
        &&& part.parts_num == k
        &&& part.head == head_len(o, p, k)
        &&& part.head + part.body == body_end(o, c, p, k)
        &&& part.head + part.body + part.tail == p
    }

    /// How the next part is put together, if one is left.
    pub fn next_part(&self) -> (r: Option<PartUpdate>)
        requires
            self.wf(),
        ensures
            match r {
                None => self.done,
                Some(part) => !self.done && self.is_next_part(part),
            },
    {
        if self.done {
            return None;
        }
        proof {
            lemma_part_bounds(
                self.offset as nat,
                self.content_len as nat,
                self.part_size as nat,
                self.parts_num as nat,
            );
        }
        let start: u64 = self.parts_num * self.part_size;
        let head: u64 = if start < self.offset {
            self.offset - start
        } else {
            0
        };
        let left: u64 = self.offset + self.content_len - start;
        let end: u64 = if left < self.part_size {
            left
        } else {
            self.part_size
        };
        Some(
            PartUpdate {
                parts_num: self.parts_num,
                head: head as usize,
                body: (end - head) as usize,
                tail: (self.part_size - end) as usize,
            },
        )
    }

    /// The bucket key of the next part.
    pub open spec fn next_bucket_key(self) -> Seq<char> {
        parts::part_key_text(self.key@, self.parts_num as nat)
    }

    /// The bucket key of the next part.
    pub fn next_key(&self) -> (key: String)
        ensures
            key@ == parts::part_key_text(self.key@, self.parts_num as nat),
            key@ == self.next_bucket_key(),
    {
        part_key(self.key.as_str(), self.parts_num)
    }

    /// Goes on behind the part that was just uploaded.
    pub fn part_uploaded(&mut self)
        requires
            old(self).wf(),
            !old(self).done,
        ensures
            final(self).wf(),
            *final(self) == old(self).advanced(),
    {
        let last: u64 = if self.content_len == 0 {
            self.offset / self.part_size
        } else {
            (self.offset + self.content_len - 1) / self.part_size
        };
        if self.parts_num == last {
            self.done = true;
        } else {
            self.parts_num += 1;
        }
    }
}

impl PartUpdate {
    /// The value of the `Range` header that asks for the bytes that stay in front, if any do.
    pub fn head_range(&self) -> (r: Option<String>)
        ensures
            match r {
                Some(header) => self.head > 0 && header@ == "bytes="@ + range::byte_range(
                    0,
                    (self.head - 1) as nat,
                ),
                None => self.head == 0,
            },
            r matches Some(header) ==> range::asks_for(header@, 0, (self.head - 1) as nat),
    {
        if self.head == 0 {
            None
        } else {
            Some(range_header(0, self.head as u64 - 1))
        }
    }

    /// The value of the `Range` header that asks for the bytes that stay behind, if any do.
    pub fn tail_range(&self) -> (r: Option<String>)
        requires
            self.head + self.body + self.tail <= usize::MAX,
        ensures
            match r {
                Some(header) => self.tail > 0 && header@ == "bytes="@ + range::byte_range(
                    (self.head + self.body) as nat,
                    (self.head + self.body + self.tail - 1) as nat,
                ),
                None => self.tail == 0,
            },
            r matches Some(header) ==> range::asks_for(
                header@,
                (self.head + self.body) as nat,
                (self.head + self.body + self.tail - 1) as nat,
            ),
    {
        if self.tail == 0 {
            None
        } else {
            let start: usize = self.head + self.body;
            Some(range_header(start as u64, (start + self.tail) as u64 - 1))
        }
    }

    /// The new part, from what stays in front, what is new and what stays behind.
    pub open spec fn put_together(self, head: Seq<u8>, body: Seq<u8>, tail: Seq<u8>) -> Seq<u8> {
        head + body + tail
    }

    /// The new part, from what stays in front, what is new and what stays behind.
    pub fn replacement(&self, head: &Vec<u8>, body: &Vec<u8>, tail: &Vec<u8>) -> (r: Vec<u8>)
        requires
            head.len() == self.head,
            body.len() == self.body,
            tail.len() == self.tail,
        ensures
            r@ == head@ + body@ + tail@,
            r@ == self.put_together(head@, body@, tail@),
    {
        let mut r: Vec<u8> = clone_bytes(head);
        append_bytes(&mut r, body.as_slice());
        append_bytes(&mut r, tail.as_slice());
        r
    }
}

/// Starts the overwriting of the `content_len` bytes from `offset` on of an object.
pub fn update_object(store: &Datastore, key: &str, offset: u64, content_len: u64) -> (res: Result<
    UpdateObject,
    S3Error,
>)
    requires
        store.wf(),
        store@.contains_key(key@) ==> 0 < store@[key@].part_size <= usize::MAX && offset
            + content_len <= u64::MAX,
    ensures
        if store@.contains_key(key@) {
            res matches Ok(update) && update.wf() && update.key@ == key@ && update.part_size
                == store@[key@].part_size && update.offset == offset && update.content_len
                == content_len && update.parts_num == offset / store@[key@].part_size
                && !update.done
        } else {
            res matches Err(S3Error::NotFound { key: missing }) && missing@ == key@
        },
        update_started(store@, key@, offset, content_len, res),
{
    match store.get(key) {
        None => Err(S3Error::NotFound { key: String::from_str(key) }),
        Some(obj) => {
            let parts_num: u64 = offset / obj.part_size;
            proof {
                if content_len > 0 {
                    vstd::arithmetic::div_mod::lemma_div_is_ordered(
                        offset as int,
                        offset + content_len - 1,
                        obj.part_size as int,
                    );
                }
            }
            Ok(
                UpdateObject {
                    key: String::from_str(key),
                    part_size: obj.part_size,
                    offset,
                    content_len,
                    parts_num,
                    done: false,
                },
            )
        },
    }
}

/// The part `k` put together: what stays in front, its share of the content, and what stays
/// behind.
pub open spec fn replaced_part(
    part: Seq<u8>,
    offset: nat,
    content: Seq<u8>,
    part_size: nat,
    k: nat,
) -> Seq<u8> {
    let head = head_len(offset, part_size, k) as int;
    let end = body_end(offset, content.len(), part_size, k) as int;
    let from = k * part_size + head - offset;
    (if head > 0 {
        part.subrange(0, head)
    } else {
        Seq::empty()
    }) + content.subrange(from, from + (end - head)) + (if end < part_size {
        part.subrange(end, part_size as int)
    } else {
        Seq::empty()
    })
}

/// Something of the stored part `k` stays.
pub open spec fn keeps_some(offset: nat, content_len: nat, part_size: nat, k: nat) -> bool {
    head_len(offset, part_size, k) > 0 || body_end(offset, content_len, part_size, k) < part_size
}

/// A part that is put together of what is stored and of its share of the content is that part
/// with the content over it.
pub proof fn law_replacement_updates_part(
    part: Seq<u8>,
    offset: nat,
    content: Seq<u8>,
    part_size: nat,
    k: nat,
)
    requires
        part_size > 0,
        keeps_some(offset, content.len(), part_size, k) ==> part.len() == part_size,
        offset / part_size <= k <= last_part(offset, content.len(), part_size),
    ensures
        replaced_part(part, offset, content, part_size, k) == updated_part(
            part,
            offset,
            content,
            part_size,
            k,
        ),
{
    lemma_part_bounds(offset, content.len(), part_size, k);
    assert(replaced_part(part, offset, content, part_size, k) =~= updated_part(
        part,
        offset,
        content,
        part_size,
        k,
    ));
}

/// One part of an update: what stays is fetched, and the part that is put together is stored.
pub open spec fn update_step(
    before: UpdateObject,
    stored: Map<nat, Seq<u8>>,
    content: Seq<u8>,
    after: UpdateObject,
    stored_after: Map<nat, Seq<u8>>,
) -> bool {
    let (o, p) = (before.offset as nat, before.part_size as nat);
    let k = before.parts_num as nat;
    &&& !before.done
    &&& keeps_some(o, content.len(), p, k) ==> stored.contains_key(k) && stored[k].len() == p
    &&& after == before.advanced()
    &&& stored_after == stored.insert(k, replaced_part(stored[k], o, content, p, k))
}

/// What is stored after the parts from `first` to before `next` were overwritten.
pub open spec fn updated_parts(
    before: Map<nat, Seq<u8>>,
    offset: nat,
    content: Seq<u8>,
    part_size: nat,
    first: nat,
    next: nat,
    after: Map<nat, Seq<u8>>,
) -> bool {
    &&& forall|k: nat| #[trigger]
        after.contains_key(k) <==> before.contains_key(k) || first <= k < next
    &&& forall|k: nat| #[trigger]
        after.contains_key(k) ==> after[k] == (if first <= k < next {
            updated_part(before[k], offset, content, part_size, k)
        } else {
            before[k]
        })
}

/// What an update leaves behind: the parts from the first to the last with the content over them.
pub open spec fn update_result(
    before: Map<nat, Seq<u8>>,
    offset: nat,
    content: Seq<u8>,
    part_size: nat,
    after: Map<nat, Seq<u8>>,
) -> bool {
    updated_parts(
        before,
        offset,
        content,
        part_size,
        offset / part_size,
        last_part(offset, content.len(), part_size) + 1,
        after,
    )
}

/// A run of an update: `states` and `stores` are the update and what is stored, before the first
/// part and after each.
pub open spec fn update_run(
    content: Seq<u8>,
    states: Seq<UpdateObject>,
    stores: Seq<Map<nat, Seq<u8>>>,
) -> bool {
    &&& states.len() == stores.len()
    &&& states.len() > 0
    &&& states[0].wf()
    &&& states[0].parts_num == states[0].offset / states[0].part_size
    &&& !states[0].done
    &&& states[0].content_len == content.len()
    &&& forall|i: int|
        0 <= i < states.len() - 1 ==> update_step(
            #[trigger] states[i],
            stores[i],
            content,
            states[i + 1],
            stores[i + 1],
        )
}

/// An update that goes on to its end leaves the parts with the content over them.
pub proof fn law_update_run(
    content: Seq<u8>,
    states: Seq<UpdateObject>,
    stores: Seq<Map<nat, Seq<u8>>>,
)
    requires
        update_run(content, states, stores),
        states.last().done,
    ensures
        update_result(
            stores[0],
            states[0].offset as nat,
            content,
            states[0].part_size as nat,
            stores.last(),
        ),
{
    lemma_update_run(content, states, stores, states.len() - 1);
}

/// An update that is cut short leaves the parts before the next one with the content over them, and
/// all others as they were.
pub proof fn law_update_cut_short(
    content: Seq<u8>,
    states: Seq<UpdateObject>,
    stores: Seq<Map<nat, Seq<u8>>>,
)
    requires
        update_run(content, states, stores),
        !states.last().done,
    ensures
        states.last().parts_num <= states[0].last(),
        updated_parts(
            stores[0],
            states[0].offset as nat,
            content,
            states[0].part_size as nat,
            states[0].offset as nat / states[0].part_size as nat,
            states.last().parts_num as nat,
            stores.last(),
        ),
{
    lemma_update_run(content, states, stores, states.len() - 1);
}

/// One more part of an update.
proof fn lemma_update_more(
    before: Map<nat, Seq<u8>>,
    stored: Map<nat, Seq<u8>>,
    offset: nat,
    content: Seq<u8>,
    part_size: nat,
    k: nat,
    stored_after: Map<nat, Seq<u8>>,
)
    requires
        part_size > 0,
        offset / part_size <= k <= last_part(offset, content.len(), part_size),
        updated_parts(before, offset, content, part_size, offset / part_size, k, stored),
        keeps_some(offset, content.len(), part_size, k) ==> stored.contains_key(k)
            && stored[k].len() == part_size,
        stored_after == stored.insert(
            k,
            replaced_part(stored[k], offset, content, part_size, k),
        ),
    ensures
        updated_parts(before, offset, content, part_size, offset / part_size, k + 1, stored_after),
{
    law_replacement_updates_part(stored[k], offset, content, part_size, k);
    lemma_part_bounds(offset, content.len(), part_size, k);
    assert(updated_part(stored[k], offset, content, part_size, k) =~= updated_part(
        before[k],
        offset,
        content,
        part_size,
        k,
    )) by {
        if stored.contains_key(k) {
            assert(stored[k] == before[k]);
        } else {
            assert(!keeps_some(offset, content.len(), part_size, k));
        }
    }
    assert forall|j: nat| #[trigger] stored_after.contains_key(j) implies stored_after[j] == (
    if offset / part_size <= j < k + 1 {
        updated_part(before[j], offset, content, part_size, j)
    } else {
        before[j]
    }) by {
        if j != k {
            assert(stored.contains_key(j));
        }
    }
}

/// What is stored after some of the parts of an update.
pub proof fn lemma_update_run(
    content: Seq<u8>,
    states: Seq<UpdateObject>,
    stores: Seq<Map<nat, Seq<u8>>>,
    n: int,
)
    requires
        update_run(content, states, stores),
        0 <= n < states.len(),
    ensures
        states[n].wf(),
        states[n].offset == states[0].offset,
        states[n].content_len == states[0].content_len,
        states[n].part_size == states[0].part_size,
        updated_parts(
            stores[0],
            states[0].offset as nat,
            content,
            states[0].part_size as nat,
            states[0].offset as nat / states[0].part_size as nat,
            if states[n].done {
                states[n].parts_num as nat + 1
            } else {
                states[n].parts_num as nat
            },
            stores[n],
        ),
    decreases n,
{
    if n > 0 {
        let m = n - 1;
        lemma_update_run(content, states, stores, m);
        assert(update_step(states[m], stores[m], content, states[m + 1], stores[m + 1]));
        lemma_update_more(
            stores[0],
            stores[m],
            states[0].offset as nat,
            content,
            states[0].part_size as nat,
            states[m].parts_num as nat,
            stores[n],
        );
    }
}

/// After an update the new bytes are where they were written, and all others are as before.
pub proof fn law_update_reads_back(
    before: Map<nat, Seq<u8>>,
    offset: nat,
    content: Seq<u8>,
    part_size: nat,
    after: Map<nat, Seq<u8>>,
    pos: nat,
)
    requires
        part_size > 0,
        update_result(before, offset, content, part_size, after),
        offset <= pos < offset + content.len() || before.contains_key(pos / part_size),
    ensures
        parts::object_byte(after, part_size, pos) == (if offset <= pos < offset + content.len() {
            content[pos - offset]
        } else {
            parts::object_byte(before, part_size, pos)
        }),
{
    let k = pos / part_size;
    parts::lemma_position(pos, part_size);
    if offset <= pos < offset + content.len() {
        vstd::arithmetic::div_mod::lemma_div_is_ordered(
            offset as int,
            pos as int,
            part_size as int,
        );
        vstd::arithmetic::div_mod::lemma_div_is_ordered(
            pos as int,
            offset + content.len() - 1,
            part_size as int,
        );
    }
    assert(after.contains_key(k));
}

/// An update without content writes the part that it touches as it was.
pub proof fn law_empty_update_changes_nothing(
    before: Map<nat, Seq<u8>>,
    offset: nat,
    part_size: nat,
    after: Map<nat, Seq<u8>>,
)
    requires
        part_size > 0,
        update_result(before, offset, Seq::<u8>::empty(), part_size, after),
        before.contains_key(offset / part_size),
        before[offset / part_size].len() == part_size,
    ensures
        after == before,
{
    assert forall|k: nat| #[trigger] after.contains_key(k) implies after[k] == before[k] by {
        if k == offset / part_size {
            assert(updated_part(before[k], offset, Seq::<u8>::empty(), part_size, k)
                =~= before[k]);
        }
    }
    assert(after =~= before);
}

/// The new bytes of a part are exactly those positions of it that the content is written to: the
/// first `head` of its bytes lie before the content, the last `tail` behind it, and the `body` bytes
/// between are of the content.
pub proof fn law_part_is_cut_at_the_content(update: UpdateObject, part: PartUpdate, i: int)
    requires
        update.wf(),
        !update.done,
        update.is_next_part(part),
        0 <= i < update.part_size,
    ensures
        part.parts_num == update.parts_num,
        part.head + part.body + part.tail == update.part_size,
        ({
            let pos = update.parts_num * update.part_size + i;
            &&& part.head <= i < part.head + part.body <==> update.offset <= pos < update.offset
                + update.content_len
            &&& i < part.head ==> pos < update.offset
            &&& i >= part.head + part.body ==> pos >= update.offset + update.content_len
        }),
{
    lemma_part_bounds(
        update.offset as nat,
        update.content_len as nat,
        update.part_size as nat,
        update.parts_num as nat,
    );
}

/// A part that is put together of the first `head` bytes that are stored, of the share of the content
/// and of the last `tail` bytes that are stored has the content where it is written, and the stored
/// bytes everywhere else.
pub proof fn law_replacement_keeps_the_rest(
    update: UpdateObject,
    part: PartUpdate,
    stored: Seq<u8>,
    content: Seq<u8>,
    replaced: Seq<u8>,
    i: int,
)
    requires
        update.wf(),
        !update.done,
        update.is_next_part(part),
        stored.len() == update.part_size,
        content.len() == update.content_len,
        ({
            let from = update.parts_num * update.part_size + part.head - update.offset;
            replaced == part.put_together(
                stored.subrange(0, part.head as int),
                content.subrange(from, from + part.body),
                stored.subrange(part.head + part.body, update.part_size as int),
            )
        }),
        0 <= i < update.part_size,
    ensures
        replaced.len() == update.part_size,
        ({
            let pos = update.parts_num * update.part_size + i;
            replaced[i] == (if update.offset <= pos < update.offset + update.content_len {
                content[pos - update.offset]
            } else {
                stored[i]
            })
        }),
{
    lemma_part_bounds(
        update.offset as nat,
        update.content_len as nat,
        update.part_size as nat,
        update.parts_num as nat,
    );
}

/// An update goes through every part that some of the content lies in, from the one that the offset is
/// in on, one after the other, and is done with the one that the content ends in.
pub proof fn law_update_goes_through_the_parts(update: UpdateObject)
    requires
        update.wf(),
        !update.done,
        update.content_len > 0,
    ensures
        update.advanced().done <==> update.offset + update.content_len <= (update.parts_num + 1)
            * update.part_size,
        !update.advanced().done ==> update.advanced().parts_num == update.parts_num + 1,
        update.advanced().done ==> update.advanced().parts_num == update.parts_num,
        update.parts_num * update.part_size < update.offset + update.content_len,
        update.offset < (update.parts_num + 1) * update.part_size,
        update.advanced().key == update.key,
        update.advanced().offset == update.offset,
        update.advanced().content_len == update.content_len,
        update.advanced().part_size == update.part_size,
{
    let p = update.part_size as nat;
    let k = update.parts_num as nat;
    lemma_part_bounds(update.offset as nat, update.content_len as nat, p, k);
    let end = (update.offset + update.content_len - 1) as nat;
    parts::lemma_position(end, p);
    let last = update.last();
    if k < last {
        parts::lemma_part_order(k, last, p);
    }
}

/// An update without content is done with the one part that its offset is in.
pub proof fn law_empty_update_touches_one_part(update: UpdateObject)
    requires
        update.wf(),
        !update.done,
        update.content_len == 0,
    ensures
        update.advanced().done,
        update.parts_num * update.part_size <= update.offset < (update.parts_num + 1)
            * update.part_size,
{
    parts::lemma_position(update.offset as nat, update.part_size as nat);
}

/// `res` is what starting an update of the object `key` comes to.
pub open spec fn update_started(
    store: Map<Seq<char>, Object>,
    key: Seq<char>,
    offset: u64,
    content_len: u64,
    res: Result<UpdateObject, S3Error>,
) -> bool {
    if store.contains_key(key) {
        res matches Ok(update) && update.wf() && update.key@ == key && update.part_size
            == store[key].part_size && update.offset == offset && update.content_len == content_len
            && update.parts_num == offset / store[key].part_size && !update.done
    } else {
        res matches Err(S3Error::NotFound { key: missing }) && missing@ == key
    }
}

/// The bucket key of the next part of an update is that of the object, a slash and the number of the
/// part.
pub proof fn law_update_names_the_next_part(update: UpdateObject)
    ensures
        ({
            let text = update.next_bucket_key();
            let n = update.key@.len() as int;
            &&& text.len() > n + 1
            &&& text.subrange(0, n) == update.key@
            &&& text[n] == '/'
            &&& text::all_digits(text.subrange(n + 1, text.len() as int))
            &&& text::digits_value(text.subrange(n + 1, text.len() as int)) == update.parts_num
        }),
{
    parts::law_part_key_names_the_part(update.key@, update.parts_num as nat);
}

} // verus!
