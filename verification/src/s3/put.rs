//! Writing an object as a whole.
use vstd::prelude::*;

use crate::bytes;
use crate::bytes::{clone_bytes, copy_into, zeros};
use crate::s3::datastore::{Datastore, Object};
use crate::s3::parts;
use crate::s3::parts::part_key;
use crate::s3::upload;
use crate::text;

verus! {

/// The writing of an object, part by part.
#[derive(Debug)]
pub struct PutObject {
    pub key: String,
    pub content_len: u64,
    pub part_size: u64,
    /// How much of the content is still to be read.
    pub body_len: u64,
    /// The number of parts that were read.
    pub parts_num: u64,
    /// The part that was read last; a short last part leaves the end of the one before in it.
    pub buff: Vec<u8>,
    /// The number of parts that were handed out for upload and are not known to be stored.
    pub pending: u64,
}

/// A part that is to be uploaded.
#[derive(Debug, PartialEq, Eq)]
pub struct PartUpload {
    pub key: String,
    pub data: Vec<u8>,
}

/// The number of parts of an object.
pub open spec fn parts_len(content_len: u64, part_size: u64) -> nat {
    upload::piece_count(content_len as nat, part_size as nat)
}

/// What is written as the part `k` of `content`: its bytes that lie in the part and, where these
/// end before the part does, the bytes of the part before, or zeros where there is none.
pub open spec fn part_image(content: Seq<u8>, part_size: nat, k: nat) -> Seq<u8> {
    Seq::new(
        part_size,
        |i: int|
            if k * part_size + i < content.len() {
                content[k * part_size + i]
            } else if k > 0 {
                content[(k - 1) * part_size + i]
            } else {
                0
            },
    )
}

impl PutObject {
    pub open spec fn wf(self) -> bool {
        &&& 0 < self.part_size <= usize::MAX
        &&& self.buff.len() == self.part_size
        &&& self.parts_num <= parts_len(self.content_len, self.part_size)
        &&& self.body_len == (if self.parts_num < parts_len(self.content_len, self.part_size) {
            self.content_len - self.parts_num * self.part_size
        } else {
            0
        })
        &&& self.pending <= self.parts_num
    }

    /// Everything was read, and every part that was handed out is stored.
    pub open spec fn all_stored(self) -> bool {
        self.body_len == 0 && self.pending == 0
    }

    /// The object that is recorded once everything is stored.
    pub open spec fn is_object(self, obj: Object) -> bool {
        &&& obj.key == self.key
        &&& obj.total_size == self.content_len
        &&& obj.part_size == self.part_size
        &&& obj.parts_len == parts_len(self.content_len, self.part_size)
    }

    /// `after` is the record `before` with the object in it.
    pub open spec fn recorded_in(
        self,
        before: Map<Seq<char>, Object>,
        after: Map<Seq<char>, Object>,
    ) -> bool {
        exists|obj: Object| #[trigger] self.is_object(obj) && after == before.insert(self.key@, obj)
    }

    /// How many bytes of the content make up the next part; none at the end.
    pub open spec fn read_len(self) -> nat {
        if self.part_size < self.body_len {
            self.part_size as nat
        } else {
            self.body_len as nat
        }
    }

    /// `next` is `self` with one more part read, which was `data`, whether or not the part is
    /// stored by then.
    pub open spec fn read_part(self, data: Seq<u8>, next: PutObject) -> bool {
        &&& next.key == self.key
        &&& next.content_len == self.content_len
        &&& next.part_size == self.part_size
        &&& next.body_len == self.body_len - data.len()
        &&& next.parts_num == self.parts_num + 1
        &&& next.buff@ == bytes::overwrite(self.buff@, 0, data)
    }

    /// `next` is `self` with the part `data` taken in, of whose bytes `stored_len` are stored already,
    /// and `upload` is what is handed out for upload.
    pub open spec fn takes_in(
        self,
        data: Seq<u8>,
        stored_len: Option<u64>,
        upload: Option<PartUpload>,
        next: PutObject,
    ) -> bool {
        &&& self.read_part(data, next)
        &&& match upload {
            Some(part) => {
                &&& stored_len != Some(self.part_size)
                &&& part.key@ == parts::part_key_text(self.key@, self.parts_num as nat)
                &&& part.data@ == next.buff@
                &&& next.pending == self.pending + 1
            },
            None => stored_len == Some(self.part_size) && next.pending == self.pending,
        }
    }

    /// The parts read so far are those of `content`.
    pub open spec fn reads(self, content: Seq<u8>) -> bool {
        &&& self.content_len == content.len()
        &&& self.buff@ == (if self.parts_num == 0 {
            Seq::new(self.part_size as nat, |i: int| 0u8)
        } else {
            part_image(content, self.part_size as nat, (self.parts_num - 1) as nat)
        })
    }

    /// How many bytes of the content are to be read next, if any are left.
    pub fn next_read(&self) -> (r: Option<usize>)
        requires
            self.wf(),
        ensures
            r == (if self.body_len > 0 {
                Some(self.read_len() as usize)
            } else {
                None
            }),
            r is Some ==> r->0 == self.read_len() && r->0 > 0,
    {
        if self.body_len == 0 {
            None
        } else if self.part_size < self.body_len {
            Some(self.part_size as usize)
        } else {
            Some(self.body_len as usize)
        }
    }

    /// The bucket key of the next part.
    pub open spec fn next_bucket_key(self) -> Seq<char> {
        parts::part_key_text(self.key@, self.parts_num as nat)
    }

    /// The bucket key of the next part.
    pub fn next_key(&self) -> (key: String)
        ensures
            key@ == parts::part_key_text(self.key@, self.parts_num as nat),
            key@ == self.next_bucket_key(),
    {
        part_key(self.key.as_str(), self.parts_num)
    }

    /// Takes in the bytes of the next part. `stored_len` is the size of what is already stored
    /// under its bucket key; a part that is there in full is not uploaded again. One that is
    /// handed out for upload is pending until it is reported as stored.
    pub fn part_read(&mut self, data: &Vec<u8>, stored_len: Option<u64>) -> (upload: Option<
        PartUpload,
    >)
        requires
            old(self).wf(),
            old(self).body_len > 0,
            data@.len() == old(self).read_len(),
        ensures
            final(self).wf(),
            old(self).read_part(data@, *final(self)),
            match upload {
                Some(part) => {
                    &&& stored_len != Some(old(self).part_size)
                    &&& part.key@ == parts::part_key_text(
                        old(self).key@,
                        old(self).parts_num as nat,
                    )
                    &&& part.data@ == final(self).buff@
                    &&& final(self).pending == old(self).pending + 1
                },
                None => {
                    &&& stored_len == Some(old(self).part_size)
                    &&& final(self).pending == old(self).pending
                },
            },
            old(self).takes_in(data@, stored_len, upload, *final(self)),
    {
        let key: String = self.next_key();
        proof {
            let n = self.parts_num as nat;
            upload::lemma_piece_bounds(self.content_len as nat, self.part_size as nat, n);
            upload::lemma_piece_bounds(self.content_len as nat, self.part_size as nat, n + 1);
            upload::lemma_piece_count_bound(self.content_len as nat, self.part_size as nat);
        }
        copy_into(&mut self.buff, 0, data);
        self.body_len -= data.len() as u64;
        self.parts_num += 1;
        let full: bool = match stored_len {
            Some(len) => len == self.part_size,
            None => false,
        };
        if full {
            None
        } else {
            self.pending += 1;
            Some(PartUpload { key, data: clone_bytes(&self.buff) })
        }
    }

    /// The put after one more of the parts that were handed out is stored.
    pub open spec fn with_one_stored(self) -> PutObject {
        PutObject { pending: (self.pending - 1) as u64, ..self }
    }

    /// Notes that a part that was handed out for upload is stored.
    pub fn part_stored(&mut self)
        requires
            old(self).wf(),
            old(self).pending > 0,
        ensures
            final(self).wf(),
            *final(self) == (PutObject { pending: (old(self).pending - 1) as u64, ..*old(self) }),
            *final(self) == old(self).with_one_stored(),
    {
        self.pending -= 1;
    }

    /// The object to record once every part was read and stored.
    pub fn finish(self) -> (obj: Object)
        requires
            self.wf(),
            self.all_stored(),
        ensures
            self.is_object(obj),
            obj.key@ == self.key@,
            obj.total_size == self.content_len,
            obj.part_size == self.part_size,
    {
        proof {
            upload::lemma_piece_bounds(
                self.content_len as nat,
                self.part_size as nat,
                self.parts_num as nat,
            );
        }
        Object {
            key: self.key,
            total_size: self.content_len,
            part_size: self.part_size,
            parts_len: self.parts_num,
        }
    }

    /// Ends the put. Where the content could not be read to its end, or a part could not be stored,
    /// `outcome` is why, and the datastore stays as it is; the object is recorded otherwise.
    pub fn conclude<E>(self, outcome: Result<(), E>, store: &mut Datastore) -> (res: Result<(), E>)
        requires
            self.wf(),
            old(store).wf(),
            outcome is Ok ==> self.all_stored(),
        ensures
            final(store).wf(),
            match outcome {
                Ok(()) => res is Ok && exists|obj: Object| #[trigger]
                    self.is_object(obj) && final(store)@ == old(store)@.insert(self.key@, obj),
                Err(error) => res == Err::<(), E>(error) && final(store)@ == old(store)@,
            },
            outcome is Ok ==> {
                &&& final(store)@.contains_key(self.key@)
                &&& final(store)@[self.key@].total_size == self.content_len
                &&& final(store)@[self.key@].part_size == self.part_size
                &&& self.recorded_in(old(store)@, final(store)@)
            },
    {
        match outcome {
            Err(error) => Err(error),
            Ok(()) => {
                let ghost put = self;
                let obj: Object = self.finish();
                proof {
                    assert(put.is_object(obj));
                }
                store.put(obj);
                Ok(())
            },
        }
    }
}

/// `put` is the writing of an object before anything was read.
pub open spec fn put_started(
    key: Seq<char>,
    content_len: u64,
    part_size: u64,
    put: PutObject,
) -> bool {
    &&& put.wf()
    &&& put.key@ == key
    &&& put.content_len == content_len
    &&& put.part_size == part_size
    &&& put.body_len == content_len
    &&& put.parts_num == 0
    &&& put.pending == 0
    &&& put.buff@ == Seq::new(part_size as nat, |i: int| 0u8)
}

/// Starts the writing of an object of `content_len` bytes in parts of `part_size` bytes.
pub fn put_object(key: String, content_len: u64, part_size: u64) -> (put: PutObject)
    requires
        0 < part_size <= usize::MAX,
    ensures
        put.wf(),
        put.key == key,
        put.content_len == content_len,
        put.part_size == part_size,
        put.body_len == content_len,
        put.parts_num == 0,
        put.pending == 0,
        forall|content: Seq<u8>| content.len() == content_len ==> #[trigger] put.reads(content),
        put_started(key@, content_len, part_size, put),
{
    proof {
        upload::lemma_piece_bounds(content_len as nat, part_size as nat, 0);
    }
    PutObject {
        key,
        content_len,
        part_size,
        body_len: content_len,
        parts_num: 0,
        buff: zeros(part_size as usize),
        pending: 0,
    }
}

/// Starts the writing of an object of `data_len` zero bytes; every part that is read is then
/// zeros.
pub fn put_zero_object(key: &str, data_len: u64, part_size: u64) -> (put: PutObject)
    requires
        0 < part_size <= usize::MAX,
    ensures
        put.wf(),
        put.key@ == key@,
        put.content_len == data_len,
        put.part_size == part_size,
        put.body_len == data_len,
        put.parts_num == 0,
        put.pending == 0,
        put.reads(Seq::new(data_len as nat, |i: int| 0u8)),
        put_started(key@, data_len, part_size, put),
{
    let put: PutObject = put_object(String::from_str(key), data_len, part_size);
    proof {
        let content = Seq::new(data_len as nat, |i: int| 0u8);
        assert(content.len() == data_len);
        assert(put.reads(content));
    }
    put
}

/// A part that is read holds the image of that part of the content.
pub proof fn law_put_writes_images(
    before: PutObject,
    content: Seq<u8>,
    data: Seq<u8>,
    after: PutObject,
)
    requires
        before.wf(),
        before.body_len > 0,
        before.reads(content),
        data == upload::piece(content, before.part_size as nat, before.parts_num as nat),
        before.read_part(data, after),
    ensures
        data.len() == before.read_len(),
        after.reads(content),
        after.buff@ == part_image(content, before.part_size as nat, before.parts_num as nat),
{
    let ps = before.part_size as nat;
    let n = before.parts_num as nat;
    upload::lemma_piece_bounds(content.len(), ps, n);
    upload::lemma_piece_bounds(content.len(), ps, n + 1);
    if n > 0 {
        let m = (n - 1) as nat;
        upload::lemma_piece_bounds(content.len(), ps, m);
        assert forall|i: int| 0 <= i < ps implies before.buff@[i] == #[trigger] content[m * ps
            + i] by {
            assert(m * ps + i < content.len());
            assert(before.buff@[i] == part_image(content, ps, m)[i]);
        }
    }
    assert(after.buff@ =~= part_image(content, ps, n));
}

/// A moment of a put.
pub ghost struct PutMoment {
    pub put: PutObject,
    /// What is stored, by the number of the part.
    pub stored: Map<nat, Seq<u8>>,
    /// What was handed out for upload and is not stored yet, by the number of the part.
    pub in_flight: Map<nat, Seq<u8>>,
    /// How many parts are stored and not reported as stored yet.
    pub landed: nat,
}

/// The size of what is stored as the part `k`.
pub open spec fn stored_size(stored: Map<nat, Seq<u8>>, k: nat, stored_len: Option<u64>) -> bool {
    match stored_len {
        Some(len) => stored.contains_key(k) && stored[k].len() == len,
        None => !stored.contains_key(k),
    }
}

/// What is under way after `upload` was handed out, by the number of the part that its bucket key
/// names.
pub open spec fn handed_out(
    key: Seq<char>,
    before: Map<nat, Seq<u8>>,
    upload: Option<PartUpload>,
    after: Map<nat, Seq<u8>>,
) -> bool {
    match upload {
        Some(part) => exists|k: nat|
            part.key@ == #[trigger] parts::part_key_text(key, k) && after == before.insert(
                k,
                part.data@,
            ),
        None => after == before,
    }
}

/// The next part of the content is read, with `stored_len` bytes stored of it, and `upload` is handed
/// out.
pub open spec fn part_is_taken_in(
    content: Seq<u8>,
    a: PutMoment,
    b: PutMoment,
    stored_len: Option<u64>,
    upload: Option<PartUpload>,
) -> bool {
    let k = a.put.parts_num as nat;
    &&& stored_size(a.stored, k, stored_len)
    &&& a.put.takes_in(
        upload::piece(content, a.put.part_size as nat, k),
        stored_len,
        upload,
        b.put,
    )
    &&& handed_out(a.put.key@, a.in_flight, upload, b.in_flight)
}

/// The next part of the content is read. It is handed out for upload unless it is there in full.
pub open spec fn part_is_read(content: Seq<u8>, a: PutMoment, b: PutMoment) -> bool {
    &&& a.put.body_len > 0
    &&& exists|stored_len: Option<u64>, upload: Option<PartUpload>| #[trigger]
        part_is_taken_in(content, a, b, stored_len, upload)
    &&& b.stored == a.stored
    &&& b.landed == a.landed
}

/// What reading a part comes to, by the number of the part.
proof fn lemma_part_is_read(content: Seq<u8>, a: PutMoment, b: PutMoment)
    requires
        part_is_read(content, a, b),
    ensures
        ({
            let k = a.put.parts_num as nat;
            let full = a.stored.contains_key(k) && a.stored[k].len() == a.put.part_size;
            &&& a.put.read_part(upload::piece(content, a.put.part_size as nat, k), b.put)
            &&& b.put.pending == a.put.pending + (if full {
                0int
            } else {
                1
            })
            &&& b.in_flight == (if full {
                a.in_flight
            } else {
                a.in_flight.insert(k, b.put.buff@)
            })
        }),
{
    let k = a.put.parts_num as nat;
    let (stored_len, upload) = choose|stored_len: Option<u64>, upload: Option<PartUpload>|
        #[trigger]
        part_is_taken_in(content, a, b, stored_len, upload);
    match upload {
        Some(part) => {
            let named = choose|named: nat|
                part.key@ == #[trigger] parts::part_key_text(a.put.key@, named) && b.in_flight
                    == a.in_flight.insert(named, part.data@);
            parts::law_part_keys_distinct(a.put.key@, k, a.put.key@, named);
        },
        None => {},
    }
}

/// The upload of the part `k` is done.
pub open spec fn part_lands(a: PutMoment, b: PutMoment, k: nat) -> bool {
    &&& a.in_flight.contains_key(k)
    &&& b.put == a.put
    &&& b.stored == a.stored.insert(k, a.in_flight[k])
    &&& b.in_flight == a.in_flight.remove(k)
    &&& b.landed == a.landed + 1
}

/// A part that is stored is reported.
pub open spec fn part_is_reported(a: PutMoment, b: PutMoment) -> bool {
    &&& a.landed > 0
    &&& a.put.pending > 0
    &&& b.put == a.put.with_one_stored()
    &&& b.stored == a.stored
    &&& b.in_flight == a.in_flight
    &&& b.landed == a.landed - 1
}

/// One thing happens between two moments of a put.
pub open spec fn put_step(content: Seq<u8>, a: PutMoment, b: PutMoment) -> bool {
    ||| part_is_read(content, a, b)
    ||| exists|k: nat| part_lands(a, b, k)
    ||| part_is_reported(a, b)
}

/// The moments of a put from its start on. Parts are read in their order; uploads end, and are
/// reported, in any order and while further parts are read.
pub open spec fn put_run(content: Seq<u8>, run: Seq<PutMoment>) -> bool {
    &&& run.len() > 0
    &&& run[0].put.wf()
    &&& run[0].put.parts_num == 0
    &&& run[0].put.pending == 0
    &&& run[0].put.reads(content)
    &&& run[0].in_flight == Map::<nat, Seq<u8>>::empty()
    &&& run[0].landed == 0
    &&& forall|i: int|
        0 <= i < run.len() - 1 ==> put_step(content, #[trigger] run[i], run[i + 1])
}

/// What a put leaves behind: the images of the parts, but for those that were there in full.
pub open spec fn put_result(
    before: Map<nat, Seq<u8>>,
    content: Seq<u8>,
    part_size: nat,
    after: Map<nat, Seq<u8>>,
) -> bool {
    &&& after.dom() == before.dom().union(
        Set::new(|k: nat| k < upload::piece_count(content.len(), part_size)),
    )
    &&& forall|k: nat| #[trigger]
        after.contains_key(k) ==> after[k] == (if k < upload::piece_count(
            content.len(),
            part_size,
        ) && !(before.contains_key(k) && before[k].len() == part_size) {
            part_image(content, part_size, k)
        } else {
            before[k]
        })
}

/// What holds at every moment of a put that started with `before` stored.
spec fn on_course(content: Seq<u8>, start: PutMoment, now: PutMoment) -> bool {
    let ps = start.put.part_size as nat;
    let before = start.stored;
    &&& now.put.wf()
    &&& now.put.key == start.put.key
    &&& now.put.content_len == start.put.content_len
    &&& now.put.part_size == start.put.part_size
    &&& now.put.reads(content)
    &&& now.in_flight.dom().finite()
    &&& now.put.pending == now.in_flight.dom().len() + now.landed
    &&& forall|k: nat| #[trigger]
        now.in_flight.contains_key(k) ==> k < now.put.parts_num && now.in_flight[k] == part_image(
            content,
            ps,
            k,
        ) && !(before.contains_key(k) && before[k].len() == ps)
    &&& forall|k: nat| #[trigger]
        now.stored.contains_key(k) <==> before.contains_key(k) || k < now.put.parts_num
            && !now.in_flight.contains_key(k)
    &&& forall|k: nat| #[trigger]
        now.stored.contains_key(k) ==> now.stored[k] == (if k < now.put.parts_num
            && !now.in_flight.contains_key(k) && !(before.contains_key(k) && before[k].len()
            == ps) {
            part_image(content, ps, k)
        } else {
            before[k]
        })
}

proof fn lemma_read_on_course(content: Seq<u8>, start: PutMoment, a: PutMoment, b: PutMoment)
    requires
        on_course(content, start, a),
        part_is_read(content, a, b),
    ensures
        on_course(content, start, b),
{
    let ps = a.put.part_size as nat;
    let k = a.put.parts_num as nat;
    let data = upload::piece(content, ps, k);
    lemma_part_is_read(content, a, b);
    upload::lemma_piece_bounds(content.len(), ps, k);
    upload::lemma_piece_bounds(content.len(), ps, k + 1);
    law_put_writes_images(a.put, content, data, b.put);
    assert(!a.in_flight.contains_key(k));
    assert(a.stored.contains_key(k) == start.stored.contains_key(k));
    assert forall|j: nat| #[trigger] b.in_flight.contains_key(j) implies j < b.put.parts_num
        && b.in_flight[j] == part_image(content, ps, j) && !(start.stored.contains_key(j)
        && start.stored[j].len() == ps) by {
        if j != k {
            assert(a.in_flight.contains_key(j));
        }
    }
    assert forall|j: nat| #[trigger]
        b.stored.contains_key(j) <==> start.stored.contains_key(j) || j < b.put.parts_num
            && !b.in_flight.contains_key(j) by {
        if j != k {
            assert(b.in_flight.contains_key(j) == a.in_flight.contains_key(j));
        }
    }
    assert forall|j: nat| #[trigger] b.stored.contains_key(j) implies b.stored[j] == (if j
        < b.put.parts_num && !b.in_flight.contains_key(j) && !(start.stored.contains_key(j)
        && start.stored[j].len() == ps) {
        part_image(content, ps, j)
    } else {
        start.stored[j]
    }) by {
        assert(a.stored.contains_key(j));
        if j != k {
            assert(b.in_flight.contains_key(j) == a.in_flight.contains_key(j));
        }
    }
}

proof fn lemma_landing_on_course(
    content: Seq<u8>,
    start: PutMoment,
    a: PutMoment,
    b: PutMoment,
    k: nat,
)
    requires
        on_course(content, start, a),
        part_lands(a, b, k),
    ensures
        on_course(content, start, b),
{
    let ps = a.put.part_size as nat;
    assert(b.in_flight.dom() =~= a.in_flight.dom().remove(k));
    assert forall|j: nat| #[trigger] b.in_flight.contains_key(j) implies j < b.put.parts_num
        && b.in_flight[j] == part_image(content, ps, j) && !(start.stored.contains_key(j)
        && start.stored[j].len() == ps) by {
        assert(a.in_flight.contains_key(j));
    }
    assert forall|j: nat| #[trigger]
        b.stored.contains_key(j) <==> start.stored.contains_key(j) || j < b.put.parts_num
            && !b.in_flight.contains_key(j) by {
        if j != k {
            assert(b.stored.contains_key(j) == a.stored.contains_key(j));
            assert(b.in_flight.contains_key(j) == a.in_flight.contains_key(j));
        }
    }
    assert forall|j: nat| #[trigger] b.stored.contains_key(j) implies b.stored[j] == (if j
        < b.put.parts_num && !b.in_flight.contains_key(j) && !(start.stored.contains_key(j)
        && start.stored[j].len() == ps) {
        part_image(content, ps, j)
    } else {
        start.stored[j]
    }) by {
        if j != k {
            assert(a.stored.contains_key(j));
            assert(b.in_flight.contains_key(j) == a.in_flight.contains_key(j));
        }
    }
}

proof fn lemma_put_run(content: Seq<u8>, run: Seq<PutMoment>, n: int)
    requires
        put_run(content, run),
        0 <= n < run.len(),
    ensures
        on_course(content, run[0], run[n]),
    decreases n,
{
    if n > 0 {
        let a = run[n - 1];
        let b = run[n];
        lemma_put_run(content, run, n - 1);
        assert(put_step(content, run[n - 1], run[n - 1 + 1]));
        if part_is_read(content, a, b) {
            lemma_read_on_course(content, run[0], a, b);
        } else if exists|k: nat| part_lands(a, b, k) {
            let k = choose|k: nat| part_lands(a, b, k);
            lemma_landing_on_course(content, run[0], a, b, k);
        }
    }
}

/// Every part that is handed out for upload holds the image of that part of the content, at every
/// moment of a put.
pub proof fn law_put_hands_out_images(content: Seq<u8>, run: Seq<PutMoment>, n: int, k: nat)
    requires
        put_run(content, run),
        0 <= n < run.len(),
        run[n].in_flight.contains_key(k),
    ensures
        k < run[n].put.parts_num,
        run[n].in_flight[k] == part_image(content, run[0].put.part_size as nat, k),
{
    lemma_put_run(content, run, n);
}

/// Once everything is read and every part that was handed out is reported as stored, the images of
/// the parts are stored, in whatever order the uploads ended.
pub proof fn law_put_run(content: Seq<u8>, run: Seq<PutMoment>)
    requires
        put_run(content, run),
        run.last().put.all_stored(),
    ensures
        put_result(
            run[0].stored,
            content,
            run[0].put.part_size as nat,
            run.last().stored,
        ),
{
    let now = run.last();
    let ps = run[0].put.part_size as nat;
    lemma_put_run(content, run, run.len() - 1);
    assert(now.in_flight.dom().len() == 0);
    assert(now.in_flight.dom() =~= Set::<nat>::empty());
    assert forall|k: nat| !#[trigger] now.in_flight.contains_key(k) by {
        assert(!now.in_flight.dom().contains(k));
    }
    upload::lemma_piece_bounds(content.len(), ps, now.put.parts_num as nat);
    assert(now.put.parts_num == upload::piece_count(content.len(), ps));
    assert(now.stored.dom() =~= run[0].stored.dom().union(
        Set::new(|k: nat| k < upload::piece_count(content.len(), ps)),
    )) by {
        assert forall|k: nat| now.stored.dom().contains(k) == run[0].stored.dom().union(
            Set::new(|j: nat| j < upload::piece_count(content.len(), ps)),
        ).contains(k) by {
            assert(now.stored.contains_key(k) <==> run[0].stored.contains_key(k) || k
                < now.put.parts_num);
        }
    }
}

/// A put that is cut short has stored the images of some of the parts that it read, and all other
/// parts are as they were.
pub proof fn law_put_cut_short(content: Seq<u8>, run: Seq<PutMoment>, k: nat)
    requires
        put_run(content, run),
    ensures
        ({
            let before = run[0].stored;
            let after = run.last().stored;
            ||| !after.contains_key(k) && !before.contains_key(k)
            ||| after.contains_key(k) && before.contains_key(k) && after[k] == before[k]
            ||| k < run.last().put.parts_num && after.contains_key(k) && after[k] == part_image(
                content,
                run[0].put.part_size as nat,
                k,
            )
        }),
{
    lemma_put_run(content, run, run.len() - 1);
    let before = run[0].stored;
    let after = run.last().stored;
    assert(after.contains_key(k) <==> before.contains_key(k) || k < run.last().put.parts_num
        && !run.last().in_flight.contains_key(k));
}

/// The parts of the content that are stored in full already hold the bytes of the content.
pub open spec fn no_other_parts(
    before: Map<nat, Seq<u8>>,
    content: Seq<u8>,
    part_size: nat,
) -> bool {
    forall|k: nat, i: int|
        before.contains_key(k) && before[k].len() == part_size && 0 <= i < part_size && k
            * part_size + i < content.len() ==> #[trigger] before[k][i] == content[k * part_size
            + i]
}

/// Any range of an object that is put reads back as that range of its content, unless a part with
/// other bytes was stored in full before.
pub proof fn law_put_reads_back(
    before: Map<nat, Seq<u8>>,
    content: Seq<u8>,
    part_size: nat,
    after: Map<nat, Seq<u8>>,
    offset: nat,
    len: nat,
)
    requires
        part_size > 0,
        put_result(before, content, part_size, after),
        no_other_parts(before, content, part_size),
        offset + len <= content.len(),
    ensures
        parts::object_bytes(after, part_size, offset, len) == content.subrange(
            offset as int,
            (offset + len) as int,
        ),
{
    let read = parts::object_bytes(after, part_size, offset, len);
    let wanted = content.subrange(offset as int, (offset + len) as int);
    assert forall|i: int| 0 <= i < len implies #[trigger] read[i] == wanted[i] by {
        let pos = (offset + i) as nat;
        let k = pos / part_size;
        parts::lemma_position(pos, part_size);
        upload::lemma_piece_bounds(content.len(), part_size, k);
        assert(after.contains_key(k));
        if before.contains_key(k) && before[k].len() == part_size {
            assert(before[k][(pos % part_size) as int] == content[pos as int]);
        }
    }
    assert(read =~= wanted);
}

/// A put leaves a part that is stored in full as it is, whatever the content.
pub proof fn law_put_keeps_full_parts(
    before: Map<nat, Seq<u8>>,
    content: Seq<u8>,
    part_size: nat,
    after: Map<nat, Seq<u8>>,
    k: nat,
)
    requires
        put_result(before, content, part_size, after),
        before.contains_key(k),
        before[k].len() == part_size,
    ensures
        after.contains_key(k),
        after[k] == before[k],
{
    assert(after.contains_key(k));
}

/// Every part of an object of zeros is all zeros.
pub proof fn law_zero_parts(data_len: nat, part_size: nat, k: nat)
    requires
        part_size > 0,
        k < upload::piece_count(data_len, part_size),
    ensures
        part_image(Seq::new(data_len, |i: int| 0u8), part_size, k) == Seq::new(
            part_size,
            |i: int| 0u8,
        ),
{
    let content = Seq::new(data_len, |i: int| 0u8);
    upload::lemma_piece_bounds(data_len, part_size, k);
    if k > 0 {
        upload::lemma_piece_bounds(data_len, part_size, (k - 1) as nat);
    }
    assert forall|i: int| 0 <= i < part_size implies #[trigger] part_image(
        content,
        part_size,
        k,
    )[i] == 0 by {
        if k * part_size + i < content.len() {
            assert(0 <= k * part_size + i);
        } else if k > 0 {
            assert(0 <= (k - 1) * part_size + i < content.len());
        }
    }
    assert(part_image(content, part_size, k) =~= Seq::new(part_size, |i: int| 0u8));
}

/// The key, the length of the content and the size of the parts stay what a put was started with.
pub proof fn law_put_keeps_its_terms(content: Seq<u8>, run: Seq<PutMoment>, n: int)
    requires
        put_run(content, run),
        0 <= n < run.len(),
    ensures
        run[n].put.key == run[0].put.key,
        run[n].put.content_len == content.len(),
        run[n].put.part_size == run[0].put.part_size,
{
    lemma_put_run(content, run, n);
}

/// The object that is recorded for a put tells the size of what was put and of the parts that it was
/// put in, and counts exactly the parts that some of it is in.
pub proof fn law_recorded_object_describes_content(
    content: Seq<u8>,
    run: Seq<PutMoment>,
    obj: Object,
    k: nat,
)
    requires
        put_run(content, run),
        run.last().put.is_object(obj),
    ensures
        obj.key == run[0].put.key,
        obj.total_size == content.len(),
        obj.part_size == run[0].put.part_size,
        k < obj.parts_len <==> k * run[0].put.part_size < content.len(),
{
    lemma_put_run(content, run, run.len() - 1);
    upload::lemma_piece_bounds(content.len(), obj.part_size as nat, k);
}

/// The part `k` that is written holds the bytes of the content from `k` part sizes on, each at its
/// place. Where the content ends within it, what is behind is what the part before has there, and
/// zeros if it is the first part.
pub proof fn law_parts_hold_the_content(content: Seq<u8>, part_size: nat, k: nat, i: int)
    requires
        k * part_size < content.len(),
        0 <= i < part_size,
    ensures
        part_image(content, part_size, k).len() == part_size,
        k * part_size + i < content.len() ==> part_image(content, part_size, k)[i] == content[k
            * part_size + i],
        k * part_size + i >= content.len() && k > 0 ==> part_image(content, part_size, k)[i]
            == part_image(content, part_size, (k - 1) as nat)[i],
        k * part_size + i >= content.len() && k == 0 ==> part_image(content, part_size, k)[i] == 0,
{
    if k > 0 {
        let m = (k - 1) as nat;
        vstd::arithmetic::mul::lemma_mul_is_distributive_add_other_way(
            part_size as int,
            m as int,
            1,
        );
        assert(k * part_size == m * part_size + part_size);
    }
}

/// The bucket key of the next part of a put is that of the object, a slash and the number of the parts
/// that were read before.
pub proof fn law_put_names_the_next_part(put: PutObject)
    ensures
        ({
            let text = put.next_bucket_key();
            let n = put.key@.len() as int;
            &&& text.len() > n + 1
            &&& text.subrange(0, n) == put.key@
            &&& text[n] == '/'
            &&& text::all_digits(text.subrange(n + 1, text.len() as int))
            &&& text::digits_value(text.subrange(n + 1, text.len() as int)) == put.parts_num
        }),
{
    parts::law_part_key_names_the_part(put.key@, put.parts_num as nat);
}

} // verus!
