//! The upload of one bucket key in several pieces.
use vstd::prelude::*;

use crate::bytes::copy_range;
use crate::s3::error::S3Error;
use crate::s3::parts;

verus! {

/// The size of the pieces in which a part is uploaded: 447 MB.
pub const DEFAULT_UPLOAD_PART_SIZE: usize = 447 * 1024 * 1024;

/// The number of pieces of `part_size` bytes, the last one perhaps shorter, that make up `len`
/// bytes.
pub open spec fn piece_count(len: nat, part_size: nat) -> nat {
    if len == 0 {
        0
    } else {
        ((len - 1) as nat / part_size + 1) as nat
    }
}

/// Where the piece `i` ends.
pub open spec fn piece_end(len: nat, part_size: nat, i: nat) -> nat {
    if (i + 1) * part_size < len {
        (i + 1) * part_size
    } else {
        len
    }
}

/// The piece `i` of `body`.
pub open spec fn piece(body: Seq<u8>, part_size: nat, i: nat) -> Seq<u8> {
    body.subrange((i * part_size) as int, piece_end(body.len(), part_size, i) as int)
}

/// The first `n` pieces of `body`, one behind the other.
pub open spec fn joined(body: Seq<u8>, part_size: nat, n: nat) -> Seq<u8>
    decreases n,
{
    if n == 0 {
        Seq::empty()
    } else {
        joined(body, part_size, (n - 1) as nat) + piece(body, part_size, (n - 1) as nat)
    }
}

/// A piece that there is starts before the end.
pub proof fn lemma_piece_bounds(len: nat, part_size: nat, i: nat)
    requires
        part_size > 0,
    ensures
        i < piece_count(len, part_size) <==> i * part_size < len,
        (i + 1) * part_size == i * part_size + part_size,
{
    vstd::arithmetic::mul::lemma_mul_is_distributive_add_other_way(part_size as int, i as int, 1);
    if len > 0 {
        let q = ((len - 1) as nat / part_size) as int;
        vstd::arithmetic::div_mod::lemma_fundamental_div_mod((len - 1) as int, part_size as int);
        vstd::arithmetic::mul::lemma_mul_is_commutative(part_size as int, q);
        if i <= q {
            vstd::arithmetic::mul::lemma_mul_inequality(i as int, q, part_size as int);
        } else {
            vstd::arithmetic::mul::lemma_mul_inequality(q + 1, i as int, part_size as int);
            vstd::arithmetic::mul::lemma_mul_is_distributive_add_other_way(
                part_size as int,
                q,
                1,
            );
        }
    }
}

/// There are no more pieces than bytes.
pub proof fn lemma_piece_count_bound(len: nat, part_size: nat)
    requires
        part_size > 0,
    ensures
        piece_count(len, part_size) <= len,
{
    if len > 0 {
        vstd::arithmetic::div_mod::lemma_div_is_ordered_by_denominator(
            (len - 1) as int,
            1,
            part_size as int,
        );
        vstd::arithmetic::div_mod::lemma_div_basics((len - 1) as int);
    }
}

/// The pieces of a body, in the order of their numbers, are the body.
pub proof fn law_pieces_make_body(body: Seq<u8>, part_size: nat)
    requires
        part_size > 0,
    ensures
        joined(body, part_size, piece_count(body.len(), part_size)) == body,
{
    let n = piece_count(body.len(), part_size);
    lemma_joined(body, part_size, n);
    lemma_piece_bounds(body.len(), part_size, n);
    assert(body.take(body.len() as int) =~= body);
}

proof fn lemma_joined(body: Seq<u8>, part_size: nat, n: nat)
    requires
        part_size > 0,
        n <= piece_count(body.len(), part_size),
    ensures
        joined(body, part_size, n) == body.take(
            if n * part_size < body.len() {
                (n * part_size) as int
            } else {
                body.len() as int
            },
        ),
    decreases n,
{
    if n == 0 {
        vstd::arithmetic::mul::lemma_mul_basics(part_size as int);
        assert(n * part_size == 0);
        assert(joined(body, part_size, n) =~= body.take(0));
    } else {
        let m = (n - 1) as nat;
        lemma_joined(body, part_size, m);
        lemma_piece_bounds(body.len(), part_size, m);
        lemma_piece_bounds(body.len(), part_size, n);
        assert(joined(body, part_size, n) =~= body.take(
            piece_end(body.len(), part_size, m) as int,
        ));
    }
}

/// A piece that was accepted.
#[derive(Debug, PartialEq, Eq)]
pub struct CompletedPart {
    pub part_number: i32,
    pub e_tag: String,
}

/// What is to be done next for an upload.
#[derive(Debug, PartialEq, Eq)]
pub enum UploadStep {
    /// Send a piece; the answer holds an entity tag.
    UploadPart { part_number: i32, data: Vec<u8> },
    /// Close the upload with all the pieces that were accepted.
    Complete { parts: Vec<CompletedPart> },
}

/// An upload that was accepted and is under way.
#[derive(Debug)]
pub struct MultipartUpload {
    pub key: String,
    pub upload_id: String,
    pub body: Vec<u8>,
    pub part_size: usize,
    /// The entity tags of the pieces that were sent.
    pub etags: Vec<String>,
}

/// A body can be cut into pieces that can be numbered.
pub open spec fn pieces_fit(len: nat, part_size: usize) -> bool {
    (len > 0 ==> part_size > 0) && piece_count(len, part_size as nat) < i32::MAX
}

impl MultipartUpload {
    /// No more pieces were sent than the body has.
    pub open spec fn wf(self) -> bool {
        &&& pieces_fit(self.body@.len(), self.part_size)
        &&& self.etags.len() <= piece_count(self.body@.len(), self.part_size as nat)
    }

    /// What is to be done next: the first piece that was not sent yet, or the end.
    pub open spec fn is_next(self, step: UploadStep) -> bool {
        let sent = self.etags.len() as nat;
        if sent < piece_count(self.body@.len(), self.part_size as nat) {
            step matches UploadStep::UploadPart { part_number, data } && part_number == sent + 1
                && data@ == piece(self.body@, self.part_size as nat, sent)
        } else {
            step matches UploadStep::Complete { parts } && parts.len() == sent && forall|i: int|
                0 <= i < sent ==> (#[trigger] parts[i]).part_number == i + 1 && parts[i].e_tag
                    == self.etags[i]
        }
    }

    /// `next` is `self` with one more piece accepted, with the entity tag `tag`.
    pub open spec fn goes_on(self, tag: String, next: MultipartUpload) -> bool {
        &&& next.key == self.key
        &&& next.upload_id == self.upload_id
        &&& next.body == self.body
        &&& next.part_size == self.part_size
        &&& next.etags@ == self.etags@.push(tag)
    }

    /// What is to be done next.
    pub fn next(&self) -> (step: UploadStep)
        requires
            self.wf(),
        ensures
            self.is_next(step),
    {
        let sent: usize = self.etags.len();
        proof {
            if self.part_size > 0 {
                lemma_piece_bounds(self.body@.len(), self.part_size as nat, sent as nat);
            }
            if self.part_size > 0 && sent > 0 {
                lemma_piece_bounds(self.body@.len(), self.part_size as nat, (sent - 1) as nat);
            }
        }
        // Pieces before the last one are full, so a position that is beyond the numbers of the
        // machine is beyond the body.
        let from: Option<usize> = sent.checked_mul(self.part_size);
        match from {
            Some(from) => {
                if from < self.body.len() {
                    let left: usize = self.body.len() - from;
                    let len: usize = if self.part_size < left {
                        self.part_size
                    } else {
                        left
                    };
                    let data: Vec<u8> = copy_range(&self.body, from, len);
                    return UploadStep::UploadPart { part_number: sent as i32 + 1, data };
                }
            },
            None => {},
        }
        let mut parts: Vec<CompletedPart> = Vec::new();
        let mut i: usize = 0;
        while i < self.etags.len()
            invariant
                self.wf(),
                0 <= i <= self.etags.len(),
                parts.len() == i,
                forall|k: int|
                    0 <= k < i ==> (#[trigger] parts[k]).part_number == k + 1 && parts[k].e_tag
                        == self.etags[k],
            decreases self.etags.len() - i,
        {
            let e_tag: String = self.etags[i].clone();
            parts.push(CompletedPart { part_number: i as i32 + 1, e_tag });
            i += 1;
        }
        UploadStep::Complete { parts }
    }

    /// Notes that a piece was accepted, with the entity tag of the answer.
    pub fn uploaded(&mut self, e_tag: Option<String>) -> (res: Result<(), S3Error>)
        requires
            old(self).wf(),
            old(self).etags.len() < piece_count(old(self).body@.len(), old(self).part_size as nat),
        ensures
            final(self).wf(),
            final(self).key == old(self).key,
            final(self).upload_id == old(self).upload_id,
            final(self).body == old(self).body,
            final(self).part_size == old(self).part_size,
            match e_tag {
                Some(tag) => res is Ok && final(self).etags@ == old(self).etags@.push(tag),
                None => res matches Err(S3Error::MissingETag { key }) && key@ == old(self).key@
                    && final(self).etags == old(self).etags,
            },
            e_tag matches Some(tag) ==> old(self).goes_on(tag, *final(self)),
    {
        match e_tag {
            Some(tag) => {
                self.etags.push(tag);
                Ok(())
            },
            None => Err(S3Error::MissingETag { key: self.key.clone() }),
        }
    }
}

/// `upload` is the upload of `body` before any piece was sent.
pub open spec fn upload_started(
    key: Seq<char>,
    upload_id: String,
    body: Seq<u8>,
    part_size: usize,
    upload: MultipartUpload,
) -> bool {
    &&& upload.wf()
    &&& upload.key@ == key
    &&& upload.upload_id == upload_id
    &&& upload.body@ == body
    &&& upload.part_size == part_size
    &&& upload.etags@.len() == 0
}

/// Starts the upload of `body`, once it was accepted with an upload id.
pub fn multipart_upload(
    key: &str,
    upload_id: Option<String>,
    body: Vec<u8>,
    part_size: usize,
) -> (res: Result<MultipartUpload, S3Error>)
    requires
        pieces_fit(body@.len(), part_size),
    ensures
        match upload_id {
            Some(id) => res matches Ok(upload) && upload.wf() && upload.key@ == key@
                && upload.upload_id == id && upload.body == body && upload.part_size == part_size
                && upload.etags@.len() == 0,
            None => res matches Err(S3Error::MissingUploadId { key: name }) && name@ == key@,
        },
        upload_id matches Some(id) ==> res is Ok && upload_started(
            key@,
            id,
            body@,
            part_size,
            res->Ok_0,
        ),
{
    match upload_id {
        Some(upload_id) => Ok(
            MultipartUpload {
                key: String::from_str(key),
                upload_id,
                body,
                part_size,
                etags: Vec::new(),
            },
        ),
        None => Err(S3Error::MissingUploadId { key: String::from_str(key) }),
    }
}

/// The pieces of a body are sent in turn, from its first byte to its last: with `n` pieces sent, the
/// next one is numbered `n + 1` and starts `n` piece sizes from the front, and is as long as a piece
/// can be. Once all of the body was sent, and not before, the upload is closed with every piece, by
/// its number and with its own tag.
pub proof fn law_upload_sends_the_body_in_turn(upload: MultipartUpload, step: UploadStep)
    requires
        upload.wf(),
        upload.is_next(step),
    ensures
        ({
            let len = upload.body@.len() as int;
            let size = upload.part_size as int;
            let sent = upload.etags.len() as int;
            match step {
                UploadStep::UploadPart { part_number, data } => {
                    &&& sent * size < len
                    &&& part_number == sent + 1
                    &&& data@.len() == (if size < len - sent * size {
                        size
                    } else {
                        len - sent * size
                    })
                    &&& forall|j: int|
                        0 <= j < data@.len() ==> #[trigger] data@[j] == upload.body@[sent * size
                            + j]
                },
                UploadStep::Complete { parts } => {
                    &&& len <= sent * size
                    &&& sent > 0 ==> (sent - 1) * size < len
                    &&& parts.len() == sent
                    &&& forall|i: int|
                        0 <= i < sent ==> (#[trigger] parts[i]).part_number == i + 1
                            && parts[i].e_tag == upload.etags[i]
                },
            }
        }),
{
    let len = upload.body@.len();
    let size = upload.part_size as nat;
    let sent = upload.etags.len() as nat;
    if size > 0 {
        lemma_piece_bounds(len, size, sent);
        if sent > 0 {
            lemma_piece_bounds(len, size, (sent - 1) as nat);
        }
    } else {
        assert(sent == 0);
        vstd::arithmetic::mul::lemma_mul_basics(sent as int);
    }
}

/// Every byte of a body is in one piece, the one that the division of its position by the size of the
/// pieces gives, at the remainder, and the pieces reach just to the end of the body.
pub proof fn law_every_byte_is_in_its_piece(body: Seq<u8>, part_size: nat, pos: nat)
    requires
        part_size > 0,
        pos < body.len(),
    ensures
        pos / part_size < piece_count(body.len(), part_size),
        pos % part_size < piece(body, part_size, pos / part_size).len(),
        piece(body, part_size, pos / part_size)[(pos % part_size) as int] == body[pos as int],
        (piece_count(body.len(), part_size) - 1) * part_size < body.len(),
        body.len() <= piece_count(body.len(), part_size) * part_size,
{
    let k = pos / part_size;
    parts::lemma_position(pos, part_size);
    lemma_piece_bounds(body.len(), part_size, k);
    let n = piece_count(body.len(), part_size);
    lemma_piece_bounds(body.len(), part_size, n);
    lemma_piece_bounds(body.len(), part_size, (n - 1) as nat);
}

/// What is to be done after `n` pieces of an upload were accepted, from its start on: the piece of the
/// body from `n` piece sizes on is sent as number `n + 1`, or, once the body is at its end, the upload
/// is closed with every piece by its number and with the tag that it was accepted with.
pub proof fn law_upload_run(
    key: Seq<char>,
    upload_id: String,
    body: Seq<u8>,
    part_size: usize,
    tags: Seq<String>,
    states: Seq<MultipartUpload>,
    n: int,
    step: UploadStep,
)
    requires
        0 <= n < states.len(),
        n <= tags.len(),
        upload_started(key, upload_id, body, part_size, states[0]),
        forall|i: int|
            0 <= i < n ==> #[trigger] states[i].goes_on(tags[i], states[i + 1]) && i * part_size
                < body.len(),
        states[n].is_next(step),
    ensures
        states[n].key@ == key,
        states[n].upload_id == upload_id,
        match step {
            UploadStep::UploadPart { part_number, data } => {
                &&& n * part_size < body.len()
                &&& part_number == n + 1
                &&& data@.len() == (if part_size < body.len() - n * part_size {
                    part_size as int
                } else {
                    body.len() - n * part_size
                })
                &&& forall|j: int|
                    0 <= j < data@.len() ==> #[trigger] data@[j] == body[n * part_size + j]
            },
            UploadStep::Complete { parts } => {
                &&& body.len() <= n * part_size
                &&& parts.len() == n
                &&& forall|i: int|
                    0 <= i < n ==> (#[trigger] parts[i]).part_number == i + 1 && parts[i].e_tag
                        == tags[i]
            },
        },
{
    lemma_upload_run(key, upload_id, body, part_size, tags, states, n);
    law_upload_sends_the_body_in_turn(states[n], step);
}

proof fn lemma_upload_run(
    key: Seq<char>,
    upload_id: String,
    body: Seq<u8>,
    part_size: usize,
    tags: Seq<String>,
    states: Seq<MultipartUpload>,
    n: int,
)
    requires
        0 <= n < states.len(),
        n <= tags.len(),
        upload_started(key, upload_id, body, part_size, states[0]),
        forall|i: int|
            0 <= i < n ==> #[trigger] states[i].goes_on(tags[i], states[i + 1]) && i * part_size
                < body.len(),
    ensures
        states[n].wf(),
        states[n].key@ == key,
        states[n].upload_id == upload_id,
        states[n].body@ == body,
        states[n].part_size == part_size,
        states[n].etags@ == tags.take(n),
    decreases n,
{
    if n == 0 {
        assert(states[0].etags@ =~= tags.take(0));
    } else {
        lemma_upload_run(key, upload_id, body, part_size, tags, states, n - 1);
        assert(states[n - 1].goes_on(tags[n - 1], states[n - 1 + 1]));
        assert(tags.take(n) =~= tags.take(n - 1).push(tags[n - 1]));
        assert(part_size > 0);
        lemma_piece_bounds(body.len(), part_size as nat, (n - 1) as nat);
    }
}

} // verus!
