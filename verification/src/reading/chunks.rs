//! The chunks of a record, as they are read and as they are decoded.
use vstd::prelude::*;

use crate::reading::error::ReadingError;
use crate::reading::layout::{FULL_BYTES, NUM_S_BUCKETS};

verus! {

/// `bytes` with `mask` laid over it by exclusive or.
pub open spec fn masked(bytes: Seq<u8>, mask: Seq<u8>) -> Seq<u8> {
    Seq::new(bytes.len(), |i: int| bytes[i] ^ mask[i])
}

/// Lays the hash of a proof over a chunk, which encodes the chunk, or decodes it.
pub fn mask_chunk(chunk: &[u8; FULL_BYTES], hash: &[u8; FULL_BYTES]) -> (r: [u8; FULL_BYTES])
    ensures
        r@ == masked(chunk@, hash@),
        forall|i: int| 0 <= i < 32 ==> #[trigger] r@[i] == chunk@[i] ^ hash@[i],
{
    let mut r: [u8; FULL_BYTES] = [0u8; FULL_BYTES];
    let mut i: usize = 0;
    while i < FULL_BYTES
        invariant
            0 <= i <= FULL_BYTES,
            forall|k: int| 0 <= k < i ==> #[trigger] r@[k] == chunk@[k] ^ hash@[k],
        decreases FULL_BYTES - i,
    {
        r[i] = chunk[i] ^ hash[i];
        i += 1;
    }
    proof {
        assert(r@ =~= masked(chunk@, hash@));
    }
    r
}

/// Masking twice with the same mask gives back what was there: decoding undoes encoding.
pub proof fn law_mask_undoes_mask(bytes: Seq<u8>, mask: Seq<u8>)
    requires
        bytes.len() == mask.len(),
    ensures
        masked(masked(bytes, mask), mask) == bytes,
{
    assert forall|i: int| 0 <= i < bytes.len() implies #[trigger] masked(
        masked(bytes, mask),
        mask,
    )[i] == bytes[i] by {
        let a = bytes[i];
        let b = mask[i];
        assert((a ^ b) ^ b == a) by (bit_vector);
    }
    assert(masked(masked(bytes, mask), mask) =~= bytes);
}

/// Every byte is masked by the byte of the mask at its own place: what a byte and what became of it
/// differ by is the byte of the mask there.
pub proof fn law_mask_goes_byte_by_byte(bytes: Seq<u8>, mask: Seq<u8>, i: int)
    requires
        bytes.len() == mask.len(),
        0 <= i < bytes.len(),
    ensures
        masked(bytes, mask).len() == bytes.len(),
        masked(bytes, mask)[i] == bytes[i] ^ mask[i],
        masked(bytes, mask)[i] ^ bytes[i] == mask[i],
        masked(bytes, mask)[i] ^ mask[i] == bytes[i],
{
    let a = bytes[i];
    let b = mask[i];
    assert((a ^ b) ^ a == b && (a ^ b) ^ b == a) by (bit_vector);
}

/// Zeros masked are the mask, and a mask of zeros changes nothing.
pub proof fn law_mask_of_zeros(bytes: Seq<u8>)
    ensures
        masked(Seq::new(bytes.len(), |i: int| 0u8), bytes) == bytes,
        masked(bytes, Seq::new(bytes.len(), |i: int| 0u8)) == bytes,
{
    let none = Seq::new(bytes.len(), |i: int| 0u8);
    assert forall|i: int| 0 <= i < bytes.len() implies #[trigger] masked(none, bytes)[i] == bytes[i]
        && masked(bytes, none)[i] == bytes[i] by {
        let a = bytes[i];
        assert(0u8 ^ a == a && a ^ 0u8 == a) by (bit_vector);
    }
    assert(masked(none, bytes) =~= bytes);
    assert forall|i: int| 0 <= i < bytes.len() implies #[trigger] masked(bytes, none)[i]
        == bytes[i] by {
        let a = bytes[i];
        assert(a ^ 0u8 == a) by (bit_vector);
    }
    assert(masked(bytes, none) =~= bytes);
}

/// Another byte in the mask, or in what is masked, changes the byte at that place and no other.
pub proof fn law_mask_is_local(bytes: Seq<u8>, mask: Seq<u8>, i: int, byte: u8)
    requires
        bytes.len() == mask.len(),
        0 <= i < bytes.len(),
    ensures
        masked(bytes, mask.update(i, byte)) == masked(bytes, mask).update(i, bytes[i] ^ byte),
        masked(bytes.update(i, byte), mask) == masked(bytes, mask).update(i, byte ^ mask[i]),
{
    assert(masked(bytes, mask.update(i, byte)) =~= masked(bytes, mask).update(i, bytes[i] ^ byte));
    assert(masked(bytes.update(i, byte), mask) =~= masked(bytes, mask).update(i, byte ^ mask[i]));
}

/// A chunk of 32 bytes.
pub fn to_chunk(bytes: &Vec<u8>) -> (r: [u8; FULL_BYTES])
    requires
        bytes.len() == FULL_BYTES,
    ensures
        r@ == bytes@,
{
    let mut r: [u8; FULL_BYTES] = [0u8; FULL_BYTES];
    let mut i: usize = 0;
    while i < FULL_BYTES
        invariant
            bytes.len() == FULL_BYTES,
            0 <= i <= FULL_BYTES,
            forall|k: int| 0 <= k < i ==> #[trigger] r@[k] == bytes@[k],
        decreases FULL_BYTES - i,
    {
        r[i] = bytes[i];
        i += 1;
    }
    proof {
        assert(r@ =~= bytes@);
    }
    r
}

/// `chunk` is the chunk of `s_bucket` that was read as `raw`: an encoded one is unmasked with the
/// hash of the proof for the s-bucket.
pub open spec fn decodes<P: Fn(u16) -> [u8; FULL_BYTES]>(
    proof_hash: P,
    s_bucket: u16,
    raw: Seq<u8>,
    encoded: bool,
    chunk: [u8; FULL_BYTES],
) -> bool {
    if encoded {
        exists|hash: [u8; FULL_BYTES]| #[trigger]
            call_ensures(proof_hash, (s_bucket,), hash) && chunk@ == masked(raw, hash@)
    } else {
        chunk@ == raw
    }
}

/// What came of the chunk of `s_bucket`, if one was read: the scalar that it is.
pub open spec fn chunk_done<P: Fn(u16) -> [u8; FULL_BYTES], T: Fn([u8; FULL_BYTES]) -> Result<
    S,
    String,
>, S>(
    proof_hash: P,
    to_scalar: T,
    s_bucket: u16,
    data: Option<(Vec<u8>, u64, bool)>,
    done: Option<S>,
) -> bool {
    match data {
        None => done is None,
        Some((raw, _, encoded)) => done is Some && exists|chunk: [u8; FULL_BYTES]| #[trigger]
            decodes(proof_hash, s_bucket, raw@, encoded, chunk) && call_ensures(
                to_scalar,
                (chunk,),
                Ok::<S, String>(done->0),
            ),
    }
}

/// The chunk of `s_bucket` that was read is no scalar, for the reason `error`.
pub open spec fn chunk_refused<P: Fn(u16) -> [u8; FULL_BYTES], T: Fn([u8; FULL_BYTES]) -> Result<
    S,
    String,
>, S>(
    proof_hash: P,
    to_scalar: T,
    s_bucket: u16,
    data: Option<(Vec<u8>, u64, bool)>,
    error: ReadingError,
) -> bool {
    &&& data is Some
    &&& error matches ReadingError::InvalidChunk {
        s_bucket: bucket,
        encoded_chunk_used,
        chunk_location,
        error: reason,
    }
    &&& bucket == s_bucket
    &&& encoded_chunk_used == (data->0).2
    &&& chunk_location == (data->0).1
    &&& exists|chunk: [u8; FULL_BYTES]| #[trigger]
        decodes(proof_hash, s_bucket, (data->0).0@, (data->0).2, chunk) && call_ensures(
            to_scalar,
            (chunk,),
            Err::<S, String>(reason),
        )
}

/// The number of s-buckets for which something was, or was not, read.
pub open spec fn covered(record_data: Seq<Option<(Vec<u8>, u64, bool)>>) -> nat {
    if record_data.len() < NUM_S_BUCKETS {
        record_data.len()
    } else {
        NUM_S_BUCKETS as nat
    }
}

/// The chunks that were read have the size of a chunk, there is a proof for each encoded one, and
/// whether a chunk is a scalar can be asked of all of them.
pub open spec fn decodable<P: Fn(u16) -> [u8; FULL_BYTES], T: Fn([u8; FULL_BYTES]) -> Result<
    S,
    String,
>, S>(proof_hash: P, to_scalar: T, record_data: Seq<Option<(Vec<u8>, u64, bool)>>) -> bool {
    &&& forall|i: int|
        0 <= i < covered(record_data) && (#[trigger] record_data[i]) is Some ==> {
            &&& (record_data[i]->0).0.len() == FULL_BYTES
            &&& (record_data[i]->0).2 ==> call_requires(proof_hash, (i as u16,))
        }
    &&& forall|chunk: [u8; FULL_BYTES]| #[trigger] call_requires(to_scalar, (chunk,))
}

/// `chunks` are the scalars of all the s-buckets that were read, and nothing for the others.
pub open spec fn all_done<P: Fn(u16) -> [u8; FULL_BYTES], T: Fn([u8; FULL_BYTES]) -> Result<
    S,
    String,
>, S>(
    proof_hash: P,
    to_scalar: T,
    record_data: Seq<Option<(Vec<u8>, u64, bool)>>,
    chunks: Seq<Option<S>>,
) -> bool {
    &&& chunks.len() == NUM_S_BUCKETS
    &&& forall|i: int|
        0 <= i < covered(record_data) ==> chunk_done(
            proof_hash,
            to_scalar,
            i as u16,
            record_data[i],
            #[trigger] chunks[i],
        )
    &&& forall|i: int| covered(record_data) <= i < NUM_S_BUCKETS ==> (#[trigger] chunks[i]) is None
}

/// One of the chunks that were read is no scalar, and `error` says which and why.
pub open spec fn one_refused<P: Fn(u16) -> [u8; FULL_BYTES], T: Fn([u8; FULL_BYTES]) -> Result<
    S,
    String,
>, S>(
    proof_hash: P,
    to_scalar: T,
    record_data: Seq<Option<(Vec<u8>, u64, bool)>>,
    error: ReadingError,
) -> bool {
    exists|i: int|
        0 <= i < covered(record_data) && chunk_refused(
            proof_hash,
            to_scalar,
            i as u16,
            #[trigger] record_data[i],
            error,
        )
}

/// Decodes the chunks of a record, one for each s-bucket from the first on, as
/// `(bytes, location, encoded)` if it was plotted. Only plotted s-buckets have a scalar in the
/// result. `proof_hash` gives the hash of the proof for an s-bucket, `to_scalar` the scalar that a
/// chunk is.
pub fn read_sector_record_chunks_qiniu<
    P: Fn(u16) -> [u8; FULL_BYTES],
    T: Fn([u8; FULL_BYTES]) -> Result<S, String>,
    S,
>(proof_hash: &P, to_scalar: &T, record_data: &Vec<Option<(Vec<u8>, u64, bool)>>) -> (res: Result<
    Vec<Option<S>>,
    ReadingError,
>)
    requires
        decodable(*proof_hash, *to_scalar, record_data@),
    ensures
        match res {
            Ok(chunks) => all_done(*proof_hash, *to_scalar, record_data@, chunks@),
            Err(error) => one_refused(*proof_hash, *to_scalar, record_data@, error),
        },
{
    let mut chunks: Vec<Option<S>> = Vec::new();
    let mut i: usize = 0;
    while i < NUM_S_BUCKETS
        invariant
            decodable(*proof_hash, *to_scalar, record_data@),
            0 <= i <= NUM_S_BUCKETS,
            chunks.len() == i,
            forall|k: int|
                0 <= k < i && k < covered(record_data@) ==> chunk_done(
                    *proof_hash,
                    *to_scalar,
                    k as u16,
                    record_data[k],
                    #[trigger] chunks[k],
                ),
            forall|k: int|
                covered(record_data@) <= k < i ==> (#[trigger] chunks[k]) is None,
        decreases NUM_S_BUCKETS - i,
    {
        if i >= record_data.len() {
            chunks.push(None);
        } else {
            match &record_data[i] {
                None => {
                    chunks.push(None);
                },
                Some((raw, chunk_location, encoded_chunk_used)) => {
                    let s_bucket: u16 = i as u16;
                    let ghost data = record_data@[i as int];
                    proof {
                        assert(data is Some);
                    }
                    let mut chunk: [u8; FULL_BYTES] = to_chunk(raw);
                    if *encoded_chunk_used {
                        let hash: [u8; FULL_BYTES] = proof_hash(s_bucket);
                        chunk = mask_chunk(&chunk, &hash);
                        proof {
                            assert(call_ensures(*proof_hash, (s_bucket,), hash));
                        }
                    }
                    proof {
                        assert(decodes(
                            *proof_hash,
                            s_bucket,
                            raw@,
                            *encoded_chunk_used,
                            chunk,
                        ));
                    }
                    match to_scalar(chunk) {
                        Ok(scalar) => {
                            chunks.push(Some(scalar));
                        },
                        Err(error) => {
                            let refused = ReadingError::InvalidChunk {
                                s_bucket,
                                encoded_chunk_used: *encoded_chunk_used,
                                chunk_location: *chunk_location,
                                error,
                            };
                            proof {
                                assert(chunk_refused(
                                    *proof_hash,
                                    *to_scalar,
                                    s_bucket,
                                    record_data@[i as int],
                                    refused,
                                ));
                            }
                            return Err(refused);
                        },
                    }
                },
            }
        }
        i += 1;
    }
    Ok(chunks)
}

/// The scalar of a plotted s-bucket is that of the bytes that were read for it, and where the chunk
/// is encoded, of these bytes with the hash of the proof for this very s-bucket laid over them, each
/// byte over the byte at its place. An s-bucket with nothing read has none.
pub proof fn law_scalar_is_of_its_bytes<
    P: Fn(u16) -> [u8; FULL_BYTES],
    T: Fn([u8; FULL_BYTES]) -> Result<S, String>,
    S,
>(
    proof_hash: P,
    to_scalar: T,
    record_data: Seq<Option<(Vec<u8>, u64, bool)>>,
    chunks: Seq<Option<S>>,
    i: int,
) -> (found: ([u8; FULL_BYTES], [u8; FULL_BYTES]))
    requires
        all_done(proof_hash, to_scalar, record_data, chunks),
        0 <= i < 65536,
    ensures
        chunks.len() == 65536,
        i >= record_data.len() || record_data[i] is None ==> chunks[i] is None,
        i < record_data.len() && record_data[i] is Some ==> {
            let (chunk, hash) = found;
            let raw = (record_data[i]->0).0@;
            &&& chunks[i] is Some
            &&& call_ensures(to_scalar, (chunk,), Ok::<S, String>(chunks[i]->0))
            &&& (record_data[i]->0).2 ==> {
                &&& call_ensures(proof_hash, (i as u16,), hash)
                &&& raw.len() == 32
                &&& forall|j: int| 0 <= j < 32 ==> #[trigger] chunk@[j] == raw[j] ^ hash@[j]
            }
            &&& !(record_data[i]->0).2 ==> chunk@ == raw
        },
{
    if i < covered(record_data) {
        assert(chunk_done(proof_hash, to_scalar, i as u16, record_data[i], chunks[i]));
        match record_data[i] {
            Some((raw, _, encoded)) => {
                let chunk = choose|chunk: [u8; FULL_BYTES]| #[trigger]
                    decodes(proof_hash, i as u16, raw@, encoded, chunk) && call_ensures(
                        to_scalar,
                        (chunk,),
                        Ok::<S, String>(chunks[i]->0),
                    );
                let hash = choose|hash: [u8; FULL_BYTES]| #[trigger]
                    call_ensures(proof_hash, (i as u16,), hash) && chunk@ == masked(raw@, hash@);
                if encoded {
                    assert(chunk@.len() == 32);
                }
                (chunk, hash)
            },
            None => arbitrary(),
        }
    } else {
        assert(chunks[i] is None);
        arbitrary()
    }
}

/// The error for a chunk that is no scalar names the s-bucket, the location and the kind of a chunk
/// that was read and that the reason is given for.
pub proof fn law_refused_chunk_is_named<
    P: Fn(u16) -> [u8; FULL_BYTES],
    T: Fn([u8; FULL_BYTES]) -> Result<S, String>,
    S,
>(
    proof_hash: P,
    to_scalar: T,
    record_data: Seq<Option<(Vec<u8>, u64, bool)>>,
    error: ReadingError,
) -> (found: ([u8; FULL_BYTES], [u8; FULL_BYTES]))
    requires
        one_refused(proof_hash, to_scalar, record_data, error),
    ensures
        error is InvalidChunk,
        ({
            let i = error->InvalidChunk_s_bucket as int;
            let (chunk, hash) = found;
            let raw = (record_data[i]->0).0@;
            &&& i < record_data.len()
            &&& record_data[i] is Some
            &&& error->InvalidChunk_chunk_location == (record_data[i]->0).1
            &&& error->InvalidChunk_encoded_chunk_used == (record_data[i]->0).2
            &&& call_ensures(to_scalar, (chunk,), Err::<S, String>(error->InvalidChunk_error))
            &&& (record_data[i]->0).2 ==> {
                &&& call_ensures(proof_hash, (i as u16,), hash)
                &&& forall|j: int| 0 <= j < 32 ==> #[trigger] chunk@[j] == raw[j] ^ hash@[j]
            }
            &&& !(record_data[i]->0).2 ==> chunk@ == raw
        }),
{
    let i = choose|i: int|
        0 <= i < covered(record_data) && chunk_refused(
            proof_hash,
            to_scalar,
            i as u16,
            #[trigger] record_data[i],
            error,
        );
    let raw = (record_data[i]->0).0@;
    let encoded = (record_data[i]->0).2;
    let chunk = choose|chunk: [u8; FULL_BYTES]| #[trigger]
        decodes(proof_hash, i as u16, raw, encoded, chunk) && call_ensures(
            to_scalar,
            (chunk,),
            Err::<S, String>(error->InvalidChunk_error),
        );
    let hash = choose|hash: [u8; FULL_BYTES]| #[trigger]
        call_ensures(proof_hash, (i as u16,), hash) && chunk@ == masked(raw, hash@);
    if encoded {
        assert(chunk@.len() == 32);
    }
    (chunk, hash)
}

} // verus!
