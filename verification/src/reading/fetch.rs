//! Fetching the chunks of a record.
use vstd::prelude::*;

use crate::reading::chunks;
use crate::reading::chunks::read_sector_record_chunks_qiniu;
use crate::reading::error::ReadingError;
use crate::reading::layout::{SectorLayout, FULL_BYTES, NUM_S_BUCKETS};
use crate::bytes::copy_range;

verus! {

/// Defines a mode of reading chunks in [`read_sector_record_chunks`].
///
/// Which option that is slower or faster depends on disk used, there is no one-size-fits-all here,
/// unfortunately.
#[derive(Debug, Copy, Clone, PartialEq, Eq)]
pub enum ReadSectorRecordChunksMode {
    /// Read individual chunks ([`FULL_BYTES`] in size) concurrently, which results in lower total
    /// data transfer, but requires for SSD to support high concurrency and low latency.
    ConcurrentChunks,
    /// Read the whole sector at once and extract chunks from in-memory buffer, which uses more
    /// memory, but only requires linear read speed from the disk to be decent.
    WholeSector,
}

/// The chunks that were plotted, in the order of the s-buckets.
pub open spec fn plotted_of(index: Seq<Option<(u64, u64, bool)>>) -> Seq<(u64, u64, bool)>
    decreases index.len(),
{
    if index.len() == 0 {
        Seq::empty()
    } else {
        match index.last() {
            Some(entry) => plotted_of(index.drop_last()).push(entry),
            None => plotted_of(index.drop_last()),
        }
    }
}

/// How many chunks were plotted for the s-buckets before `i`.
pub open spec fn rank(index: Seq<Option<(u64, u64, bool)>>, i: int) -> nat {
    plotted_of(index.take(i)).len()
}

/// The chunk of the s-bucket `i` is the one of its rank among the plotted ones.
pub proof fn lemma_rank(index: Seq<Option<(u64, u64, bool)>>, i: int)
    requires
        0 <= i < index.len(),
    ensures
        rank(index, i + 1) == rank(index, i) + (if index[i] is Some {
            1nat
        } else {
            0
        }),
        index[i] is Some ==> rank(index, i) < plotted_of(index).len() && plotted_of(
            index,
        )[rank(index, i) as int] == index[i]->0,
    decreases index.len(),
{
    assert(index.take(i + 1).drop_last() =~= index.take(i));
    assert(index.take(i + 1).last() == index[i]);
    let front = index.drop_last();
    if i < front.len() {
        lemma_rank(front, i);
        assert(front.take(i) =~= index.take(i));
    } else {
        assert(index.take(i) =~= front);
    }
}

/// The plotted chunks, in the order of the s-buckets.
fn plotted_chunks(index: &Vec<Option<(u64, u64, bool)>>) -> (r: Vec<(u64, u64, bool)>)
    ensures
        r@ == plotted_of(index@),
{
    let mut r: Vec<(u64, u64, bool)> = Vec::new();
    let mut i: usize = 0;
    while i < index.len()
        invariant
            0 <= i <= index.len(),
            r@ == plotted_of(index@.take(i as int)),
        decreases index.len() - i,
    {
        proof {
            assert(index@.take(i + 1).drop_last() =~= index@.take(i as int));
        }
        match index[i] {
            Some(entry) => {
                r.push(entry);
            },
            None => {},
        }
        i += 1;
    }
    proof {
        assert(index@.take(i as int) =~= index@);
    }
    r
}

/// The byte ranges `(position, length)` of the plotted chunks.
pub open spec fn ranges_of(index: Seq<Option<(u64, u64, bool)>>) -> Seq<(u64, u64)> {
    plotted_of(index).map_values(|entry: (u64, u64, bool)| (entry.0, FULL_BYTES as u64))
}

/// The byte ranges `(position, length)` of the plotted chunks.
pub fn chunk_ranges(index: &Vec<Option<(u64, u64, bool)>>) -> (r: Vec<(u64, u64)>)
    ensures
        r@ == ranges_of(index@),
{
    let plotted: Vec<(u64, u64, bool)> = plotted_chunks(index);
    let mut r: Vec<(u64, u64)> = Vec::new();
    let mut n: usize = 0;
    while n < plotted.len()
        invariant
            plotted@ == plotted_of(index@),
            0 <= n <= plotted.len(),
            r@ == ranges_of(index@).take(n as int),
        decreases plotted.len() - n,
    {
        r.push((plotted[n].0, FULL_BYTES as u64));
        n += 1;
        proof {
            assert(r@ =~= ranges_of(index@).take(n as int));
        }
    }
    proof {
        assert(ranges_of(index@).take(n as int) =~= ranges_of(index@));
    }
    r
}

/// `asked` is what is to be read, as `(position, length)`, to have the chunks of a record: the whole
/// sector, or every plotted chunk.
pub open spec fn reads_asked(
    mode: ReadSectorRecordChunksMode,
    index: Seq<Option<(u64, u64, bool)>>,
    layout: SectorLayout,
    asked: Seq<(u64, u64)>,
) -> bool {
    match mode {
        ReadSectorRecordChunksMode::WholeSector => asked == seq![(0u64, layout.sector_size)],
        ReadSectorRecordChunksMode::ConcurrentChunks => asked == ranges_of(index),
    }
}

/// What is to be read, as `(position, length)`, to have the chunks of a record: the whole sector,
/// or every plotted chunk.
pub fn sector_reads(
    mode: ReadSectorRecordChunksMode,
    index: &Vec<Option<(u64, u64, bool)>>,
    layout: &SectorLayout,
) -> (r: Vec<(u64, u64)>)
    ensures
        match mode {
            ReadSectorRecordChunksMode::WholeSector => r@ == seq![(0u64, layout.sector_size)],
            ReadSectorRecordChunksMode::ConcurrentChunks => r@ == ranges_of(index@),
        },
        reads_asked(mode, index@, *layout, r@),
{
    match mode {
        ReadSectorRecordChunksMode::WholeSector => {
            let mut r: Vec<(u64, u64)> = Vec::new();
            r.push((0, layout.sector_size));
            proof {
                assert(r@ =~= seq![(0u64, layout.sector_size)]);
            }
            r
        },
        ReadSectorRecordChunksMode::ConcurrentChunks => chunk_ranges(index),
    }
}

/// The bytes `raw(i)` of every plotted s-bucket `i`, with location and kind of the chunk.
pub open spec fn with_bytes(
    index: Seq<Option<(u64, u64, bool)>>,
    raw: spec_fn(int) -> Option<Seq<u8>>,
    data: Seq<Option<(Vec<u8>, u64, bool)>>,
) -> bool {
    &&& data.len() == index.len()
    &&& forall|i: int|
        0 <= i < data.len() ==> match (#[trigger] data[i]) {
            None => index[i] is None || raw(i) is None,
            Some((bytes, location, encoded)) => {
                &&& index[i] is Some
                &&& raw(i) == Some(bytes@)
                &&& location == (index[i]->0).1
                &&& encoded == (index[i]->0).2
            },
        }
}

/// What the s-bucket `i` gets when the plotted chunks get `buffs` in turn.
pub open spec fn dealt(
    index: Seq<Option<(u64, u64, bool)>>,
    buffs: Seq<Vec<u8>>,
    i: int,
) -> Option<Seq<u8>> {
    let n = rank(index, i) as int;
    if n < buffs.len() {
        Some(buffs[n]@)
    } else {
        None
    }
}

/// What the s-bucket `i` gets out of the whole sector.
pub open spec fn cut(index: Seq<Option<(u64, u64, bool)>>, sector: Seq<u8>, i: int) -> Option<
    Seq<u8>,
> {
    let from = (index[i]->0).0 as int;
    Some(sector.subrange(from, from + FULL_BYTES))
}

/// Deals the buffers out to the plotted s-buckets, in turn, as long as there are any.
pub fn deal_chunks(index: &Vec<Option<(u64, u64, bool)>>, buffs: Vec<Vec<u8>>) -> (data: Vec<
    Option<(Vec<u8>, u64, bool)>,
>)
    ensures
        with_bytes(index@, |i: int| dealt(index@, buffs@, i), data@),
{
    let ghost all = buffs@;
    let mut data: Vec<Option<(Vec<u8>, u64, bool)>> = Vec::new();
    proof {
        assert(index@.take(0) =~= Seq::<Option<(u64, u64, bool)>>::empty());
    }
    for buff in it: buffs
        invariant
            it.seq() == all,
            data.len() <= index.len(),
            data.len() < index.len() ==> rank(index@, data.len() as int) == it.index(),
            data.len() == index.len() ==> rank(index@, index.len() as int) <= it.index(),
            forall|i: int|
                0 <= i < data.len() ==> match (#[trigger] data@[i]) {
                    None => index[i] is None,
                    Some((bytes, location, encoded)) => {
                        &&& index[i] is Some
                        &&& dealt(index@, all, i) == Some(bytes@)
                        &&& location == (index[i]->0).1
                        &&& encoded == (index[i]->0).2
                    },
                },
    {
        let ghost n = it.index();
        proof {
            assert(buff == all[n]);
        }
        while data.len() < index.len() && index[data.len()].is_none()
            invariant
                0 <= n < all.len(),
                data.len() <= index.len(),
                data.len() < index.len() ==> rank(index@, data.len() as int) == n,
                data.len() == index.len() ==> rank(index@, index.len() as int) <= n,
                forall|i: int|
                    0 <= i < data.len() ==> match (#[trigger] data@[i]) {
                        None => index[i] is None,
                        Some((bytes, location, encoded)) => {
                            &&& index[i] is Some
                            &&& dealt(index@, all, i) == Some(bytes@)
                            &&& location == (index[i]->0).1
                            &&& encoded == (index[i]->0).2
                        },
                    },
            decreases index.len() - data.len(),
        {
            proof {
                lemma_rank(index@, data.len() as int);
            }
            data.push(None);
        }
        let i: usize = data.len();
        if i < index.len() {
            proof {
                lemma_rank(index@, i as int);
            }
            match index[i] {
                Some((_, location, encoded)) => {
                    data.push(Some((buff, location, encoded)));
                },
                None => {},
            }
        }
    }
    let ghost before = data@;
    while data.len() < index.len()
        invariant
            before.len() <= data.len() <= index.len(),
            before.len() < index.len() ==> rank(index@, before.len() as int) == all.len(),
            data.len() < index.len() ==> rank(index@, data.len() as int) >= all.len(),
            forall|i: int| 0 <= i < before.len() ==> #[trigger] data@[i] == before[i],
            forall|i: int|
                before.len() <= i < data.len() ==> (#[trigger] data@[i]) is None && dealt(
                    index@,
                    all,
                    i,
                ) is None,
        decreases index.len() - data.len(),
    {
        proof {
            lemma_rank(index@, data.len() as int);
        }
        data.push(None);
    }
    proof {
        assert forall|i: int| 0 <= i < data.len() implies match (#[trigger] data@[i]) {
            None => index[i] is None || dealt(index@, all, i) is None,
            Some((bytes, location, encoded)) => {
                &&& index[i] is Some
                &&& dealt(index@, all, i) == Some(bytes@)
                &&& location == (index[i]->0).1
                &&& encoded == (index[i]->0).2
            },
        } by {
            if i < before.len() {
                assert(data@[i] == before[i]);
            }
        }
    }
    data
}

/// All the plotted chunks lie in the sector.
pub open spec fn inside(index: Seq<Option<(u64, u64, bool)>>, sector_len: nat) -> bool {
    forall|i: int|
        0 <= i < index.len() && (#[trigger] index[i]) is Some ==> (index[i]->0).0 + FULL_BYTES
            <= sector_len
}

/// Cuts the plotted chunks out of the whole sector.
pub fn cut_chunks(index: &Vec<Option<(u64, u64, bool)>>, sector: &Vec<u8>) -> (data: Vec<
    Option<(Vec<u8>, u64, bool)>,
>)
    requires
        inside(index@, sector@.len()),
    ensures
        with_bytes(index@, |i: int| cut(index@, sector@, i), data@),
{
    let mut data: Vec<Option<(Vec<u8>, u64, bool)>> = Vec::new();
    let mut i: usize = 0;
    while i < index.len()
        invariant
            inside(index@, sector@.len()),
            0 <= i <= index.len(),
            data.len() == i,
            forall|k: int|
                0 <= k < i ==> match (#[trigger] data@[k]) {
                    None => index[k] is None,
                    Some((bytes, location, encoded)) => {
                        &&& index[k] is Some
                        &&& cut(index@, sector@, k) == Some(bytes@)
                        &&& location == (index[k]->0).1
                        &&& encoded == (index[k]->0).2
                    },
                },
        decreases index.len() - i,
    {
        match index[i] {
            Some((position, location, encoded)) => {
                proof {
                    assert(index@[i as int] is Some);
                    assert(position + FULL_BYTES <= sector.len());
                }
                let bytes: Vec<u8> = copy_range(sector, position as usize, FULL_BYTES);
                data.push(Some((bytes, location, encoded)));
            },
            None => {
                data.push(None);
            },
        }
        i += 1;
    }
    data
}

/// The first of the reads that failed is the read `n`, for the reason `error`.
pub open spec fn first_failure(
    reads: Seq<Result<Vec<u8>, std::io::Error>>,
    n: int,
    error: std::io::Error,
) -> bool {
    &&& 0 <= n < reads.len()
    &&& reads[n] == Err::<Vec<u8>, std::io::Error>(error)
    &&& forall|k: int| 0 <= k < n ==> (#[trigger] reads[k]) is Ok
}

/// The reads all brought something: `buffs`.
pub open spec fn all_read(
    reads: Seq<Result<Vec<u8>, std::io::Error>>,
    buffs: Seq<Vec<u8>>,
) -> bool {
    &&& buffs.len() == reads.len()
    &&& forall|n: int|
        0 <= n < reads.len() ==> #[trigger] reads[n] == Ok::<Vec<u8>, std::io::Error>(buffs[n])
}

/// What the reads brought, or the number of the first one that failed and why it did.
fn collect_reads(reads: Vec<Result<Vec<u8>, std::io::Error>>) -> (res: Result<
    Vec<Vec<u8>>,
    (usize, std::io::Error),
>)
    ensures
        match res {
            Ok(buffs) => all_read(reads@, buffs@),
            Err((n, error)) => first_failure(reads@, n as int, error),
        },
{
    let ghost all = reads@;
    let mut buffs: Vec<Vec<u8>> = Vec::new();
    for read in it: reads
        invariant
            it.seq() == all,
            buffs.len() == it.index(),
            forall|n: int|
                0 <= n < buffs.len() ==> #[trigger] all[n] == Ok::<Vec<u8>, std::io::Error>(
                    buffs@[n],
                ),
    {
        let n: usize = buffs.len();
        proof {
            assert(read == all[n as int]);
        }
        match read {
            Ok(buff) => {
                buffs.push(buff);
            },
            Err(error) => {
                return Err((n, error));
            },
        }
    }
    Ok(buffs)
}

/// The chunks that were read, `(bytes, location, encoded)` for every plotted s-bucket. `reads` is
/// what the reads of [`sector_reads`] brought, one for each.
pub open spec fn chunks_read(
    mode: ReadSectorRecordChunksMode,
    index: Seq<Option<(u64, u64, bool)>>,
    reads: Seq<Result<Vec<u8>, std::io::Error>>,
    data: Seq<Option<(Vec<u8>, u64, bool)>>,
) -> bool {
    match mode {
        ReadSectorRecordChunksMode::WholeSector => reads[0] matches Ok(sector) && with_bytes(
            index,
            |i: int| cut(index, sector@, i),
            data,
        ),
        ReadSectorRecordChunksMode::ConcurrentChunks => exists|buffs: Seq<Vec<u8>>| #[trigger]
            all_read(reads, buffs) && with_bytes(index, |i: int| dealt(index, buffs, i), data),
    }
}

/// The error of a sector that could not be read: a failed read of the whole sector is an I/O
/// error, a failed read of a chunk names the chunk.
pub open spec fn read_refused(
    mode: ReadSectorRecordChunksMode,
    index: Seq<Option<(u64, u64, bool)>>,
    reads: Seq<Result<Vec<u8>, std::io::Error>>,
    error: ReadingError,
) -> bool {
    match mode {
        ReadSectorRecordChunksMode::WholeSector => exists|io: std::io::Error|
            #![trigger first_failure(reads, 0, io)]
            first_failure(reads, 0, io) && error == ReadingError::Io(io),
        ReadSectorRecordChunksMode::ConcurrentChunks => exists|n: int, io: std::io::Error|
            #![trigger first_failure(reads, n, io)]
            first_failure(reads, n, io) && error == (ReadingError::FailedToReadChunk {
                chunk_location: plotted_of(index)[n].1,
                error: io,
            }),
    }
}

/// There is one read for each of those that the mode asks for, and those that brought something
/// brought as much as was asked.
pub open spec fn reads_fit(
    mode: ReadSectorRecordChunksMode,
    index: Seq<Option<(u64, u64, bool)>>,
    reads: Seq<Result<Vec<u8>, std::io::Error>>,
) -> bool {
    match mode {
        ReadSectorRecordChunksMode::WholeSector => reads.len() == 1 && (reads[0] matches Ok(sector)
            ==> inside(index, sector@.len())),
        ReadSectorRecordChunksMode::ConcurrentChunks => reads.len() == plotted_of(index).len()
            && forall|n: int|
            0 <= n < reads.len() && (#[trigger] reads[n]) is Ok ==> reads[n]->Ok_0.len()
                == FULL_BYTES,
    }
}

/// Takes the chunks out of what was read.
fn take_chunks(
    mode: ReadSectorRecordChunksMode,
    index: &Vec<Option<(u64, u64, bool)>>,
    reads: Vec<Result<Vec<u8>, std::io::Error>>,
) -> (res: Result<Vec<Option<(Vec<u8>, u64, bool)>>, ReadingError>)
    requires
        reads_fit(mode, index@, reads@),
    ensures
        match res {
            Ok(data) => {
                &&& chunks_read(mode, index@, reads@, data@)
                &&& data.len() == index.len()
                &&& forall|i: int|
                    0 <= i < data.len() ==> {
                        &&& (#[trigger] data[i]) is Some <==> index[i] is Some
                        &&& data[i] is Some ==> (data[i]->0).0.len() == FULL_BYTES && (
                        data[i]->0).2 == (index[i]->0).2
                    }
            },
            Err(error) => read_refused(mode, index@, reads@, error),
        },
{
    let ghost all = reads@;
    match collect_reads(reads) {
        Err((n, error)) => {
            proof {
                assert(first_failure(all, n as int, error));
            }
            match mode {
                ReadSectorRecordChunksMode::WholeSector => Err(ReadingError::Io(error)),
                ReadSectorRecordChunksMode::ConcurrentChunks => {
                    let plotted: Vec<(u64, u64, bool)> = plotted_chunks(index);
                    Err(ReadingError::FailedToReadChunk { chunk_location: plotted[n].1, error })
                },
            }
        },
        Ok(buffs) => match mode {
            ReadSectorRecordChunksMode::WholeSector => {
                proof {
                    assert(all[0] == Ok::<Vec<u8>, std::io::Error>(buffs@[0]));
                }
                Ok(cut_chunks(index, &buffs[0]))
            },
            ReadSectorRecordChunksMode::ConcurrentChunks => {
                let ghost dealt_out = buffs@;
                let data: Vec<Option<(Vec<u8>, u64, bool)>> = deal_chunks(index, buffs);
                proof {
                    assert(all_read(all, dealt_out));
                    assert forall|i: int| 0 <= i < data.len() implies {
                        &&& (#[trigger] data@[i]) is Some <==> index[i] is Some
                        &&& data@[i] is Some ==> (data@[i]->0).0.len() == FULL_BYTES && (
                        data@[i]->0).2 == (index[i]->0).2
                    } by {
                        if index[i] is Some {
                            lemma_rank(index@, i);
                            let n = rank(index@, i) as int;
                            assert(all[n] == Ok::<Vec<u8>, std::io::Error>(dealt_out[n]));
                            assert(dealt(index@, dealt_out, i) is Some);
                        }
                    }
                }
                Ok(data)
            },
        },
    }
}

/// `res` is what the reading of the chunks of a record out of a sector comes to.
pub open spec fn chunks_of_sector<
    P: Fn(u16) -> [u8; FULL_BYTES],
    T: Fn([u8; FULL_BYTES]) -> Result<S, String>,
    S,
>(
    proof_hash: P,
    to_scalar: T,
    mode: ReadSectorRecordChunksMode,
    index: Seq<Option<(u64, u64, bool)>>,
    reads: Seq<Result<Vec<u8>, std::io::Error>>,
    res: Result<Vec<Option<S>>, ReadingError>,
) -> bool {
    match res {
        Ok(done) => exists|data: Seq<Option<(Vec<u8>, u64, bool)>>| #[trigger]
            chunks_read(mode, index, reads, data) && data.len() == index.len() && chunks::all_done(
                proof_hash,
                to_scalar,
                data,
                done@,
            ),
        Err(error) => {
            ||| read_refused(mode, index, reads, error)
            ||| exists|data: Seq<Option<(Vec<u8>, u64, bool)>>| #[trigger]
                chunks_read(mode, index, reads, data) && data.len() == index.len()
                    && chunks::one_refused(proof_hash, to_scalar, data, error)
        },
    }
}

/// Read sector record chunks, only plotted s-buckets are returned (in decoded form).
///
/// `index` says where the chunks are in the sector, and `reads` is what the reads of
/// [`sector_reads`] brought, one for each. `proof_hash` gives the hash of the proof for an
/// s-bucket, `to_scalar` the scalar that a chunk is.
pub fn read_sector_record_chunks<
    P: Fn(u16) -> [u8; FULL_BYTES],
    T: Fn([u8; FULL_BYTES]) -> Result<S, String>,
    S,
>(
    mode: ReadSectorRecordChunksMode,
    index: &Vec<Option<(u64, u64, bool)>>,
    reads: Vec<Result<Vec<u8>, std::io::Error>>,
    proof_hash: &P,
    to_scalar: &T,
) -> (res: Result<Vec<Option<S>>, ReadingError>)
    requires
        index.len() <= NUM_S_BUCKETS,
        reads_fit(mode, index@, reads@),
        forall|i: int|
            0 <= i < index.len() && (#[trigger] index[i]) is Some && (index[i]->0).2
                ==> call_requires(*proof_hash, (i as u16,)),
        forall|chunk: [u8; FULL_BYTES]| #[trigger] call_requires(*to_scalar, (chunk,)),
    ensures
        chunks_of_sector(*proof_hash, *to_scalar, mode, index@, reads@, res),
{
    match take_chunks(mode, index, reads) {
        Err(error) => Err(error),
        Ok(data) => {
            proof {
                assert(chunks::covered(data@) == index.len());
            }
            read_sector_record_chunks_qiniu(proof_hash, to_scalar, &data)
        },
    }
}

/// Both modes of reading give the same chunks, where the reads of single chunks bring what is in
/// the sector.
pub proof fn law_modes_agree(
    index: Seq<Option<(u64, u64, bool)>>,
    sector: Vec<u8>,
    whole: Seq<Result<Vec<u8>, std::io::Error>>,
    single: Seq<Result<Vec<u8>, std::io::Error>>,
    data_whole: Seq<Option<(Vec<u8>, u64, bool)>>,
    data_single: Seq<Option<(Vec<u8>, u64, bool)>>,
)
    requires
        whole == seq![Ok::<Vec<u8>, std::io::Error>(sector)],
        inside(index, sector@.len()),
        single.len() == plotted_of(index).len(),
        forall|n: int|
            0 <= n < single.len() ==> (#[trigger] single[n]) is Ok && single[n]->Ok_0@
                == sector@.subrange(
                plotted_of(index)[n].0 as int,
                plotted_of(index)[n].0 + FULL_BYTES,
            ),
        chunks_read(ReadSectorRecordChunksMode::WholeSector, index, whole, data_whole),
        chunks_read(ReadSectorRecordChunksMode::ConcurrentChunks, index, single, data_single),
    ensures
        data_whole.len() == data_single.len(),
        forall|i: int|
            0 <= i < data_whole.len() ==> match (#[trigger] data_whole[i], data_single[i]) {
                (Some((a, al, ae)), Some((b, bl, be))) => a@ == b@ && al == bl && ae == be,
                (None, None) => true,
                _ => false,
            },
{
    let buffs = choose|buffs: Seq<Vec<u8>>| #[trigger]
        all_read(single, buffs) && with_bytes(
            index,
            |i: int| dealt(index, buffs, i),
            data_single,
        );
    assert forall|i: int| 0 <= i < data_whole.len() implies match (
        #[trigger] data_whole[i],
        data_single[i],
    ) {
        (Some((a, al, ae)), Some((b, bl, be))) => a@ == b@ && al == bl && ae == be,
        (None, None) => true,
        _ => false,
    } by {
        if index[i] is Some {
            lemma_rank(index, i);
            let n = rank(index, i) as int;
            assert(single[n] == Ok::<Vec<u8>, std::io::Error>(buffs[n]));
            assert(dealt(index, buffs, i) == Some(buffs[n]@));
        }
        assert(data_single[i] is Some <==> index[i] is Some);
    }
}

/// A chunk that could not be read is named by its location: the read that failed first was the one
/// for the bytes of the chunk there. A failed read of the whole sector names none.
pub proof fn law_unread_chunk_is_named(
    mode: ReadSectorRecordChunksMode,
    index: Seq<Option<(u64, u64, bool)>>,
    layout: SectorLayout,
    asked: Seq<(u64, u64)>,
    reads: Seq<Result<Vec<u8>, std::io::Error>>,
    error: ReadingError,
) -> (n: int)
    requires
        reads_asked(mode, index, layout, asked),
        reads.len() == asked.len(),
        forall|i: int|
            0 <= i < index.len() && (#[trigger] index[i]) is Some ==> (index[i]->0).0
                == layout.contents_map_size + 32 * (index[i]->0).1,
        read_refused(mode, index, reads, error),
    ensures
        0 <= n < reads.len(),
        forall|k: int| 0 <= k < n ==> (#[trigger] reads[k]) is Ok,
        reads[n] is Err,
        match mode {
            ReadSectorRecordChunksMode::WholeSector => error == ReadingError::Io(
                reads[n]->Err_0,
            ),
            ReadSectorRecordChunksMode::ConcurrentChunks => {
                &&& error is FailedToReadChunk
                &&& error->FailedToReadChunk_error == reads[n]->Err_0
                &&& asked[n].0 == layout.contents_map_size + 32
                    * error->FailedToReadChunk_chunk_location
            },
        },
{
    match mode {
        ReadSectorRecordChunksMode::WholeSector => 0,
        ReadSectorRecordChunksMode::ConcurrentChunks => {
            let (n, io) = choose|n: int, io: std::io::Error|
                #![trigger first_failure(reads, n, io)]
                first_failure(reads, n, io) && error == (ReadingError::FailedToReadChunk {
                    chunk_location: plotted_of(index)[n].1,
                    error: io,
                });
            lemma_plotted_is_indexed(index, n);
            n
        },
    }
}

/// Every plotted chunk is the one of an s-bucket.
proof fn lemma_plotted_is_indexed(index: Seq<Option<(u64, u64, bool)>>, n: int)
    requires
        0 <= n < plotted_of(index).len(),
    ensures
        exists|i: int|
            0 <= i < index.len() && #[trigger] index[i] == Some(plotted_of(index)[n]),
    decreases index.len(),
{
    let front = index.drop_last();
    if n < plotted_of(front).len() {
        lemma_plotted_is_indexed(front, n);
        let i = choose|i: int|
            0 <= i < front.len() && #[trigger] front[i] == Some(plotted_of(front)[n]);
        assert(index[i] == Some(plotted_of(index)[n]));
    } else {
        assert(index[index.len() - 1] == Some(plotted_of(index)[n]));
    }
}

/// The chunks that were read have the bytes that came for them: the whole sector is cut at the places
/// of the chunks, and the reads of single chunks are dealt out in the order of the s-buckets.
pub proof fn law_chunks_get_their_bytes(
    mode: ReadSectorRecordChunksMode,
    index: Seq<Option<(u64, u64, bool)>>,
    reads: Seq<Result<Vec<u8>, std::io::Error>>,
    data: Seq<Option<(Vec<u8>, u64, bool)>>,
    i: int,
    j: int,
)
    requires
        chunks_read(mode, index, reads, data),
        reads_fit(mode, index, reads),
        0 <= i < j < index.len(),
        index[i] is Some,
        index[j] is Some,
        forall|k: int| i < k < j ==> (#[trigger] index[k]) is None,
    ensures
        data.len() == index.len(),
        data[i] is Some && data[j] is Some,
        (data[i]->0).1 == (index[i]->0).1 && (data[i]->0).2 == (index[i]->0).2,
        match mode {
            ReadSectorRecordChunksMode::WholeSector => (data[i]->0).0@
                == reads[0]->Ok_0@.subrange(
                (index[i]->0).0 as int,
                (index[i]->0).0 + 32,
            ),
            ReadSectorRecordChunksMode::ConcurrentChunks => exists|n: int|
                #![trigger reads[n]]
                0 <= n < reads.len() - 1 && reads[n] is Ok && reads[n + 1] is Ok
                    && (data[i]->0).0@ == reads[n]->Ok_0@ && (data[j]->0).0@
                    == reads[n + 1]->Ok_0@,
        },
{
    match mode {
        ReadSectorRecordChunksMode::WholeSector => {
            let sector = reads[0]->Ok_0;
            assert(cut(index, sector@, i) is Some && cut(index, sector@, j) is Some);
            let a = data[i];
            let b = data[j];
        },
        ReadSectorRecordChunksMode::ConcurrentChunks => {
            let buffs = choose|buffs: Seq<Vec<u8>>| #[trigger]
                all_read(reads, buffs) && with_bytes(
                    index,
                    |i: int| dealt(index, buffs, i),
                    data,
                );
            lemma_rank(index, i);
            lemma_rank(index, j);
            lemma_rank_between(index, i, j);
            let n = rank(index, i) as int;
            assert(reads[n] == Ok::<Vec<u8>, std::io::Error>(buffs[n]));
            assert(reads[n + 1] == Ok::<Vec<u8>, std::io::Error>(buffs[n + 1]));
            assert(dealt(index, buffs, i) == Some(buffs[n]@));
            assert(dealt(index, buffs, j) == Some(buffs[n + 1]@));
            let a = data[i];
            let b = data[j];
            assert(0 <= n < reads.len() - 1 && reads[n] is Ok);
        },
    }
}

proof fn lemma_rank_between(index: Seq<Option<(u64, u64, bool)>>, i: int, j: int)
    requires
        0 <= i < j < index.len(),
        index[i] is Some,
        forall|k: int| i < k < j ==> (#[trigger] index[k]) is None,
    ensures
        rank(index, j) == rank(index, i) + 1,
    decreases j - i,
{
    lemma_rank(index, j - 1);
    if j - 1 > i {
        assert(index[j - 1] is None);
        lemma_rank_between(index, i, j - 1);
    }
}

/// The byte ranges of the plotted chunks come in the order of the s-buckets: the range of the first
/// plotted s-bucket is the first one, that of the next plotted s-bucket is the next one, and there is
/// none but these.
pub proof fn law_ranges_follow_the_s_buckets(
    index: Seq<Option<(u64, u64, bool)>>,
    i: int,
    j: int,
) -> (n: int)
    requires
        0 <= i < j < index.len(),
        index[i] is Some,
        index[j] is Some,
        forall|k: int| i < k < j ==> (#[trigger] index[k]) is None,
    ensures
        0 <= n < ranges_of(index).len() - 1,
        ranges_of(index)[n] == ((index[i]->0).0, 32u64),
        ranges_of(index)[n + 1] == ((index[j]->0).0, 32u64),
        (forall|k: int| 0 <= k < i ==> (#[trigger] index[k]) is None) ==> n == 0,
        (forall|k: int| j < k < index.len() ==> (#[trigger] index[k]) is None) ==> n + 2
            == ranges_of(index).len(),
{
    lemma_rank(index, i);
    lemma_rank(index, j);
    lemma_rank_between(index, i, j);
    if forall|k: int| 0 <= k < i ==> (#[trigger] index[k]) is None {
        lemma_rank_of_first(index, i);
    }
    if forall|k: int| j < k < index.len() ==> (#[trigger] index[k]) is None {
        lemma_rank_of_last(index, j, index.len() as int);
        assert(index.take(index.len() as int) =~= index);
    }
    rank(index, i) as int
}

proof fn lemma_rank_of_first(index: Seq<Option<(u64, u64, bool)>>, i: int)
    requires
        0 <= i < index.len(),
        forall|k: int| 0 <= k < i ==> (#[trigger] index[k]) is None,
    ensures
        rank(index, i) == 0,
    decreases i,
{
    if i > 0 {
        assert(index[i - 1] is None);
        lemma_rank_of_first(index, i - 1);
        lemma_rank(index, i - 1);
    } else {
        assert(index.take(0) =~= Seq::<Option<(u64, u64, bool)>>::empty());
    }
}

proof fn lemma_rank_of_last(index: Seq<Option<(u64, u64, bool)>>, j: int, end: int)
    requires
        0 <= j < end <= index.len(),
        index[j] is Some,
        forall|k: int| j < k < end ==> (#[trigger] index[k]) is None,
    ensures
        rank(index, end) == rank(index, j) + 1,
    decreases end,
{
    lemma_rank(index, end - 1);
    if end - 1 > j {
        assert(index[end - 1] is None);
        lemma_rank_of_last(index, j, end - 1);
    }
}

/// The rank of an s-bucket counts the plotted ones before it: the first s-bucket has the rank 0, and
/// the next one has the same rank, or one more behind a plotted s-bucket.
pub proof fn law_rank_counts_plotted(index: Seq<Option<(u64, u64, bool)>>, i: int)
    requires
        0 <= i < index.len(),
    ensures
        rank(index, 0) == 0,
        index[i] is None ==> rank(index, i + 1) == rank(index, i),
        index[i] is Some ==> rank(index, i + 1) == rank(index, i) + 1,
{
    assert(index.take(0) =~= Seq::<Option<(u64, u64, bool)>>::empty());
    lemma_rank(index, i);
}

/// Buffers are dealt out to the plotted s-buckets in turn, with location and kind of the chunk, and a
/// plotted s-bucket that none is left for gets nothing.
pub proof fn law_buffers_are_dealt_in_turn(
    index: Seq<Option<(u64, u64, bool)>>,
    buffs: Seq<Vec<u8>>,
    data: Seq<Option<(Vec<u8>, u64, bool)>>,
    i: int,
)
    requires
        with_bytes(index, |i: int| dealt(index, buffs, i), data),
        0 <= i < index.len(),
    ensures
        data.len() == index.len(),
        data[i] is Some <==> index[i] is Some && rank(index, i) < buffs.len(),
        data[i] matches Some((bytes, location, encoded)) ==> {
            &&& bytes@ == buffs[rank(index, i) as int]@
            &&& location == (index[i]->0).1
            &&& encoded == (index[i]->0).2
        },
{
    let got = data[i];
}

} // verus!
