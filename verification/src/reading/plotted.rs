//! What was plotted into a sector is what is read from it.
use vstd::prelude::*;

use crate::reading::agree;
use crate::reading::chunks;
use crate::reading::error::ReadingError;
use crate::reading::fetch;
use crate::reading::fetch::ReadSectorRecordChunksMode;
use crate::reading::layout::{SectorLayout, CHECKSUM_SIZE, FULL_BYTES};
use crate::reading::metadata;
use crate::reading::metadata::RecordMetadata;
use crate::reading::piece;
use crate::reading::piece::{ChunkReading, MetadataReading, Piece, PieceReading};
use crate::s3::parts::Part;

verus! {

/// The 32 bytes from `at` on are the chunk `plain` of an s-bucket, and where it is encoded, with the
/// hash of the proof for the s-bucket laid over it.
pub open spec fn chunk_lies_at<P: Fn(u16) -> [u8; FULL_BYTES]>(
    proof_hash: P,
    s_bucket: u16,
    bytes: Seq<u8>,
    at: int,
    encoded: bool,
    plain: Seq<u8>,
) -> bool {
    &&& plain.len() == 32
    &&& 0 <= at
    &&& at + 32 <= bytes.len()
    &&& !encoded ==> forall|j: int| 0 <= j < 32 ==> bytes[at + j] == #[trigger] plain[j]
    &&& encoded ==> forall|hash: [u8; FULL_BYTES], j: int|
        #[trigger] call_ensures(proof_hash, (s_bucket,), hash) && 0 <= j < 32 ==> bytes[at + j]
            == #[trigger] plain[j] ^ hash@[j]
}

/// The sector that starts at `base` of `bytes` holds the chunks `plain` of a record, each behind the
/// contents map, as many chunks further on as its s-bucket starts at and as it has before it in the
/// s-bucket.
pub open spec fn sector_holds<P: Fn(u16) -> [u8; FULL_BYTES]>(
    proof_hash: P,
    plotted: Seq<Option<(usize, bool)>>,
    s_bucket_offsets: Seq<u32>,
    layout: SectorLayout,
    bytes: Seq<u8>,
    base: int,
    plain: Seq<Seq<u8>>,
) -> bool {
    forall|i: int|
        0 <= i < plotted.len() && i < 65536 && (#[trigger] plotted[i]) is Some ==> chunk_lies_at(
            proof_hash,
            i as u16,
            bytes,
            base + layout.contents_map_size + 32 * (s_bucket_offsets[i] + (plotted[i]->0).0),
            (plotted[i]->0).1,
            plain[i],
        )
}

/// The chunks `plain` are the scalars `scalars`.
pub open spec fn stand_for<T: Fn([u8; FULL_BYTES]) -> Result<S, String>, S>(
    to_scalar: T,
    plain: Seq<Seq<u8>>,
    scalars: Seq<S>,
) -> bool {
    forall|i: int, chunk: [u8; FULL_BYTES], r: Result<S, String>|
        #![trigger plain[i], call_ensures(to_scalar, (chunk,), r)]
        0 <= i < plain.len() && chunk@ == plain[i] && call_ensures(to_scalar, (chunk,), r) ==> r
            == Ok::<S, String>(scalars[i])
}

/// `done` has the scalars of the plotted s-buckets, each in its place, and nothing else.
pub open spec fn scalars_in_place<S>(
    plotted: Seq<Option<(usize, bool)>>,
    scalars: Seq<S>,
    done: Seq<Option<S>>,
) -> bool {
    &&& done.len() == 65536
    &&& forall|i: int|
        0 <= i < 65536 ==> #[trigger] done[i] == (if i < plotted.len() && plotted[i] is Some {
            Some(scalars[i])
        } else {
            None::<S>
        })
}

/// All the reads brought the bytes of the sector that they were asked for.
pub open spec fn reads_answered(
    asked: Seq<(u64, u64)>,
    sector: Seq<u8>,
    reads: Seq<Result<Vec<u8>, std::io::Error>>,
) -> bool {
    &&& reads.len() == asked.len()
    &&& forall|n: int|
        0 <= n < reads.len() ==> (#[trigger] reads[n]) is Ok && reads[n]->Ok_0@ == sector.subrange(
            asked[n].0 as int,
            asked[n].0 + asked[n].1,
        )
}

/// Every batch was answered with the bytes of its ranges of the object, in the order of the ranges.
pub open spec fn batches_answered(
    asked: Seq<Vec<(u64, u64)>>,
    object: Seq<u8>,
    parts_list: Seq<Vec<Part>>,
) -> bool {
    &&& parts_list.len() == asked.len()
    &&& forall|b: int|
        0 <= b < asked.len() ==> (#[trigger] parts_list[b]).len() == (#[trigger] asked[b]).len()
    &&& forall|b: int, k: int|
        0 <= b < asked.len() && 0 <= k < asked[b].len() ==> (#[trigger] parts_list[b][k]).data@
            == object.subrange(asked[b][k].0 as int, asked[b][k].0 + asked[b][k].1)
}

/// The bytes that were read for the s-buckets are those of the sector that starts at `base`.
spec fn data_of_sector(
    plotted: Seq<Option<(usize, bool)>>,
    s_bucket_offsets: Seq<u32>,
    layout: SectorLayout,
    bytes: Seq<u8>,
    base: int,
    data: Seq<Option<(Vec<u8>, u64, bool)>>,
) -> bool {
    &&& data.len() <= plotted.len()
    &&& data.len() <= 65536
    &&& data.len() == plotted.len() || data.len() == 65536
    &&& forall|i: int|
        0 <= i < data.len() ==> match (#[trigger] data[i]) {
            None => plotted[i] is None,
            Some((raw, _, encoded)) => {
                let at = base + layout.contents_map_size + 32 * (s_bucket_offsets[i] + (
                plotted[i]->0).0);
                &&& plotted[i] is Some
                &&& encoded == (plotted[i]->0).1
                &&& raw@ == bytes.subrange(at, at + 32)
            },
        }
}

/// Decoding a chunk that lies in the sector gives the chunk.
proof fn lemma_decodes_plain<P: Fn(u16) -> [u8; FULL_BYTES]>(
    proof_hash: P,
    s_bucket: u16,
    bytes: Seq<u8>,
    at: int,
    encoded: bool,
    plain: Seq<u8>,
    chunk: [u8; FULL_BYTES],
)
    requires
        chunk_lies_at(proof_hash, s_bucket, bytes, at, encoded, plain),
        chunks::decodes(proof_hash, s_bucket, bytes.subrange(at, at + 32), encoded, chunk),
    ensures
        chunk@ == plain,
{
    let raw = bytes.subrange(at, at + 32);
    if encoded {
        let hash = choose|hash: [u8; FULL_BYTES]| #[trigger]
            call_ensures(proof_hash, (s_bucket,), hash) && chunk@ == chunks::masked(raw, hash@);
        assert forall|j: int| 0 <= j < 32 implies #[trigger] chunk@[j] == plain[j] by {
            let p = plain[j];
            let h = hash@[j];
            assert(raw[j] == p ^ h);
            assert((p ^ h) ^ h == p) by (bit_vector);
        }
    } else {
        assert forall|j: int| 0 <= j < 32 implies #[trigger] chunk@[j] == plain[j] by {}
    }
    assert(chunk@ =~= plain);
}

/// The scalars of the bytes of the sector are those of the chunks that it holds.
proof fn lemma_plain_scalars<
    P: Fn(u16) -> [u8; FULL_BYTES],
    T: Fn([u8; FULL_BYTES]) -> Result<S, String>,
    S,
>(
    proof_hash: P,
    to_scalar: T,
    plotted: Seq<Option<(usize, bool)>>,
    s_bucket_offsets: Seq<u32>,
    layout: SectorLayout,
    bytes: Seq<u8>,
    base: int,
    plain: Seq<Seq<u8>>,
    scalars: Seq<S>,
    data: Seq<Option<(Vec<u8>, u64, bool)>>,
    res: Result<Vec<Option<S>>, ReadingError>,
)
    requires
        plain.len() == plotted.len(),
        sector_holds(proof_hash, plotted, s_bucket_offsets, layout, bytes, base, plain),
        stand_for(to_scalar, plain, scalars),
        data_of_sector(plotted, s_bucket_offsets, layout, bytes, base, data),
        match res {
            Ok(done) => chunks::all_done(proof_hash, to_scalar, data, done@),
            Err(error) => chunks::one_refused(proof_hash, to_scalar, data, error),
        },
    ensures
        res matches Ok(done) && scalars_in_place(plotted, scalars, done@),
{
    match res {
        Ok(done) => {
            assert forall|i: int| 0 <= i < 65536 implies #[trigger] done@[i] == (if i
                < plotted.len() && plotted[i] is Some {
                Some(scalars[i])
            } else {
                None::<S>
            }) by {
                if i < data.len() {
                    assert(chunks::chunk_done(proof_hash, to_scalar, i as u16, data[i], done@[i]));
                    if data[i] is Some {
                        let (raw, _, encoded) = data[i]->0;
                        let at = base + layout.contents_map_size + 32 * (s_bucket_offsets[i] + (
                        plotted[i]->0).0);
                        assert(plotted[i] is Some);
                        let chunk = choose|chunk: [u8; FULL_BYTES]| #[trigger]
                            chunks::decodes(proof_hash, i as u16, raw@, encoded, chunk)
                                && call_ensures(to_scalar, (chunk,), Ok::<S, String>(done@[i]->0));
                        lemma_decodes_plain(
                            proof_hash,
                            i as u16,
                            bytes,
                            at,
                            encoded,
                            plain[i],
                            chunk,
                        );
                    }
                }
            }
        },
        Err(error) => {
            let i = choose|i: int|
                0 <= i < chunks::covered(data) && chunks::chunk_refused(
                    proof_hash,
                    to_scalar,
                    i as u16,
                    #[trigger] data[i],
                    error,
                );
            let (raw, _, encoded) = data[i]->0;
            let at = base + layout.contents_map_size + 32 * (s_bucket_offsets[i] + (
            plotted[i]->0).0);
            assert(plotted[i] is Some);
            let reason = error->InvalidChunk_error;
            let chunk = choose|chunk: [u8; FULL_BYTES]| #[trigger]
                chunks::decodes(proof_hash, i as u16, raw@, encoded, chunk) && call_ensures(
                    to_scalar,
                    (chunk,),
                    Err::<S, String>(reason),
                );
            lemma_decodes_plain(proof_hash, i as u16, bytes, at, encoded, plain[i], chunk);
            assert(false);
        },
    }
}

/// No chunk of the sector lies beyond 64 bits.
proof fn lemma_entry<P: Fn(u16) -> [u8; FULL_BYTES]>(
    proof_hash: P,
    reading: PieceReading,
    plotted: Seq<Option<(usize, bool)>>,
    s_bucket_offsets: Seq<u32>,
    bytes: Seq<u8>,
    plain: Seq<Seq<u8>>,
    places: ChunkReading,
    i: int,
)
    requires
        bytes.len() <= u64::MAX,
        sector_holds(
            proof_hash,
            plotted,
            s_bucket_offsets,
            reading.layout,
            bytes,
            reading.sector_offset as int,
            plain,
        ),
        piece::places_known(reading, plotted, s_bucket_offsets, places),
        0 <= i < places.index@.len(),
    ensures
        i < plotted.len(),
        i < 65536,
        plotted[i] is None ==> places.index@[i] is None,
        plotted[i] is Some ==> {
            let at = reading.sector_offset + reading.layout.contents_map_size + 32 * (
            s_bucket_offsets[i] + (plotted[i]->0).0);
            &&& places.index@[i] is Some
            &&& (places.index@[i]->0).0 == at
            &&& (places.index@[i]->0).2 == (plotted[i]->0).1
            &&& at + 32 <= bytes.len()
        },
{
    assert(places.index[i] == places.index@[i]);
}

/// What is read out of a sector, by single chunks or as a whole, are the scalars of the chunks that
/// were plotted into it, each for its s-bucket, and nothing for the s-buckets without one.
pub proof fn law_sector_gives_what_was_plotted<
    P: Fn(u16) -> [u8; FULL_BYTES],
    T: Fn([u8; FULL_BYTES]) -> Result<S, String>,
    S,
>(
    proof_hash: P,
    to_scalar: T,
    reading: PieceReading,
    plotted: Seq<Option<(usize, bool)>>,
    s_bucket_offsets: Seq<u32>,
    sector: Seq<u8>,
    plain: Seq<Seq<u8>>,
    scalars: Seq<S>,
    places: ChunkReading,
    mode: ReadSectorRecordChunksMode,
    asked: Seq<(u64, u64)>,
    reads: Seq<Result<Vec<u8>, std::io::Error>>,
    res: Result<Vec<Option<S>>, ReadingError>,
)
    requires
        reading.sector_offset == 0,
        sector.len() == reading.layout.sector_size,
        plain.len() == plotted.len(),
        sector_holds(
            proof_hash,
            plotted,
            s_bucket_offsets,
            reading.layout,
            sector,
            0,
            plain,
        ),
        stand_for(to_scalar, plain, scalars),
        piece::places_known(reading, plotted, s_bucket_offsets, places),
        fetch::reads_asked(mode, places.index@, reading.layout, asked),
        reads_answered(asked, sector, reads),
        fetch::chunks_of_sector(proof_hash, to_scalar, mode, places.index@, reads, res),
    ensures
        res matches Ok(done) && scalars_in_place(plotted, scalars, done@),
{
    let index = places.index@;
    assert forall|n: int, io: std::io::Error| !#[trigger] fetch::first_failure(reads, n, io) by {
        if 0 <= n < reads.len() {
            assert(reads[n] is Ok);
        }
    }
    let data = match res {
        Ok(done) => choose|data: Seq<Option<(Vec<u8>, u64, bool)>>| #[trigger]
            fetch::chunks_read(mode, index, reads, data) && data.len() == index.len()
                && chunks::all_done(proof_hash, to_scalar, data, done@),
        Err(error) => choose|data: Seq<Option<(Vec<u8>, u64, bool)>>| #[trigger]
            fetch::chunks_read(mode, index, reads, data) && data.len() == index.len()
                && chunks::one_refused(proof_hash, to_scalar, data, error),
    };
    assert(fetch::chunks_read(mode, index, reads, data));
    assert forall|i: int| 0 <= i < data.len() implies match (#[trigger] data[i]) {
        None => plotted[i] is None,
        Some((raw, _, encoded)) => {
            let at = 0 + reading.layout.contents_map_size + 32 * (s_bucket_offsets[i] + (
            plotted[i]->0).0);
            &&& plotted[i] is Some
            &&& encoded == (plotted[i]->0).1
            &&& raw@ == sector.subrange(at, at + 32)
        },
    } by {
        lemma_entry(
            proof_hash,
            reading,
            plotted,
            s_bucket_offsets,
            sector,
            plain,
            places,
            i,
        );
        let entry = index[i];
        if entry is Some {
            match mode {
                ReadSectorRecordChunksMode::WholeSector => {
                    let whole = reads[0]->Ok_0;
                    assert(whole@ =~= sector);
                    assert(fetch::cut(index, whole@, i) is Some);
                },
                ReadSectorRecordChunksMode::ConcurrentChunks => {
                    let buffs = choose|buffs: Seq<Vec<u8>>| #[trigger]
                        fetch::all_read(reads, buffs) && fetch::with_bytes(
                            index,
                            |i: int| fetch::dealt(index, buffs, i),
                            data,
                        );
                    fetch::lemma_rank(index, i);
                    let n = fetch::rank(index, i) as int;
                    assert(asked[n] == ((entry->0).0, 32u64));
                    assert(reads[n] == Ok::<Vec<u8>, std::io::Error>(buffs[n]));
                    assert(fetch::dealt(index, buffs, i) == Some(buffs[n]@));
                },
            }
        }
    }
    assert(data_of_sector(plotted, s_bucket_offsets, reading.layout, sector, 0, data));
    lemma_plain_scalars(
        proof_hash,
        to_scalar,
        plotted,
        s_bucket_offsets,
        reading.layout,
        sector,
        0,
        plain,
        scalars,
        data,
        res,
    );
}

/// The answers to the first `n` batches, one behind the other, are the bytes of the ranges in turn.
proof fn lemma_batches_flat(
    index: Seq<Option<(u64, u64, bool)>>,
    asked: Seq<Vec<(u64, u64)>>,
    object: Seq<u8>,
    parts_list: Seq<Vec<Part>>,
    n: int,
)
    requires
        piece::batched(index, asked),
        batches_answered(asked, object, parts_list),
        0 <= n <= asked.len(),
    ensures
        ({
            let ranges = fetch::ranges_of(index);
            let merged = piece::merged(parts_list.take(n));
            &&& merged.len() == (if 512 * n < ranges.len() {
                512 * n
            } else {
                ranges.len() as int
            })
            &&& forall|m: int|
                0 <= m < merged.len() ==> (#[trigger] merged[m]).data@ == object.subrange(
                    ranges[m].0 as int,
                    ranges[m].0 + ranges[m].1,
                )
        }),
    decreases n,
{
    let ranges = fetch::ranges_of(index);
    let merged = piece::merged(parts_list.take(n));
    if n > 0 {
        lemma_batches_flat(index, asked, object, parts_list, n - 1);
        let front = piece::merged(parts_list.take(n - 1));
        assert(parts_list.take(n).drop_last() =~= parts_list.take(n - 1));
        let b = n - 1;
        assert(asked[b]@ == piece::batch(ranges, b));
        assert(parts_list[b].len() == asked[b].len());
        assert(merged == front + parts_list[b]@);
        assert forall|m: int| 0 <= m < merged.len() implies (#[trigger] merged[m]).data@
            == object.subrange(ranges[m].0 as int, ranges[m].0 + ranges[m].1) by {
            if m < front.len() {
                assert(merged[m] == front[m]);
            } else {
                let k = m - front.len();
                assert(parts_list[b][k].data@ == object.subrange(
                    asked[b][k].0 as int,
                    asked[b][k].0 + asked[b][k].1,
                ));
                assert(asked[b][k] == ranges[m]);
            }
        }
    }
}

/// What is read of a sector out of the object that it is a part of, batch by batch, are the scalars
/// of the chunks that were plotted into it, each for its s-bucket, and nothing for the s-buckets
/// without one.
pub proof fn law_object_gives_what_was_plotted<
    P: Fn(u16) -> [u8; FULL_BYTES],
    T: Fn([u8; FULL_BYTES]) -> Result<S, String>,
    S,
>(
    proof_hash: P,
    to_scalar: T,
    reading: PieceReading,
    plotted: Seq<Option<(usize, bool)>>,
    s_bucket_offsets: Seq<u32>,
    object: Seq<u8>,
    plain: Seq<Seq<u8>>,
    scalars: Seq<S>,
    places: ChunkReading,
    asked: Seq<Vec<(u64, u64)>>,
    parts_list: Seq<Vec<Part>>,
    res: Result<Vec<Option<S>>, ReadingError>,
)
    requires
        object.len() <= u64::MAX,
        plain.len() == plotted.len(),
        sector_holds(
            proof_hash,
            plotted,
            s_bucket_offsets,
            reading.layout,
            object,
            reading.sector_offset as int,
            plain,
        ),
        stand_for(to_scalar, plain, scalars),
        piece::places_known(reading, plotted, s_bucket_offsets, places),
        piece::batched(places.index@, asked),
        batches_answered(asked, object, parts_list),
        piece::chunks_of_object(
            proof_hash,
            to_scalar,
            places.index@,
            piece::merged(parts_list),
            res,
        ),
    ensures
        res matches Ok(done) && scalars_in_place(plotted, scalars, done@),
{
    let index = places.index@;
    let ranges = fetch::ranges_of(index);
    let fetched = piece::merged(parts_list);
    lemma_batches_flat(index, asked, object, parts_list, asked.len() as int);
    assert(parts_list.take(asked.len() as int) =~= parts_list);
    assert(fetched.len() == ranges.len());
    let data = choose|data: Seq<Option<(Vec<u8>, u64, bool)>>|
        {
            &&& #[trigger] piece::chunks_fetched(index, fetched, data)
            &&& data.len() == index.len()
            &&& match res {
                Ok(done) => chunks::all_done(proof_hash, to_scalar, data, done@),
                Err(error) => chunks::one_refused(proof_hash, to_scalar, data, error),
            }
        };
    assert forall|i: int| 0 <= i < data.len() implies match (#[trigger] data[i]) {
        None => plotted[i] is None,
        Some((raw, _, encoded)) => {
            let at = reading.sector_offset + reading.layout.contents_map_size + 32 * (
            s_bucket_offsets[i] + (plotted[i]->0).0);
            &&& plotted[i] is Some
            &&& encoded == (plotted[i]->0).1
            &&& raw@ == object.subrange(at, at + 32)
        },
    } by {
        lemma_entry(
            proof_hash,
            reading,
            plotted,
            s_bucket_offsets,
            object,
            plain,
            places,
            i,
        );
        let entry = index[i];
        if entry is Some {
            fetch::lemma_rank(index, i);
            let n = fetch::rank(index, i) as int;
            assert(ranges[n] == ((entry->0).0, 32u64));
            assert(fetched[n].data@ == object.subrange(
                ranges[n].0 as int,
                ranges[n].0 + ranges[n].1,
            ));
        }
    }
    assert(data_of_sector(
        plotted,
        s_bucket_offsets,
        reading.layout,
        object,
        reading.sector_offset as int,
        data,
    ));
    lemma_plain_scalars(
        proof_hash,
        to_scalar,
        plotted,
        s_bucket_offsets,
        reading.layout,
        object,
        reading.sector_offset as int,
        plain,
        scalars,
        data,
        res,
    );
}

/// The chunks `scalars` are recovered from the scalars of the plotted s-buckets, and their forms in
/// bytes are the record of `piece`; `checksum` is the checksum of the piece.
pub open spec fn piece_was_plotted<
    S,
    E: Fn(&Vec<Option<S>>) -> Result<Vec<S>, String>,
    B: Fn(&S) -> [u8; FULL_BYTES],
    H: Fn(&Vec<u8>) -> [u8; CHECKSUM_SIZE],
>(
    recover_source: E,
    to_bytes: B,
    hash: H,
    plotted: Seq<Option<(usize, bool)>>,
    scalars: Seq<S>,
    source: Seq<S>,
    piece: Piece,
    checksum: Seq<u8>,
) -> bool {
    &&& piece.record.len() == 32768
    &&& source.len() == 32768
    &&& forall|chunks: &Vec<Option<S>>, recovered: Result<Vec<S>, String>| #[trigger]
        call_ensures(recover_source, (chunks,), recovered) && scalars_in_place(
            plotted,
            scalars,
            chunks@,
        ) ==> recovered is Ok && recovered->Ok_0@ == source
    &&& forall|i: int, bytes: [u8; FULL_BYTES]|
        0 <= i < 32768 && #[trigger] call_ensures(to_bytes, (&source[i],), bytes) ==> bytes@
            == piece.record[i]@
    &&& forall|bytes: &Vec<u8>, found: [u8; CHECKSUM_SIZE]| #[trigger]
        call_ensures(hash, (bytes,), found) && bytes@ == piece.bytes() ==> found@ == checksum
}

/// The metadata of the record that `piece` is made of lies in the sector that starts at `base`, in
/// its turn behind the contents map and the chunks: the commitment, the witness and the checksum.
pub open spec fn metadata_lies_in(
    layout: SectorLayout,
    piece_offset: u16,
    bytes: Seq<u8>,
    base: int,
    piece: Piece,
    checksum: Seq<u8>,
) -> bool {
    let at = base + layout.contents_map_size + layout.record_chunks_size + 128 * piece_offset;
    &&& 0 <= base
    &&& at + 128 <= bytes.len()
    &&& bytes.subrange(at, at + 48) == piece.commitment@
    &&& bytes.subrange(at + 48, at + 96) == piece.witness@
    &&& bytes.subrange(at + 96, at + 128) == checksum
}

/// The same record, commitment and witness.
pub open spec fn same_piece(a: Piece, b: Piece) -> bool {
    &&& a.record.len() == b.record.len()
    &&& forall|i: int| 0 <= i < a.record.len() ==> (#[trigger] a.record[i])@ == b.record[i]@
    &&& a.commitment@ == b.commitment@
    &&& a.witness@ == b.witness@
}

/// The scalars of the plotted chunks, and the metadata where it lies in the sector, make up the piece
/// that was plotted.
pub proof fn law_chunks_make_plotted_piece<
    S,
    E: Fn(&Vec<Option<S>>) -> Result<Vec<S>, String>,
    B: Fn(&S) -> [u8; FULL_BYTES],
    H: Fn(&Vec<u8>) -> [u8; CHECKSUM_SIZE],
>(
    recover_source: E,
    to_bytes: B,
    hash: H,
    reading: PieceReading,
    plotted: Seq<Option<(usize, bool)>>,
    scalars: Seq<S>,
    source: Seq<S>,
    piece: Piece,
    checksum: Seq<u8>,
    bytes: Seq<u8>,
    chunks: &Vec<Option<S>>,
    record: Result<MetadataReading, ReadingError>,
    metadata: RecordMetadata,
    res: Result<Piece, ReadingError>,
)
    requires
        piece_was_plotted(
            recover_source,
            to_bytes,
            hash,
            plotted,
            scalars,
            source,
            piece,
            checksum,
        ),
        metadata_lies_in(
            reading.layout,
            reading.piece_offset,
            bytes,
            reading.sector_offset as int,
            piece,
            checksum,
        ),
        scalars_in_place(plotted, scalars, chunks@),
        piece::record_recovered(recover_source, to_bytes, reading, chunks, record),
        ({
            let (at, len) = reading.metadata_place();
            metadata.encoded() == bytes.subrange(at, at + len)
        }),
        record matches Ok(next) ==> piece::piece_checked(hash, next.record, metadata, res),
    ensures
        record is Ok,
        res matches Ok(read) && same_piece(read, piece) && read.bytes() == piece.bytes(),
{
    let (recovered, kept) = choose|
        recovered: Result<Vec<S>, String>,
        kept: Result<Vec<S>, ReadingError>,
    | #[trigger]
        piece::recovered_from(recover_source, to_bytes, reading, chunks, recovered, kept, record);
    assert(call_ensures(recover_source, (chunks,), recovered));
    let next = record->Ok_0;
    let all = kept->Ok_0;
    assert forall|i: int| 0 <= i < 32768 implies (#[trigger] next.record@[i])@
        == piece.record@[i]@ by {
        assert(call_ensures(to_bytes, (&all[i],), next.record[i]));
        assert(all[i] == source[i]);
    }
    let at = reading.metadata_place().0;
    let encoded = bytes.subrange(at, at + 128);
    assert(encoded.take(128) =~= encoded);
    metadata::law_metadata_fields(metadata, encoded);
    assert(encoded.subrange(0, 48) =~= bytes.subrange(at, at + 48));
    assert(encoded.subrange(48, 96) =~= bytes.subrange(at + 48, at + 96));
    assert(encoded.subrange(96, 128) =~= bytes.subrange(at + 96, at + 128));
    agree::lemma_same_bytes(next.record@, piece.record@);
    let made = Piece {
        record: next.record,
        commitment: metadata.commitment,
        witness: metadata.witness,
    };
    assert(made.bytes() =~= piece.bytes());
}

/// A piece that was plotted is read back off the disk as it was, from the contents map of its sector
/// to the checked piece.
pub proof fn law_disk_gives_plotted_piece<
    P: Fn(u16) -> [u8; FULL_BYTES],
    T: Fn([u8; FULL_BYTES]) -> Result<S, String>,
    S,
    E: Fn(&Vec<Option<S>>) -> Result<Vec<S>, String>,
    B: Fn(&S) -> [u8; FULL_BYTES],
    H: Fn(&Vec<u8>) -> [u8; CHECKSUM_SIZE],
>(
    proof_hash: P,
    to_scalar: T,
    recover_source: E,
    to_bytes: B,
    hash: H,
    reading: PieceReading,
    plotted: Vec<Option<(usize, bool)>>,
    s_bucket_offsets: Seq<u32>,
    sector: Seq<u8>,
    plain: Seq<Seq<u8>>,
    scalars: Seq<S>,
    source: Seq<S>,
    piece: Piece,
    checksum: Seq<u8>,
    places: Result<ChunkReading, ReadingError>,
    mode: ReadSectorRecordChunksMode,
    asked: Seq<(u64, u64)>,
    reads: Seq<Result<Vec<u8>, std::io::Error>>,
    chunks: Result<Vec<Option<S>>, ReadingError>,
    record: Result<MetadataReading, ReadingError>,
    metadata: RecordMetadata,
    res: Result<Piece, ReadingError>,
)
    requires
        reading.sector_offset == 0,
        sector.len() == reading.layout.sector_size,
        plain.len() == plotted.len(),
        // What was plotted.
        sector_holds(
            proof_hash,
            plotted@,
            s_bucket_offsets,
            reading.layout,
            sector,
            0,
            plain,
        ),
        stand_for(to_scalar, plain, scalars),
        piece_was_plotted(
            recover_source,
            to_bytes,
            hash,
            plotted@,
            scalars,
            source,
            piece,
            checksum,
        ),
        metadata_lies_in(reading.layout, reading.piece_offset, sector, 0, piece, checksum),
        // The steps of the reading.
        piece::contents_decoded(reading, Ok(plotted), s_bucket_offsets, places),
        places matches Ok(found) ==> {
            &&& fetch::reads_asked(mode, found.index@, reading.layout, asked)
            &&& reads_answered(asked, sector, reads)
            &&& fetch::chunks_of_sector(
                proof_hash,
                to_scalar,
                mode,
                found.index@,
                reads,
                chunks,
            )
        },
        chunks matches Ok(done) ==> piece::record_recovered(
            recover_source,
            to_bytes,
            reading,
            &done,
            record,
        ),
        ({
            let (at, len) = reading.metadata_place();
            metadata.encoded() == sector.subrange(at, at + len)
        }),
        record matches Ok(next) ==> piece::piece_checked(hash, next.record, metadata, res),
    ensures
        res matches Ok(read) && same_piece(read, piece) && read.bytes() == piece.bytes(),
{
    law_sector_gives_what_was_plotted(
        proof_hash,
        to_scalar,
        reading,
        plotted@,
        s_bucket_offsets,
        sector,
        plain,
        scalars,
        places->Ok_0,
        mode,
        asked,
        reads,
        chunks,
    );
    law_chunks_make_plotted_piece(
        recover_source,
        to_bytes,
        hash,
        reading,
        plotted@,
        scalars,
        source,
        piece,
        checksum,
        sector,
        &chunks->Ok_0,
        record,
        metadata,
        res,
    );
}

/// A piece that was plotted is read back as it was out of the object that its sector is a part of,
/// from the contents map of the sector to the checked piece.
pub proof fn law_object_gives_plotted_piece<
    P: Fn(u16) -> [u8; FULL_BYTES],
    T: Fn([u8; FULL_BYTES]) -> Result<S, String>,
    S,
    E: Fn(&Vec<Option<S>>) -> Result<Vec<S>, String>,
    B: Fn(&S) -> [u8; FULL_BYTES],
    H: Fn(&Vec<u8>) -> [u8; CHECKSUM_SIZE],
>(
    proof_hash: P,
    to_scalar: T,
    recover_source: E,
    to_bytes: B,
    hash: H,
    reading: PieceReading,
    plotted: Vec<Option<(usize, bool)>>,
    s_bucket_offsets: Seq<u32>,
    object: Seq<u8>,
    plain: Seq<Seq<u8>>,
    scalars: Seq<S>,
    source: Seq<S>,
    piece: Piece,
    checksum: Seq<u8>,
    places: Result<ChunkReading, ReadingError>,
    asked: Seq<Vec<(u64, u64)>>,
    parts_list: Seq<Vec<Part>>,
    chunks: Result<Vec<Option<S>>, ReadingError>,
    record: Result<MetadataReading, ReadingError>,
    metadata: RecordMetadata,
    res: Result<Piece, ReadingError>,
)
    requires
        object.len() <= u64::MAX,
        plain.len() == plotted.len(),
        // What was plotted.
        sector_holds(
            proof_hash,
            plotted@,
            s_bucket_offsets,
            reading.layout,
            object,
            reading.sector_offset as int,
            plain,
        ),
        stand_for(to_scalar, plain, scalars),
        piece_was_plotted(
            recover_source,
            to_bytes,
            hash,
            plotted@,
            scalars,
            source,
            piece,
            checksum,
        ),
        metadata_lies_in(
            reading.layout,
            reading.piece_offset,
            object,
            reading.sector_offset as int,
            piece,
            checksum,
        ),
        // The steps of the reading.
        piece::contents_decoded(reading, Ok(plotted), s_bucket_offsets, places),
        places matches Ok(found) ==> {
            &&& piece::batched(found.index@, asked)
            &&& batches_answered(asked, object, parts_list)
            &&& piece::chunks_of_object(
                proof_hash,
                to_scalar,
                found.index@,
                piece::merged(parts_list),
                chunks,
            )
        },
        chunks matches Ok(done) ==> piece::record_recovered(
            recover_source,
            to_bytes,
            reading,
            &done,
            record,
        ),
        ({
            let (at, len) = reading.metadata_place();
            metadata.encoded() == object.subrange(at, at + len)
        }),
        record matches Ok(next) ==> piece::piece_checked(hash, next.record, metadata, res),
    ensures
        res matches Ok(read) && same_piece(read, piece) && read.bytes() == piece.bytes(),
{
    law_object_gives_what_was_plotted(
        proof_hash,
        to_scalar,
        reading,
        plotted@,
        s_bucket_offsets,
        object,
        plain,
        scalars,
        places->Ok_0,
        asked,
        parts_list,
        chunks,
    );
    law_chunks_make_plotted_piece(
        recover_source,
        to_bytes,
        hash,
        reading,
        plotted@,
        scalars,
        source,
        piece,
        checksum,
        object,
        &chunks->Ok_0,
        record,
        metadata,
        res,
    );
}

} // verus!
