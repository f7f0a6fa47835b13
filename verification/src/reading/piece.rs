//! Reading a piece, step by step.
//!
//! The contents map of the sector says where the chunks of the record are; the record is recovered
//! from these, and with the metadata of the record it makes up the piece. The caller fetches the
//! bytes between the steps.
use vstd::prelude::*;

use crate::bytes::append_bytes;
use crate::reading::chunks;
use crate::reading::chunks::read_sector_record_chunks_qiniu;
use crate::reading::error::ReadingError;
use crate::reading::fetch;
use crate::reading::fetch::{chunk_ranges, deal_chunks};
use crate::reading::layout;
use crate::reading::layout::{
    read_record_metadata_index, read_sector_record_chunks_index, SectorLayout, CHECKSUM_SIZE,
    COMMITMENT_SIZE, FULL_BYTES, NUM_CHUNKS, NUM_S_BUCKETS, RECORD_METADATA_SIZE,
};
use crate::reading::metadata::RecordMetadata;
use crate::reading::recover;
use crate::reading::recover::recover_source_record_chunks;
use crate::s3::parts::Part;

verus! {

/// How many ranges are asked for at once.
pub const RANGES_AT_ONCE: usize = 512;

/// A piece: a record, and the commitment and the witness that go with it.
#[derive(Debug, PartialEq, Eq)]
pub struct Piece {
    pub record: Vec<[u8; FULL_BYTES]>,
    pub commitment: [u8; COMMITMENT_SIZE],
    pub witness: [u8; COMMITMENT_SIZE],
}

/// The bytes of chunks, one behind the other.
pub open spec fn chunk_bytes(chunks: Seq<[u8; FULL_BYTES]>) -> Seq<u8>
    decreases chunks.len(),
{
    if chunks.len() == 0 {
        Seq::empty()
    } else {
        chunk_bytes(chunks.drop_last()) + chunks.last()@
    }
}

impl Piece {
    /// The bytes of the piece: the record, the commitment and the witness.
    pub open spec fn bytes(self) -> Seq<u8> {
        chunk_bytes(self.record@) + self.commitment@ + self.witness@
    }

    /// The bytes of the piece: the record, the commitment and the witness.
    pub fn to_bytes(&self) -> (r: Vec<u8>)
        ensures
            r@ == self.bytes(),
    {
        let mut r: Vec<u8> = Vec::new();
        let mut i: usize = 0;
        proof {
            assert(self.record@.take(0) =~= Seq::<[u8; FULL_BYTES]>::empty());
        }
        while i < self.record.len()
            invariant
                0 <= i <= self.record.len(),
                r@ == chunk_bytes(self.record@.take(i as int)),
            decreases self.record.len() - i,
        {
            append_bytes(&mut r, self.record[i].as_slice());
            proof {
                assert(self.record@.take(i + 1).drop_last() =~= self.record@.take(i as int));
            }
            i += 1;
        }
        proof {
            assert(self.record@.take(i as int) =~= self.record@);
        }
        append_bytes(&mut r, self.commitment.as_slice());
        append_bytes(&mut r, self.witness.as_slice());
        r
    }
}

fn same_bytes(a: &[u8; CHECKSUM_SIZE], b: &[u8; CHECKSUM_SIZE]) -> (r: bool)
    ensures
        r == (a@ == b@),
{
    let mut i: usize = 0;
    while i < CHECKSUM_SIZE
        invariant
            0 <= i <= CHECKSUM_SIZE,
            forall|k: int| 0 <= k < i ==> #[trigger] a@[k] == b@[k],
        decreases CHECKSUM_SIZE - i,
    {
        if a[i] != b[i] {
            return false;
        }
        i += 1;
    }
    proof {
        assert(a@ =~= b@);
    }
    true
}

/// Gives the piece out if its checksum is the one that was recorded.
pub fn check_piece(
    piece: Piece,
    actual_checksum: &[u8; CHECKSUM_SIZE],
    expected_checksum: &[u8; CHECKSUM_SIZE],
) -> (res: Result<Piece, ReadingError>)
    ensures
        if actual_checksum@ == expected_checksum@ {
            res == Ok::<Piece, ReadingError>(piece)
        } else {
            res == Err::<Piece, ReadingError>(ReadingError::ChecksumMismatch)
        },
{
    if same_bytes(actual_checksum, expected_checksum) {
        Ok(piece)
    } else {
        Err(ReadingError::ChecksumMismatch)
    }
}

/// The reading of a piece, before the contents map of its sector is there.
#[derive(Debug, Clone, Copy)]
pub struct PieceReading {
    pub piece_offset: u16,
    pub layout: SectorLayout,
    /// Where the sector starts in what the bytes are read from.
    pub sector_offset: u64,
}

/// Starts the reading of a piece out of a sector on a disk.
pub fn read_piece(piece_offset: u16, layout: SectorLayout) -> (r: PieceReading)
    ensures
        r == (PieceReading { piece_offset, layout, sector_offset: 0 }),
{
    PieceReading { piece_offset, layout, sector_offset: 0 }
}

/// Starts the reading of a piece out of a sector that starts at `read_at_offset` of an object.
pub fn read_piece_qiniu(piece_offset: u16, layout: SectorLayout, read_at_offset: u64) -> (r:
    PieceReading)
    ensures
        r == (PieceReading { piece_offset, layout, sector_offset: read_at_offset }),
{
    PieceReading { piece_offset, layout, sector_offset: read_at_offset }
}

/// The reading of a piece, with the places of the chunks of its record known.
#[derive(Debug)]
pub struct ChunkReading {
    pub reading: PieceReading,
    /// For every s-bucket `(position, location, encoded)` if its chunk was plotted.
    pub index: Vec<Option<(u64, u64, bool)>>,
}

/// `chunks` is the reading `reading` with the places of the plotted chunks known.
pub open spec fn places_known(
    reading: PieceReading,
    plotted: Seq<Option<(usize, bool)>>,
    s_bucket_offsets: Seq<u32>,
    chunks: ChunkReading,
) -> bool {
    &&& chunks.reading == reading
    &&& chunks.index.len() == layout::index_len(plotted)
    &&& forall|i: int|
        0 <= i < chunks.index.len() ==> #[trigger] chunks.index[i] == layout::index_entry(
            plotted[i],
            s_bucket_offsets[i],
            reading.layout,
            reading.sector_offset,
        )
}

/// `res` is what the reading `reading` comes to with the contents map, where `plotted` says which
/// chunks of the record were plotted, or why the map could not be decoded.
pub open spec fn contents_decoded(
    reading: PieceReading,
    plotted: Result<Vec<Option<(usize, bool)>>, String>,
    s_bucket_offsets: Seq<u32>,
    res: Result<ChunkReading, ReadingError>,
) -> bool {
    match plotted {
        Ok(chunks) => res matches Ok(next) && places_known(
            reading,
            chunks@,
            s_bucket_offsets,
            next,
        ),
        Err(error) => res == Err::<ChunkReading, ReadingError>(
            ReadingError::FailedToDecodeSectorContentsMap(error),
        ),
    }
}

impl PieceReading {
    /// Where the contents map is, `(position, length)`.
    pub open spec fn map_place(self) -> (int, int) {
        (self.sector_offset as int, self.layout.contents_map_size as int)
    }

    /// Where the metadata of the record is, `(position, length)`.
    pub open spec fn metadata_place(self) -> (int, int) {
        (
            layout::metadata_position(self.piece_offset, self.layout) + self.sector_offset,
            RECORD_METADATA_SIZE as int,
        )
    }

    /// The byte range `(position, length)` of the contents map.
    pub fn contents_map_range(&self) -> (r: (u64, u64))
        ensures
            r == (self.sector_offset, self.layout.contents_map_size),
            (r.0 as int, r.1 as int) == self.map_place(),
    {
        (self.sector_offset, self.layout.contents_map_size)
    }

    /// Goes on with the contents map. `plotted` says which chunks of the record were plotted, as
    /// `(offset in the s-bucket, encoded)`, or why the map could not be decoded.
    pub fn contents_map_decoded(
        self,
        plotted: Result<Vec<Option<(usize, bool)>>, String>,
        s_bucket_offsets: &[u32; NUM_S_BUCKETS],
    ) -> (res: Result<ChunkReading, ReadingError>)
        requires
            plotted matches Ok(chunks) ==> layout::index_fits(
                chunks@,
                s_bucket_offsets@,
                self.layout,
                self.sector_offset,
            ),
        ensures
            contents_decoded(self, plotted, s_bucket_offsets@, res),
    {
        match plotted {
            Err(error) => Err(ReadingError::FailedToDecodeSectorContentsMap(error)),
            Ok(chunks) => {
                let index: Vec<Option<(u64, u64, bool)>> = read_sector_record_chunks_index(
                    chunks.as_slice(),
                    s_bucket_offsets,
                    &self.layout,
                    self.sector_offset,
                );
                Ok(ChunkReading { reading: self, index })
            },
        }
    }
}

/// The batch `b` of some ranges.
pub open spec fn batch(ranges: Seq<(u64, u64)>, b: int) -> Seq<(u64, u64)> {
    let from = b * RANGES_AT_ONCE;
    let to = from + RANGES_AT_ONCE;
    ranges.subrange(
        from,
        if to < ranges.len() {
            to
        } else {
            ranges.len() as int
        },
    )
}

/// `asked` are the byte ranges of the plotted chunks, in batches.
pub open spec fn batched(
    index: Seq<Option<(u64, u64, bool)>>,
    asked: Seq<Vec<(u64, u64)>>,
) -> bool {
    &&& asked.len() == (fetch::plotted_of(index).len() + RANGES_AT_ONCE - 1) / (
    RANGES_AT_ONCE as int)
    &&& forall|b: int|
        0 <= b < asked.len() ==> (#[trigger] asked[b])@ == batch(fetch::ranges_of(index), b)
}

/// Cuts the ranges into batches.
fn batches_of(ranges: &Vec<(u64, u64)>) -> (r: Vec<Vec<(u64, u64)>>)
    ensures
        r.len() == (ranges.len() + RANGES_AT_ONCE - 1) / (RANGES_AT_ONCE as int),
        forall|b: int| 0 <= b < r.len() ==> (#[trigger] r[b])@ == batch(ranges@, b),
{
    let mut r: Vec<Vec<(u64, u64)>> = Vec::new();
    let mut from: usize = 0;
    while from < ranges.len()
        invariant
            0 <= from <= ranges.len(),
            from < ranges.len() ==> from == r.len() * RANGES_AT_ONCE,
            from == ranges.len() ==> r.len() == (ranges.len() + RANGES_AT_ONCE - 1) / (
            RANGES_AT_ONCE as int),
            forall|b: int| 0 <= b < r.len() ==> (#[trigger] r[b])@ == batch(ranges@, b),
        decreases ranges.len() - from,
    {
        let left: usize = ranges.len() - from;
        let len: usize = if RANGES_AT_ONCE < left {
            RANGES_AT_ONCE
        } else {
            left
        };
        let mut one: Vec<(u64, u64)> = Vec::new();
        let mut i: usize = 0;
        while i < len
            invariant
                from + len <= ranges.len(),
                0 <= i <= len,
                one@ == ranges@.subrange(from as int, from + i),
            decreases len - i,
        {
            one.push(ranges[from + i]);
            i += 1;
            proof {
                assert(one@ =~= ranges@.subrange(from as int, from + i));
            }
        }
        proof {
            assert(one@ =~= batch(ranges@, r.len() as int));
        }
        r.push(one);
        from += len;
    }
    r
}

/// Lists of runs of bytes, one behind the other.
pub open spec fn merged(lists: Seq<Vec<Part>>) -> Seq<Part>
    decreases lists.len(),
{
    if lists.len() == 0 {
        Seq::empty()
    } else {
        merged(lists.drop_last()) + lists.last()@
    }
}

/// The bytes of all the runs in the lists, one behind the other.
fn merge_parts(lists: Vec<Vec<Part>>) -> (r: Vec<Vec<u8>>)
    ensures
        r.len() == merged(lists@).len(),
        forall|n: int| 0 <= n < r.len() ==> (#[trigger] r[n])@ == merged(lists@)[n].data@,
{
    let mut r: Vec<Vec<u8>> = Vec::new();
    let ghost all = lists@;
    proof {
        assert(all.take(0) =~= Seq::<Vec<Part>>::empty());
    }
    for list in it: lists
        invariant
            it.seq() == all,
            r.len() == merged(all.take(it.index() as int)).len(),
            forall|n: int|
                0 <= n < r.len() ==> (#[trigger] r@[n])@ == merged(
                    all.take(it.index() as int),
                )[n].data@,
    {
        let ghost before = merged(all.take(it.index() as int));
        let ghost one = list@;
        proof {
            assert(all.take(it.index() + 1).drop_last() =~= all.take(it.index() as int));
            assert(list == all[it.index() as int]);
        }
        for part in inner: list
            invariant
                inner.seq() == one,
                r.len() == before.len() + inner.index(),
                forall|n: int|
                    0 <= n < r.len() ==> (#[trigger] r@[n])@ == (before + one)[n].data@,
        {
            proof {
                assert(part == one[inner.index() as int]);
            }
            r.push(part.data);
        }
    }
    proof {
        assert(all.take(all.len() as int) =~= all);
    }
    r
}

/// The chunks that the runs of bytes bring, `(bytes, location, encoded)` for every plotted
/// s-bucket: the runs come in the order of the chunks.
pub open spec fn chunks_fetched(
    index: Seq<Option<(u64, u64, bool)>>,
    fetched: Seq<Part>,
    data: Seq<Option<(Vec<u8>, u64, bool)>>,
) -> bool {
    fetch::with_bytes(
        index,
        |i: int|
            {
                let n = fetch::rank(index, i) as int;
                if n < fetched.len() {
                    Some(fetched[n].data@)
                } else {
                    None
                }
            },
        data,
    )
}

/// `res` is what the decoding of the chunks that were fetched comes to.
pub open spec fn chunks_of_object<
    P: Fn(u16) -> [u8; FULL_BYTES],
    T: Fn([u8; FULL_BYTES]) -> Result<S, String>,
    S,
>(
    proof_hash: P,
    to_scalar: T,
    index: Seq<Option<(u64, u64, bool)>>,
    fetched: Seq<Part>,
    res: Result<Vec<Option<S>>, ReadingError>,
) -> bool {
    exists|data: Seq<Option<(Vec<u8>, u64, bool)>>|
        {
            &&& #[trigger] chunks_fetched(index, fetched, data)
            &&& data.len() == index.len()
            &&& match res {
                Ok(done) => chunks::all_done(proof_hash, to_scalar, data, done@),
                Err(error) => chunks::one_refused(proof_hash, to_scalar, data, error),
            }
        }
}

/// `recovered` is what is recovered from `chunks`, `source` is that with the number of chunks
/// checked, and `res` is what it comes to.
pub open spec fn recovered_from<
    S,
    E: Fn(&Vec<Option<S>>) -> Result<Vec<S>, String>,
    B: Fn(&S) -> [u8; FULL_BYTES],
>(
    recover_source: E,
    to_bytes: B,
    reading: PieceReading,
    chunks: &Vec<Option<S>>,
    recovered: Result<Vec<S>, String>,
    source: Result<Vec<S>, ReadingError>,
    res: Result<MetadataReading, ReadingError>,
) -> bool {
    &&& call_ensures(recover_source, (chunks,), recovered)
    &&& recover::accepted(recovered, reading.piece_offset, NUM_CHUNKS, source)
    &&& match (source, res) {
        (Ok(scalars), Ok(next)) => {
            &&& next.reading == reading
            &&& next.record.len() == NUM_CHUNKS
            &&& forall|i: int|
                0 <= i < next.record.len() ==> call_ensures(
                    to_bytes,
                    (&scalars[i],),
                    #[trigger] next.record[i],
                )
        },
        (Err(error), Err(e)) => e == error,
        _ => false,
    }
}

/// `res` is what the recovery of a record from `chunks` comes to.
pub open spec fn record_recovered<
    S,
    E: Fn(&Vec<Option<S>>) -> Result<Vec<S>, String>,
    B: Fn(&S) -> [u8; FULL_BYTES],
>(
    recover_source: E,
    to_bytes: B,
    reading: PieceReading,
    chunks: &Vec<Option<S>>,
    res: Result<MetadataReading, ReadingError>,
) -> bool {
    exists|recovered: Result<Vec<S>, String>, source: Result<Vec<S>, ReadingError>| #[trigger]
        recovered_from(recover_source, to_bytes, reading, chunks, recovered, source, res)
}

/// `res` is what the check of the piece that `record` and `metadata` make up comes to.
pub open spec fn piece_checked<H: Fn(&Vec<u8>) -> [u8; CHECKSUM_SIZE]>(
    hash: H,
    record: Vec<[u8; FULL_BYTES]>,
    metadata: RecordMetadata,
    res: Result<Piece, ReadingError>,
) -> bool {
    let piece = Piece { record, commitment: metadata.commitment, witness: metadata.witness };
    exists|bytes: Vec<u8>, checksum: [u8; CHECKSUM_SIZE]|
        #![trigger call_ensures(hash, (&bytes,), checksum)]
        {
            &&& bytes@ == piece.bytes()
            &&& call_ensures(hash, (&bytes,), checksum)
            &&& if checksum@ == metadata.piece_checksum@ {
                res == Ok::<Piece, ReadingError>(piece)
            } else {
                res == Err::<Piece, ReadingError>(ReadingError::ChecksumMismatch)
            }
        }
}

impl ChunkReading {
    /// The byte ranges `(position, length)` of the chunks, in batches that can be asked for at
    /// once.
    pub fn batches(&self) -> (r: Vec<Vec<(u64, u64)>>)
        ensures
            r.len() == (fetch::plotted_of(self.index@).len() + RANGES_AT_ONCE - 1) / (
            RANGES_AT_ONCE as int),
            forall|b: int|
                0 <= b < r.len() ==> (#[trigger] r[b])@ == batch(
                    fetch::ranges_of(self.index@),
                    b,
                ),
            batched(self.index@, r@),
    {
        let ranges: Vec<(u64, u64)> = chunk_ranges(&self.index);
        batches_of(&ranges)
    }

    /// Decodes the chunks of the record. `parts_list` is what was fetched for the batches, for
    /// each the runs of bytes of its ranges.
    pub fn decode_fetched<
        P: Fn(u16) -> [u8; FULL_BYTES],
        T: Fn([u8; FULL_BYTES]) -> Result<S, String>,
        S,
    >(&self, parts_list: Vec<Vec<Part>>, proof_hash: &P, to_scalar: &T) -> (res: Result<
        Vec<Option<S>>,
        ReadingError,
    >)
        requires
            self.index.len() <= NUM_S_BUCKETS,
            forall|n: int|
                0 <= n < merged(parts_list@).len() ==> (#[trigger] merged(
                    parts_list@,
                )[n]).data.len() == FULL_BYTES,
            forall|i: int|
                0 <= i < self.index.len() && (#[trigger] self.index[i]) is Some && (
                self.index[i]->0).2 ==> call_requires(*proof_hash, (i as u16,)),
            forall|chunk: [u8; FULL_BYTES]| #[trigger] call_requires(*to_scalar, (chunk,)),
        ensures
            chunks_of_object(*proof_hash, *to_scalar, self.index@, merged(parts_list@), res),
    {
        let ghost fetched = merged(parts_list@);
        let buffs: Vec<Vec<u8>> = merge_parts(parts_list);
        let ghost bs = buffs@;
        let data: Vec<Option<(Vec<u8>, u64, bool)>> = deal_chunks(&self.index, buffs);
        proof {
            assert forall|i: int| 0 <= i < data.len() implies match (#[trigger] data@[i]) {
                None => self.index[i] is None || fetch::rank(self.index@, i) >= fetched.len(),
                Some((bytes, location, encoded)) => {
                    let n = fetch::rank(self.index@, i) as int;
                    &&& self.index[i] is Some
                    &&& n < fetched.len()
                    &&& bytes@ == fetched[n].data@
                    &&& bytes.len() == FULL_BYTES
                    &&& location == (self.index[i]->0).1
                    &&& encoded == (self.index[i]->0).2
                },
            } by {
                let n = fetch::rank(self.index@, i) as int;
                if n < bs.len() {
                    assert(fetch::dealt(self.index@, bs, i) == Some(bs[n]@));
                    assert(bs[n]@ == fetched[n].data@);
                } else {
                    assert(fetch::dealt(self.index@, bs, i) is None);
                }
            }
            assert(chunks_fetched(self.index@, fetched, data@));
            assert(chunks::covered(data@) == self.index.len());
        }
        read_sector_record_chunks_qiniu(proof_hash, to_scalar, &data)
    }

    /// Recovers the record from its decoded chunks.
    pub fn recover_record<
        S,
        E: Fn(&Vec<Option<S>>) -> Result<Vec<S>, String>,
        B: Fn(&S) -> [u8; FULL_BYTES],
    >(
        self,
        sector_record_chunks: &Vec<Option<S>>,
        recover_source: &E,
        to_bytes: &B,
    ) -> (res: Result<MetadataReading, ReadingError>)
        requires
            sector_record_chunks.len() == NUM_S_BUCKETS,
            call_requires(*recover_source, (sector_record_chunks,)),
            forall|s: &S| #[trigger] call_requires(*to_bytes, (s,)),
        ensures
            record_recovered(
                *recover_source,
                *to_bytes,
                self.reading,
                sector_record_chunks,
                res,
            ),
            res matches Ok(next) ==> exists|scalars: Vec<S>|
                {
                    &&& #[trigger] call_ensures(
                        *recover_source,
                        (sector_record_chunks,),
                        Ok::<Vec<S>, String>(scalars),
                    )
                    &&& next.record.len() == NUM_CHUNKS
                    &&& scalars.len() == NUM_CHUNKS
                    &&& forall|i: int|
                        0 <= i < NUM_CHUNKS ==> call_ensures(
                            *to_bytes,
                            (&scalars[i],),
                            #[trigger] next.record[i],
                        )
                },
    {
        let piece_offset: u16 = self.reading.piece_offset;
        let source: Result<Vec<S>, ReadingError> = recover_source_record_chunks(
            sector_record_chunks,
            piece_offset,
            recover_source,
        );
        let ghost checked = source;
        let ghost recovered = choose|recovered: Result<Vec<S>, String>| #[trigger]
            call_ensures(*recover_source, (sector_record_chunks,), recovered) && recover::accepted(
                recovered,
                piece_offset,
                NUM_CHUNKS,
                source,
            );
        match source {
            Err(error) => {
                let res: Result<MetadataReading, ReadingError> = Err(error);
                proof {
                    assert(recovered_from(
                        *recover_source,
                        *to_bytes,
                        self.reading,
                        sector_record_chunks,
                        recovered,
                        checked,
                        res,
                    ));
                }
                res
            },
            Ok(scalars) => {
                let mut record: Vec<[u8; FULL_BYTES]> = Vec::new();
                let mut i: usize = 0;
                while i < scalars.len()
                    invariant
                        forall|s: &S| #[trigger] call_requires(*to_bytes, (s,)),
                        0 <= i <= scalars.len(),
                        record.len() == i,
                        forall|k: int|
                            0 <= k < i ==> call_ensures(
                                *to_bytes,
                                (&scalars[k],),
                                #[trigger] record@[k],
                            ),
                    decreases scalars.len() - i,
                {
                    record.push(to_bytes(&scalars[i]));
                    i += 1;
                }
                let res: Result<MetadataReading, ReadingError> = Ok(
                    MetadataReading { reading: self.reading, record },
                );
                proof {
                    assert(recovered == Ok::<Vec<S>, String>(scalars));
                    assert(recovered_from(
                        *recover_source,
                        *to_bytes,
                        self.reading,
                        sector_record_chunks,
                        recovered,
                        checked,
                        res,
                    ));
                }
                res
            },
        }
    }
}

/// The reading of a piece, with its record recovered.
#[derive(Debug)]
pub struct MetadataReading {
    pub reading: PieceReading,
    pub record: Vec<[u8; FULL_BYTES]>,
}

impl MetadataReading {
    /// The byte range `(position, length)` of the metadata of the record.
    pub fn metadata_range(&self) -> (r: (u64, u64))
        requires
            layout::metadata_position(self.reading.piece_offset, self.reading.layout)
                + self.reading.sector_offset <= u64::MAX,
        ensures
            r.0 == layout::metadata_position(self.reading.piece_offset, self.reading.layout)
                + self.reading.sector_offset,
            r.1 == RECORD_METADATA_SIZE,
            (r.0 as int, r.1 as int) == self.reading.metadata_place(),
    {
        let position: u64 = read_record_metadata_index(
            self.reading.piece_offset,
            &self.reading.layout,
        );
        (position + self.reading.sector_offset, RECORD_METADATA_SIZE as u64)
    }

    /// Puts the piece together and gives it out if `hash` gives the checksum that is recorded in
    /// the metadata.
    pub fn finish<H: Fn(&Vec<u8>) -> [u8; CHECKSUM_SIZE]>(
        self,
        metadata: &RecordMetadata,
        hash: &H,
    ) -> (res: Result<Piece, ReadingError>)
        requires
            forall|bytes: &Vec<u8>| #[trigger] call_requires(*hash, (bytes,)),
        ensures
            piece_checked(*hash, self.record, *metadata, res),
    {
        let piece = Piece {
            record: self.record,
            commitment: metadata.commitment,
            witness: metadata.witness,
        };
        let bytes: Vec<u8> = piece.to_bytes();
        let checksum: [u8; CHECKSUM_SIZE] = hash(&bytes);
        check_piece(piece, &checksum, &metadata.piece_checksum)
    }
}

/// The first `n` batches, one behind the other.
pub open spec fn batches_joined(ranges: Seq<(u64, u64)>, n: nat) -> Seq<(u64, u64)>
    decreases n,
{
    if n == 0 {
        Seq::empty()
    } else {
        batches_joined(ranges, (n - 1) as nat) + batch(ranges, n - 1)
    }
}

/// The batches, in turn, are all the ranges, and none is asked for twice.
pub proof fn law_batches_make_ranges(ranges: Seq<(u64, u64)>)
    ensures
        batches_joined(
            ranges,
            ((ranges.len() + RANGES_AT_ONCE - 1) / (RANGES_AT_ONCE as int)) as nat,
        ) == ranges,
{
    let n = ((ranges.len() + RANGES_AT_ONCE - 1) / (RANGES_AT_ONCE as int)) as nat;
    lemma_batches_joined(ranges, n);
    assert(ranges.take(ranges.len() as int) =~= ranges);
}

proof fn lemma_batches_joined(ranges: Seq<(u64, u64)>, n: nat)
    requires
        n <= (ranges.len() + RANGES_AT_ONCE - 1) / (RANGES_AT_ONCE as int),
    ensures
        batches_joined(ranges, n) == ranges.take(
            if n * RANGES_AT_ONCE < ranges.len() {
                n * RANGES_AT_ONCE
            } else {
                ranges.len() as int
            },
        ),
    decreases n,
{
    if n == 0 {
        assert(batches_joined(ranges, n) =~= ranges.take(0));
    } else {
        lemma_batches_joined(ranges, (n - 1) as nat);
        assert(batches_joined(ranges, n) =~= ranges.take(
            if n * RANGES_AT_ONCE < ranges.len() {
                n * RANGES_AT_ONCE
            } else {
                ranges.len() as int
            },
        ));
    }
}

/// A sector gives the same chunks from a disk and from the object that it is a part of.
pub proof fn law_object_reads_like_disk(
    object: Seq<u8>,
    base: nat,
    sector_len: nat,
    on_disk: Seq<Option<(u64, u64, bool)>>,
    in_object: Seq<Option<(u64, u64, bool)>>,
    fetched: Seq<Part>,
    data_disk: Seq<Option<(Vec<u8>, u64, bool)>>,
    data_object: Seq<Option<(Vec<u8>, u64, bool)>>,
)
    requires
        base + sector_len <= object.len(),
        in_object.len() == on_disk.len(),
        forall|i: int|
            0 <= i < on_disk.len() ==> match (#[trigger] on_disk[i], in_object[i]) {
                (Some((here, hl, he)), Some((there, tl, te))) => there == here + base && hl == tl
                    && he == te,
                (None, None) => true,
                _ => false,
            },
        fetch::inside(on_disk, sector_len),
        fetched.len() == fetch::ranges_of(in_object).len(),
        forall|n: int|
            0 <= n < fetched.len() ==> (#[trigger] fetched[n]).data@ == object.subrange(
                fetch::ranges_of(in_object)[n].0 as int,
                fetch::ranges_of(in_object)[n].0 + fetch::ranges_of(in_object)[n].1,
            ),
        fetch::with_bytes(
            on_disk,
            |i: int|
                fetch::cut(
                    on_disk,
                    object.subrange(base as int, (base + sector_len) as int),
                    i,
                ),
            data_disk,
        ),
        chunks_fetched(in_object, fetched, data_object),
    ensures
        data_disk.len() == data_object.len(),
        forall|i: int|
            0 <= i < data_disk.len() ==> match (#[trigger] data_disk[i], data_object[i]) {
                (Some((a, al, ae)), Some((b, bl, be))) => a@ == b@ && al == bl && ae == be,
                (None, None) => true,
                _ => false,
            },
{
    let sector = object.subrange(base as int, (base + sector_len) as int);
    assert forall|i: int| 0 <= i < data_disk.len() implies match (
        #[trigger] data_disk[i],
        data_object[i],
    ) {
        (Some((a, al, ae)), Some((b, bl, be))) => a@ == b@ && al == bl && ae == be,
        (None, None) => true,
        _ => false,
    } by {
        let here = on_disk[i];
        let there = in_object[i];
        let got = data_object[i];
        if here is Some {
            fetch::lemma_rank(in_object, i);
            let n = fetch::rank(in_object, i) as int;
            assert(fetched[n].data@ =~= fetch::cut(on_disk, sector, i)->0);
        }
    }
}

/// The record keeps the order of what was recovered: its chunk `i` is the form in bytes of the
/// scalar `i`, for all 32768 of them.
pub proof fn law_record_keeps_order<
    S,
    E: Fn(&Vec<Option<S>>) -> Result<Vec<S>, String>,
    B: Fn(&S) -> [u8; FULL_BYTES],
>(
    recover_source: E,
    to_bytes: B,
    reading: PieceReading,
    chunks: &Vec<Option<S>>,
    scalars: Seq<S>,
    form: spec_fn(S) -> Seq<u8>,
    res: Result<MetadataReading, ReadingError>,
)
    requires
        scalars.len() == 32768,
        forall|recovered: Result<Vec<S>, String>| #[trigger]
            call_ensures(recover_source, (chunks,), recovered) ==> recovered is Ok
                && recovered->Ok_0@ == scalars,
        forall|s: &S, bytes: [u8; FULL_BYTES]| #[trigger]
            call_ensures(to_bytes, (s,), bytes) ==> bytes@ == form(*s),
        record_recovered(recover_source, to_bytes, reading, chunks, res),
    ensures
        res matches Ok(next) && {
            &&& next.reading == reading
            &&& next.record.len() == 32768
            &&& forall|i: int| 0 <= i < 32768 ==> (#[trigger] next.record[i])@ == form(scalars[i])
        },
{
    let (recovered, source) = choose|
        recovered: Result<Vec<S>, String>,
        source: Result<Vec<S>, ReadingError>,
    | #[trigger]
        recovered_from(recover_source, to_bytes, reading, chunks, recovered, source, res);
    let kept = source->Ok_0;
    let next = res->Ok_0;
    assert forall|i: int| 0 <= i < 32768 implies (#[trigger] next.record[i])@ == form(
        scalars[i],
    ) by {
        assert(call_ensures(to_bytes, (&kept[i],), next.record[i]));
        assert(kept[i] == scalars[i]);
    }
}

/// A recovery that fails, or that gives another number of chunks than a record has, makes no record.
pub proof fn law_short_recovery_makes_no_record<
    S,
    E: Fn(&Vec<Option<S>>) -> Result<Vec<S>, String>,
    B: Fn(&S) -> [u8; FULL_BYTES],
>(
    recover_source: E,
    to_bytes: B,
    reading: PieceReading,
    chunks: &Vec<Option<S>>,
    res: Result<MetadataReading, ReadingError>,
)
    requires
        forall|recovered: Result<Vec<S>, String>| #[trigger]
            call_ensures(recover_source, (chunks,), recovered) ==> recovered is Err
                || recovered->Ok_0.len() != 32768,
        record_recovered(recover_source, to_bytes, reading, chunks, res),
    ensures
        res matches Err(error) && match error {
            ReadingError::FailedToErasureDecodeRecord { piece_offset, error: reason } => {
                &&& piece_offset == reading.piece_offset
                &&& call_ensures(recover_source, (chunks,), Err::<Vec<S>, String>(reason))
            },
            ReadingError::WrongRecordSizeAfterDecoding { expected, actual } => {
                &&& expected == 32768
                &&& actual != 32768
                &&& exists|scalars: Vec<S>|
                    scalars.len() == actual && #[trigger] call_ensures(
                        recover_source,
                        (chunks,),
                        Ok::<Vec<S>, String>(scalars),
                    )
            },
            _ => false,
        },
{
    let (recovered, source) = choose|
        recovered: Result<Vec<S>, String>,
        source: Result<Vec<S>, ReadingError>,
    | #[trigger]
        recovered_from(recover_source, to_bytes, reading, chunks, recovered, source, res);
    assert(call_ensures(recover_source, (chunks,), recovered));
}

proof fn lemma_chunk_bytes(chunks: Seq<[u8; FULL_BYTES]>)
    ensures
        chunk_bytes(chunks).len() == 32 * chunks.len(),
        forall|i: int, j: int|
            0 <= i < chunks.len() && 0 <= j < 32 ==> chunk_bytes(chunks)[32 * i + j]
                == #[trigger] chunks[i]@[j],
    decreases chunks.len(),
{
    if chunks.len() > 0 {
        let front = chunks.drop_last();
        lemma_chunk_bytes(front);
        assert forall|i: int, j: int| 0 <= i < chunks.len() && 0 <= j < 32 implies chunk_bytes(
            chunks,
        )[32 * i + j] == #[trigger] chunks[i]@[j] by {
            if i < front.len() {
                assert(front[i]@[j] == chunks[i]@[j]);
            }
        }
    }
}

/// The bytes of a piece: byte `j` of the chunk `i` of the record is at `32 * i + j`, the 48 bytes of
/// the commitment follow, and then the 48 bytes of the witness.
pub proof fn law_piece_bytes(piece: Piece)
    ensures
        piece.bytes().len() == 32 * piece.record.len() + 96,
        forall|i: int, j: int|
            0 <= i < piece.record.len() && 0 <= j < 32 ==> piece.bytes()[32 * i + j]
                == #[trigger] piece.record[i]@[j],
        forall|j: int|
            0 <= j < 48 ==> piece.bytes()[32 * piece.record.len() + j]
                == #[trigger] piece.commitment@[j],
        forall|j: int|
            0 <= j < 48 ==> piece.bytes()[32 * piece.record.len() + 48 + j]
                == #[trigger] piece.witness@[j],
{
    lemma_chunk_bytes(piece.record@);
    assert forall|i: int, j: int|
        0 <= i < piece.record.len() && 0 <= j < 32 implies piece.bytes()[32 * i + j]
        == #[trigger] piece.record[i]@[j] by {
        assert(chunk_bytes(piece.record@)[32 * i + j] == piece.record@[i]@[j]);
    }
}

/// A piece is given out with the record, the commitment and the witness that it was made of, if and
/// only if the hash of its bytes is the checksum that was recorded.
pub proof fn law_piece_is_given_out_by_checksum<H: Fn(&Vec<u8>) -> [u8; CHECKSUM_SIZE]>(
    hash: H,
    record: Vec<[u8; FULL_BYTES]>,
    metadata: RecordMetadata,
    checksum: Seq<u8>,
    res: Result<Piece, ReadingError>,
)
    requires
        forall|bytes: &Vec<u8>, found: [u8; CHECKSUM_SIZE]| #[trigger]
            call_ensures(hash, (bytes,), found) && bytes@ == (Piece {
                record,
                commitment: metadata.commitment,
                witness: metadata.witness,
            }).bytes() ==> found@ == checksum,
        piece_checked(hash, record, metadata, res),
    ensures
        match res {
            Ok(piece) => {
                &&& checksum == metadata.piece_checksum@
                &&& piece.record == record
                &&& piece.commitment == metadata.commitment
                &&& piece.witness == metadata.witness
            },
            Err(error) => checksum != metadata.piece_checksum@ && error
                == ReadingError::ChecksumMismatch,
        },
{
}

/// Every batch but the last has 512 ranges, the last one has the rest, none is empty, and the range
/// `n` of the plotted chunks is in the batch `n / 512`, at its place `n % 512`: the place of a chunk
/// in the object, and 32 bytes.
pub proof fn law_batches_hold_ranges(
    index: Seq<Option<(u64, u64, bool)>>,
    asked: Seq<Vec<(u64, u64)>>,
    i: int,
)
    requires
        batched(index, asked),
        0 <= i < index.len(),
        index[i] is Some,
    ensures
        ({
            let n = fetch::rank(index, i) as int;
            &&& n / 512 < asked.len()
            &&& n % 512 < asked[n / 512].len()
            &&& asked[n / 512][n % 512] == ((index[i]->0).0, 32u64)
        }),
        forall|b: int|
            0 <= b < asked.len() ==> 0 < (#[trigger] asked[b]).len() <= 512 && (b + 1 < asked.len()
                ==> asked[b].len() == 512),
{
    fetch::lemma_rank(index, i);
    let ranges = fetch::ranges_of(index);
    let n = fetch::rank(index, i) as int;
    assert(asked[n / 512]@ == batch(ranges, n / 512));
    assert forall|b: int| 0 <= b < asked.len() implies 0 < (#[trigger] asked[b]).len() <= 512 && (b
        + 1 < asked.len() ==> asked[b].len() == 512) by {
        assert(asked[b]@ == batch(ranges, b));
    }
}

/// A sector starts with its contents map, right behind which the first chunk lies, and behind the
/// chunks there are 128 bytes of metadata for each record in turn.
pub proof fn law_regions_of_a_sector(
    reading: PieceReading,
    plotted: Seq<Option<(usize, bool)>>,
    s_bucket_offsets: Seq<u32>,
    places: ChunkReading,
    i: int,
)
    requires
        places_known(reading, plotted, s_bucket_offsets, places),
        0 <= i < places.index.len(),
        plotted[i] matches Some((chunk_offset, _)) ==> reading.sector_offset
            + reading.layout.contents_map_size + 32 * (s_bucket_offsets[i] + chunk_offset)
            <= u64::MAX,
    ensures
        reading.map_place().0 == reading.sector_offset,
        reading.map_place().1 == reading.layout.contents_map_size,
        plotted[i] matches Some((chunk_offset, encoded)) ==> places.index[i] matches Some(
            (position, location, is_encoded),
        ) && {
            &&& location == s_bucket_offsets[i] + chunk_offset
            &&& position == reading.map_place().0 + reading.map_place().1 + 32 * location
            &&& is_encoded == encoded
        },
        plotted[i] is None ==> places.index[i] is None,
        reading.metadata_place().0 == reading.map_place().0 + reading.map_place().1
            + reading.layout.record_chunks_size + 128 * reading.piece_offset,
        reading.metadata_place().1 == 128,
{
    match plotted[i] {
        Some((chunk_offset, encoded)) => {
            layout::law_chunks_are_counted(
                chunk_offset,
                encoded,
                s_bucket_offsets[i],
                reading.layout,
                reading.sector_offset,
            );
        },
        None => {},
    }
}

/// The runs of bytes that were fetched go to the plotted s-buckets in turn, and a plotted s-bucket that
/// none came for gets nothing.
pub proof fn law_runs_go_to_s_buckets_in_turn(
    index: Seq<Option<(u64, u64, bool)>>,
    fetched: Seq<Part>,
    data: Seq<Option<(Vec<u8>, u64, bool)>>,
    i: int,
)
    requires
        chunks_fetched(index, fetched, data),
        0 <= i < index.len(),
    ensures
        data.len() == index.len(),
        data[i] is Some <==> index[i] is Some && fetch::rank(index, i) < fetched.len(),
        data[i] matches Some((bytes, location, encoded)) ==> {
            &&& bytes@ == fetched[fetch::rank(index, i) as int].data@
            &&& location == (index[i]->0).1
            &&& encoded == (index[i]->0).2
        },
{
    let got = data[i];
}

/// Lists of runs are put one behind the other: those of a further list follow all the others.
pub proof fn law_merged_lists_follow(lists: Seq<Vec<Part>>, list: Vec<Part>)
    ensures
        merged(Seq::<Vec<Part>>::empty()).len() == 0,
        merged(lists.push(list)) == merged(lists) + list@,
{
    assert(lists.push(list).drop_last() =~= lists);
}

} // verus!
