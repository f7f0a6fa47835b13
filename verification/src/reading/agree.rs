//! A sector gives the same piece from a disk and from the object that it is a part of.
use vstd::prelude::*;

use crate::reading::chunks;
use crate::reading::error::ReadingError;
use crate::reading::fetch;
use crate::reading::fetch::ReadSectorRecordChunksMode;
use crate::reading::layout;
use crate::reading::layout::{SectorLayout, CHECKSUM_SIZE, FULL_BYTES, RECORD_METADATA_SIZE};
use crate::reading::metadata;
use crate::reading::metadata::RecordMetadata;
use crate::reading::piece;
use crate::reading::piece::{ChunkReading, MetadataReading, Piece, PieceReading};
use crate::s3::parts::Part;

verus! {

/// There is one hash for an s-bucket.
pub open spec fn fixed_proofs<P: Fn(u16) -> [u8; FULL_BYTES]>(proof_hash: P) -> bool {
    forall|s_bucket: u16, a: [u8; FULL_BYTES], b: [u8; FULL_BYTES]| #[trigger]
        call_ensures(proof_hash, (s_bucket,), a) && #[trigger] call_ensures(
            proof_hash,
            (s_bucket,),
            b,
        ) ==> a@ == b@
}

/// A chunk is one scalar, or none.
pub open spec fn fixed_scalars<T: Fn([u8; FULL_BYTES]) -> Result<S, String>, S>(
    to_scalar: T,
) -> bool {
    forall|
        c: [u8; FULL_BYTES],
        d: [u8; FULL_BYTES],
        a: Result<S, String>,
        b: Result<S, String>,
    |
        c@ == d@ && #[trigger] call_ensures(to_scalar, (c,), a) && #[trigger] call_ensures(
            to_scalar,
            (d,),
            b,
        ) ==> match (a, b) {
            (Ok(x), Ok(y)) => x == y,
            (Err(_), Err(_)) => true,
            _ => false,
        }
}

/// One record is recovered from the same chunks, or none.
pub open spec fn fixed_recovery<S, E: Fn(&Vec<Option<S>>) -> Result<Vec<S>, String>>(
    recover_source: E,
) -> bool {
    forall|
        v: &Vec<Option<S>>,
        w: &Vec<Option<S>>,
        a: Result<Vec<S>, String>,
        b: Result<Vec<S>, String>,
    |
        v@ == w@ && #[trigger] call_ensures(recover_source, (v,), a) && #[trigger] call_ensures(
            recover_source,
            (w,),
            b,
        ) ==> match (a, b) {
            (Ok(x), Ok(y)) => x@ == y@,
            (Err(_), Err(_)) => true,
            _ => false,
        }
}

/// A scalar has one form in bytes.
pub open spec fn fixed_bytes<S, B: Fn(&S) -> [u8; FULL_BYTES]>(to_bytes: B) -> bool {
    forall|s: &S, a: [u8; FULL_BYTES], b: [u8; FULL_BYTES]| #[trigger]
        call_ensures(to_bytes, (s,), a) && #[trigger] call_ensures(to_bytes, (s,), b) ==> a@ == b@
}

/// The same bytes have one checksum.
pub open spec fn fixed_checksums<H: Fn(&Vec<u8>) -> [u8; CHECKSUM_SIZE]>(hash: H) -> bool {
    forall|v: &Vec<u8>, w: &Vec<u8>, a: [u8; CHECKSUM_SIZE], b: [u8; CHECKSUM_SIZE]|
        v@ == w@ && #[trigger] call_ensures(hash, (v,), a) && #[trigger] call_ensures(
            hash,
            (w,),
            b,
        ) ==> a@ == b@
}

/// The reading of a piece from its start to its end. Where a step fails, what would come after it
/// counts for nothing.
pub ghost struct PieceRun<S> {
    pub reading: PieceReading,
    /// The plotted chunks that the contents map tells of.
    pub plotted: Result<Vec<Option<(usize, bool)>>, String>,
    pub places: Result<ChunkReading, ReadingError>,
    pub chunks: Result<Vec<Option<S>>, ReadingError>,
    pub record: Result<MetadataReading, ReadingError>,
    pub metadata: RecordMetadata,
    pub res: Result<Piece, ReadingError>,
}

impl<S> PieceRun<S> {
    /// From the chunks on, the steps are those of a recovery and of a check of the piece.
    pub open spec fn finishes<
        E: Fn(&Vec<Option<S>>) -> Result<Vec<S>, String>,
        B: Fn(&S) -> [u8; FULL_BYTES],
        H: Fn(&Vec<u8>) -> [u8; CHECKSUM_SIZE],
    >(self, recover_source: E, to_bytes: B, hash: H) -> bool {
        match self.chunks {
            Err(error) => self.res == Err::<Piece, ReadingError>(error),
            Ok(done) => {
                &&& piece::record_recovered(
                    recover_source,
                    to_bytes,
                    self.reading,
                    &done,
                    self.record,
                )
                &&& match self.record {
                    Err(error) => self.res == Err::<Piece, ReadingError>(error),
                    Ok(next) => piece::piece_checked(hash, next.record, self.metadata, self.res),
                }
            },
        }
    }

    /// Where the chunks are is known from the contents map `map`, which `decoded` says what is in.
    pub open spec fn starts(
        self,
        decoded: spec_fn(Seq<u8>) -> Option<Seq<Option<(usize, bool)>>>,
        map: Seq<u8>,
        s_bucket_offsets: Seq<u32>,
    ) -> bool {
        &&& match self.plotted {
            Ok(chunks) => decoded(map) == Some(chunks@),
            Err(_) => decoded(map) is None,
        }
        &&& piece::contents_decoded(self.reading, self.plotted, s_bucket_offsets, self.places)
        &&& self.places matches Err(error) ==> self.res == Err::<Piece, ReadingError>(error)
    }
}

/// The reads bring what is in the sector, and all the chunks are in it.
pub open spec fn reads_bring(
    mode: ReadSectorRecordChunksMode,
    index: Seq<Option<(u64, u64, bool)>>,
    sector: Seq<u8>,
    reads: Seq<Result<Vec<u8>, std::io::Error>>,
) -> bool {
    &&& fetch::inside(index, sector.len())
    &&& match mode {
        ReadSectorRecordChunksMode::WholeSector => reads.len() == 1 && (reads[0] matches Ok(bytes)
            && bytes@ == sector),
        ReadSectorRecordChunksMode::ConcurrentChunks => {
            &&& reads.len() == fetch::plotted_of(index).len()
            &&& forall|n: int|
                0 <= n < reads.len() ==> (#[trigger] reads[n]) is Ok && reads[n]->Ok_0@
                    == sector.subrange(
                    fetch::plotted_of(index)[n].0 as int,
                    fetch::plotted_of(index)[n].0 + FULL_BYTES,
                )
        },
    }
}

/// The runs of bytes that were fetched are the ranges of the object that were asked for.
pub open spec fn ranges_brought(
    index: Seq<Option<(u64, u64, bool)>>,
    object: Seq<u8>,
    fetched: Seq<Part>,
) -> bool {
    &&& fetched.len() == fetch::ranges_of(index).len()
    &&& forall|n: int|
        0 <= n < fetched.len() ==> (#[trigger] fetched[n]).data@ == object.subrange(
            fetch::ranges_of(index)[n].0 as int,
            fetch::ranges_of(index)[n].0 + fetch::ranges_of(index)[n].1,
        )
}

/// The same chunks were read.
spec fn same_data(
    a: Seq<Option<(Vec<u8>, u64, bool)>>,
    b: Seq<Option<(Vec<u8>, u64, bool)>>,
) -> bool {
    &&& a.len() == b.len()
    &&& forall|i: int|
        0 <= i < a.len() ==> match (#[trigger] a[i], #[trigger] b[i]) {
            (Some((x, xl, xe)), Some((y, yl, ye))) => x@ == y@ && xl == yl && xe == ye,
            (None, None) => true,
            _ => false,
        }
}

/// The places in the object are those in the sector, further on.
spec fn shifted(
    on_disk: Seq<Option<(u64, u64, bool)>>,
    in_object: Seq<Option<(u64, u64, bool)>>,
    base: int,
) -> bool {
    &&& on_disk.len() == in_object.len()
    &&& forall|i: int|
        0 <= i < on_disk.len() ==> match (#[trigger] on_disk[i], #[trigger] in_object[i]) {
            (Some((here, hl, he)), Some((there, tl, te))) => there == here + base && hl == tl
                && he == te,
            (None, None) => true,
            _ => false,
        }
}

proof fn lemma_disk_and_object(
    object: Seq<u8>,
    base: int,
    sector: Seq<u8>,
    mode: ReadSectorRecordChunksMode,
    on_disk: Seq<Option<(u64, u64, bool)>>,
    reads: Seq<Result<Vec<u8>, std::io::Error>>,
    data_disk: Seq<Option<(Vec<u8>, u64, bool)>>,
    in_object: Seq<Option<(u64, u64, bool)>>,
    fetched: Seq<Part>,
    data_object: Seq<Option<(Vec<u8>, u64, bool)>>,
)
    requires
        0 <= base,
        base + sector.len() <= object.len(),
        sector == object.subrange(base, base + sector.len()),
        shifted(on_disk, in_object, base),
        reads_bring(mode, on_disk, sector, reads),
        fetch::chunks_read(mode, on_disk, reads, data_disk),
        ranges_brought(in_object, object, fetched),
        piece::chunks_fetched(in_object, fetched, data_object),
    ensures
        same_data(data_disk, data_object),
{
    assert forall|i: int| 0 <= i < on_disk.len() implies match (
        #[trigger] data_disk[i],
        #[trigger] data_object[i],
    ) {
        (Some((x, xl, xe)), Some((y, yl, ye))) => x@ == y@ && xl == yl && xe == ye,
        (None, None) => true,
        _ => false,
    } by {
        let here = on_disk[i];
        let there = in_object[i];
        if here is Some {
            let p = (here->0).0 as int;
            fetch::lemma_rank(on_disk, i);
            fetch::lemma_rank(in_object, i);
            let n = fetch::rank(in_object, i) as int;
            assert(fetched[n].data@ =~= sector.subrange(p, p + FULL_BYTES));
            match mode {
                ReadSectorRecordChunksMode::WholeSector => {
                    let bytes = reads[0]->Ok_0;
                    assert(fetch::cut(on_disk, bytes@, i) == Some(
                        sector.subrange(p, p + FULL_BYTES),
                    ));
                },
                ReadSectorRecordChunksMode::ConcurrentChunks => {
                    let buffs = choose|buffs: Seq<Vec<u8>>| #[trigger]
                        fetch::all_read(reads, buffs) && fetch::with_bytes(
                            on_disk,
                            |i: int| fetch::dealt(on_disk, buffs, i),
                            data_disk,
                        );
                    let m = fetch::rank(on_disk, i) as int;
                    assert(reads[m] == Ok::<Vec<u8>, std::io::Error>(buffs[m]));
                    assert(fetch::dealt(on_disk, buffs, i) == Some(buffs[m]@));
                },
            }
        }
    }
}

/// The chunk that decodes is the same for the same bytes.
proof fn lemma_decodes_once<P: Fn(u16) -> [u8; FULL_BYTES]>(
    proof_hash: P,
    s_bucket: u16,
    raw: Seq<u8>,
    encoded: bool,
    a: [u8; FULL_BYTES],
    b: [u8; FULL_BYTES],
)
    requires
        fixed_proofs(proof_hash),
        chunks::decodes(proof_hash, s_bucket, raw, encoded, a),
        chunks::decodes(proof_hash, s_bucket, raw, encoded, b),
    ensures
        a@ == b@,
{
}

proof fn lemma_same_chunks<
    P: Fn(u16) -> [u8; FULL_BYTES],
    T: Fn([u8; FULL_BYTES]) -> Result<S, String>,
    S,
>(
    proof_hash: P,
    to_scalar: T,
    data_a: Seq<Option<(Vec<u8>, u64, bool)>>,
    done_a: Seq<Option<S>>,
    data_b: Seq<Option<(Vec<u8>, u64, bool)>>,
    done_b: Seq<Option<S>>,
)
    requires
        fixed_proofs(proof_hash),
        fixed_scalars(to_scalar),
        same_data(data_a, data_b),
        chunks::all_done(proof_hash, to_scalar, data_a, done_a),
        chunks::all_done(proof_hash, to_scalar, data_b, done_b),
    ensures
        done_a == done_b,
{
    assert forall|i: int| 0 <= i < done_a.len() implies #[trigger] done_a[i] == done_b[i] by {
        if i < chunks::covered(data_a) {
            let a = data_a[i];
            let b = data_b[i];
            assert(chunks::chunk_done(proof_hash, to_scalar, i as u16, data_a[i], done_a[i]));
            assert(chunks::chunk_done(proof_hash, to_scalar, i as u16, data_b[i], done_b[i]));
            if a is Some {
                let raw = (a->0).0@;
                let encoded = (a->0).2;
                let x = choose|x: [u8; FULL_BYTES]| #[trigger]
                    chunks::decodes(proof_hash, i as u16, raw, encoded, x) && call_ensures(
                        to_scalar,
                        (x,),
                        Ok::<S, String>(done_a[i]->0),
                    );
                let y = choose|y: [u8; FULL_BYTES]| #[trigger]
                    chunks::decodes(proof_hash, i as u16, (b->0).0@, (b->0).2, y) && call_ensures(
                        to_scalar,
                        (y,),
                        Ok::<S, String>(done_b[i]->0),
                    );
                lemma_decodes_once(proof_hash, i as u16, raw, encoded, x, y);
            }
        } else {
            assert(done_b[i] is None);
        }
    }
    assert(done_a =~= done_b);
}

proof fn lemma_done_is_not_refused<
    P: Fn(u16) -> [u8; FULL_BYTES],
    T: Fn([u8; FULL_BYTES]) -> Result<S, String>,
    S,
>(
    proof_hash: P,
    to_scalar: T,
    data_a: Seq<Option<(Vec<u8>, u64, bool)>>,
    done_a: Seq<Option<S>>,
    data_b: Seq<Option<(Vec<u8>, u64, bool)>>,
    error: ReadingError,
)
    requires
        fixed_proofs(proof_hash),
        fixed_scalars(to_scalar),
        data_a.len() == data_b.len(),
        same_data(data_a, data_b) || same_data(data_b, data_a),
        chunks::all_done(proof_hash, to_scalar, data_a, done_a),
    ensures
        !chunks::one_refused(proof_hash, to_scalar, data_b, error),
{
    if chunks::one_refused(proof_hash, to_scalar, data_b, error) {
        let i = choose|i: int|
            0 <= i < chunks::covered(data_b) && chunks::chunk_refused(
                proof_hash,
                to_scalar,
                i as u16,
                #[trigger] data_b[i],
                error,
            );
        let a = data_a[i];
        let b = data_b[i];
        assert(chunks::chunk_done(proof_hash, to_scalar, i as u16, data_a[i], done_a[i]));
        let raw = (a->0).0@;
        let encoded = (a->0).2;
        let x = choose|x: [u8; FULL_BYTES]| #[trigger]
            chunks::decodes(proof_hash, i as u16, raw, encoded, x) && call_ensures(
                to_scalar,
                (x,),
                Ok::<S, String>(done_a[i]->0),
            );
        let reason = error->InvalidChunk_error;
        let y = choose|y: [u8; FULL_BYTES]| #[trigger]
            chunks::decodes(proof_hash, i as u16, (b->0).0@, (b->0).2, y) && call_ensures(
                to_scalar,
                (y,),
                Err::<S, String>(reason),
            );
        lemma_decodes_once(proof_hash, i as u16, raw, encoded, x, y);
    }
}

/// Two readings end alike: with pieces of the same bytes, or both with an error.
pub open spec fn same_end(a: Result<Piece, ReadingError>, b: Result<Piece, ReadingError>) -> bool {
    match (a, b) {
        (Ok(x), Ok(y)) => x.bytes() == y.bytes(),
        (Err(_), Err(_)) => true,
        _ => false,
    }
}

/// Records with the same chunks have the same bytes.
pub proof fn lemma_same_bytes(a: Seq<[u8; FULL_BYTES]>, b: Seq<[u8; FULL_BYTES]>)
    requires
        a.len() == b.len(),
        forall|i: int| 0 <= i < a.len() ==> (#[trigger] a[i])@ == (#[trigger] b[i])@,
    ensures
        piece::chunk_bytes(a) == piece::chunk_bytes(b),
    decreases a.len(),
{
    if a.len() > 0 {
        let fa = a.drop_last();
        let fb = b.drop_last();
        assert forall|i: int| 0 <= i < fa.len() implies (#[trigger] fa[i])@ == (
        #[trigger] fb[i])@ by {
            assert(a[i]@ == b[i]@);
        }
        lemma_same_bytes(fa, fb);
        assert(a[a.len() - 1]@ == b[b.len() - 1]@);
    }
}

proof fn lemma_same_check<H: Fn(&Vec<u8>) -> [u8; CHECKSUM_SIZE]>(
    hash: H,
    record_a: Vec<[u8; FULL_BYTES]>,
    metadata_a: RecordMetadata,
    res_a: Result<Piece, ReadingError>,
    record_b: Vec<[u8; FULL_BYTES]>,
    metadata_b: RecordMetadata,
    res_b: Result<Piece, ReadingError>,
)
    requires
        fixed_checksums(hash),
        piece::chunk_bytes(record_a@) == piece::chunk_bytes(record_b@),
        metadata_a.commitment@ == metadata_b.commitment@,
        metadata_a.witness@ == metadata_b.witness@,
        metadata_a.piece_checksum@ == metadata_b.piece_checksum@,
        piece::piece_checked(hash, record_a, metadata_a, res_a),
        piece::piece_checked(hash, record_b, metadata_b, res_b),
    ensures
        same_end(res_a, res_b),
{
}

proof fn lemma_same_finish<
    S,
    E: Fn(&Vec<Option<S>>) -> Result<Vec<S>, String>,
    B: Fn(&S) -> [u8; FULL_BYTES],
    H: Fn(&Vec<u8>) -> [u8; CHECKSUM_SIZE],
>(recover_source: E, to_bytes: B, hash: H, a: PieceRun<S>, b: PieceRun<S>)
    requires
        fixed_recovery(recover_source),
        fixed_bytes(to_bytes),
        fixed_checksums(hash),
        a.reading.piece_offset == b.reading.piece_offset,
        a.metadata.encoded() == b.metadata.encoded(),
        match (a.chunks, b.chunks) {
            (Ok(x), Ok(y)) => x@ == y@,
            (Err(_), Err(_)) => true,
            _ => false,
        },
        a.finishes(recover_source, to_bytes, hash),
        b.finishes(recover_source, to_bytes, hash),
    ensures
        same_end(a.res, b.res),
{
    metadata::law_metadata_encoding_injective(a.metadata, b.metadata);
    match (a.chunks, b.chunks) {
        (Ok(x), Ok(y)) => {
            let (ra, sa) = choose|r: Result<Vec<S>, String>, s: Result<Vec<S>, ReadingError>|
                #[trigger]
                piece::recovered_from(recover_source, to_bytes, a.reading, &x, r, s, a.record);
            let (rb, sb) = choose|r: Result<Vec<S>, String>, s: Result<Vec<S>, ReadingError>|
                #[trigger]
                piece::recovered_from(recover_source, to_bytes, b.reading, &y, r, s, b.record);
            assert(call_ensures(recover_source, (&x,), ra));
            assert(call_ensures(recover_source, (&y,), rb));
            match (a.record, b.record) {
                (Ok(na), Ok(nb)) => {
                    let va = sa->Ok_0;
                    let vb = sb->Ok_0;
                    assert(va@ == vb@);
                    assert forall|i: int| 0 <= i < na.record@.len() implies (
                    #[trigger] na.record@[i])@ == (#[trigger] nb.record@[i])@ by {
                        assert(va[i] == vb[i]);
                        assert(call_ensures(to_bytes, (&va[i],), na.record[i]));
                        assert(call_ensures(to_bytes, (&vb[i],), nb.record[i]));
                    }
                    lemma_same_bytes(na.record@, nb.record@);
                    lemma_same_check(hash, na.record, a.metadata, a.res, nb.record, b.metadata, b.res);
                },
                _ => {},
            }
        },
        _ => {},
    }
}

/// A piece that is read out of an object is the one that is read off a disk, from the contents map
/// of the sector to the checked piece: where the sector is a part of the object, the two readings
/// end with the same piece, or both with an error.
pub proof fn law_object_gives_piece_of_disk<
    P: Fn(u16) -> [u8; FULL_BYTES],
    T: Fn([u8; FULL_BYTES]) -> Result<S, String>,
    S,
    E: Fn(&Vec<Option<S>>) -> Result<Vec<S>, String>,
    B: Fn(&S) -> [u8; FULL_BYTES],
    H: Fn(&Vec<u8>) -> [u8; CHECKSUM_SIZE],
>(
    proof_hash: P,
    to_scalar: T,
    recover_source: E,
    to_bytes: B,
    hash: H,
    decoded: spec_fn(Seq<u8>) -> Option<Seq<Option<(usize, bool)>>>,
    s_bucket_offsets: Seq<u32>,
    layout: SectorLayout,
    piece_offset: u16,
    object: Seq<u8>,
    base: u64,
    sector: Seq<u8>,
    mode: ReadSectorRecordChunksMode,
    reads: Seq<Result<Vec<u8>, std::io::Error>>,
    fetched: Seq<Part>,
    disk: PieceRun<S>,
    bucket: PieceRun<S>,
)
    requires
        fixed_proofs(proof_hash),
        fixed_scalars(to_scalar),
        fixed_recovery(recover_source),
        fixed_bytes(to_bytes),
        fixed_checksums(hash),
        base + sector.len() <= object.len(),
        sector == object.subrange(base as int, base + sector.len()),
        layout.contents_map_size <= sector.len(),
        layout::metadata_position(piece_offset, layout) + RECORD_METADATA_SIZE <= sector.len(),
        // The reading off the disk.
        disk.reading == (PieceReading { piece_offset, layout, sector_offset: 0 }),
        disk.starts(
            decoded,
            sector.subrange(0, layout.contents_map_size as int),
            s_bucket_offsets,
        ),
        disk.places matches Ok(places) ==> {
            &&& reads_bring(mode, places.index@, sector, reads)
            &&& fetch::chunks_of_sector(
                proof_hash,
                to_scalar,
                mode,
                places.index@,
                reads,
                disk.chunks,
            )
            &&& disk.finishes(recover_source, to_bytes, hash)
        },
        disk.metadata.encoded() == sector.subrange(
            layout::metadata_position(piece_offset, layout),
            layout::metadata_position(piece_offset, layout) + RECORD_METADATA_SIZE,
        ),
        // The reading out of the object.
        bucket.reading == (PieceReading { piece_offset, layout, sector_offset: base }),
        bucket.starts(
            decoded,
            object.subrange(base as int, base + layout.contents_map_size),
            s_bucket_offsets,
        ),
        bucket.plotted matches Ok(chunks) ==> layout::index_fits(
            chunks@,
            s_bucket_offsets,
            layout,
            base,
        ),
        bucket.places matches Ok(places) ==> {
            &&& ranges_brought(places.index@, object, fetched)
            &&& piece::chunks_of_object(
                proof_hash,
                to_scalar,
                places.index@,
                fetched,
                bucket.chunks,
            )
            &&& bucket.finishes(recover_source, to_bytes, hash)
        },
        bucket.metadata.encoded() == object.subrange(
            layout::metadata_position(piece_offset, layout) + base,
            layout::metadata_position(piece_offset, layout) + base + RECORD_METADATA_SIZE,
        ),
    ensures
        same_end(disk.res, bucket.res),
{
    assert(object.subrange(base as int, base + layout.contents_map_size) =~= sector.subrange(
        0,
        layout.contents_map_size as int,
    ));
    match (disk.places, bucket.places) {
        (Ok(here), Ok(there)) => {
            let on_disk = here.index@;
            let in_object = there.index@;
            let chunks = bucket.plotted->Ok_0@;
            assert(shifted(on_disk, in_object, base as int)) by {
                assert forall|i: int| 0 <= i < on_disk.len() implies match (
                    #[trigger] on_disk[i],
                    #[trigger] in_object[i],
                ) {
                    (Some((h, hl, he)), Some((t, tl, te))) => t == h + base && hl == tl && he == te,
                    (None, None) => true,
                    _ => false,
                } by {
                    assert(here.index[i] == layout::index_entry(
                        chunks[i],
                        s_bucket_offsets[i],
                        layout,
                        0,
                    ));
                    assert(there.index[i] == layout::index_entry(
                        chunks[i],
                        s_bucket_offsets[i],
                        layout,
                        base,
                    ));
                    layout::law_index_shifts(chunks[i], s_bucket_offsets[i], layout, base);
                }
            }
            let data_object = choose|data: Seq<Option<(Vec<u8>, u64, bool)>>|
                {
                    &&& #[trigger] piece::chunks_fetched(in_object, fetched, data)
                    &&& data.len() == in_object.len()
                    &&& match bucket.chunks {
                        Ok(done) => chunks::all_done(proof_hash, to_scalar, data, done@),
                        Err(error) => chunks::one_refused(proof_hash, to_scalar, data, error),
                    }
                };
            lemma_chunks_agree(
                proof_hash,
                to_scalar,
                object,
                base as int,
                sector,
                mode,
                on_disk,
                reads,
                disk.chunks,
                in_object,
                fetched,
                data_object,
                bucket.chunks,
            );
            assert(disk.metadata.encoded() =~= bucket.metadata.encoded());
            lemma_same_finish(recover_source, to_bytes, hash, disk, bucket);
        },
        _ => {},
    }
}

proof fn lemma_chunks_agree<
    P: Fn(u16) -> [u8; FULL_BYTES],
    T: Fn([u8; FULL_BYTES]) -> Result<S, String>,
    S,
>(
    proof_hash: P,
    to_scalar: T,
    object: Seq<u8>,
    base: int,
    sector: Seq<u8>,
    mode: ReadSectorRecordChunksMode,
    on_disk: Seq<Option<(u64, u64, bool)>>,
    reads: Seq<Result<Vec<u8>, std::io::Error>>,
    disk: Result<Vec<Option<S>>, ReadingError>,
    in_object: Seq<Option<(u64, u64, bool)>>,
    fetched: Seq<Part>,
    data_object: Seq<Option<(Vec<u8>, u64, bool)>>,
    bucket: Result<Vec<Option<S>>, ReadingError>,
)
    requires
        fixed_proofs(proof_hash),
        fixed_scalars(to_scalar),
        0 <= base,
        base + sector.len() <= object.len(),
        sector == object.subrange(base, base + sector.len()),
        shifted(on_disk, in_object, base),
        reads_bring(mode, on_disk, sector, reads),
        fetch::chunks_of_sector(proof_hash, to_scalar, mode, on_disk, reads, disk),
        ranges_brought(in_object, object, fetched),
        piece::chunks_fetched(in_object, fetched, data_object),
        match bucket {
            Ok(done) => chunks::all_done(proof_hash, to_scalar, data_object, done@),
            Err(error) => chunks::one_refused(proof_hash, to_scalar, data_object, error),
        },
    ensures
        match (disk, bucket) {
            (Ok(x), Ok(y)) => x@ == y@,
            (Err(_), Err(_)) => true,
            _ => false,
        },
{
    match disk {
        Ok(done) => {
            let data = choose|data: Seq<Option<(Vec<u8>, u64, bool)>>| #[trigger]
                fetch::chunks_read(mode, on_disk, reads, data) && data.len() == on_disk.len()
                    && chunks::all_done(proof_hash, to_scalar, data, done@);
            lemma_disk_and_object(
                object,
                base,
                sector,
                mode,
                on_disk,
                reads,
                data,
                in_object,
                fetched,
                data_object,
            );
            match bucket {
                Ok(other) => {
                    lemma_same_chunks(proof_hash, to_scalar, data, done@, data_object, other@);
                },
                Err(error) => {
                    lemma_done_is_not_refused(
                        proof_hash,
                        to_scalar,
                        data,
                        done@,
                        data_object,
                        error,
                    );
                },
            }
        },
        Err(error) => {
            assert(!fetch::read_refused(mode, on_disk, reads, error)) by {
                lemma_no_read_refused(mode, on_disk, sector, reads, error);
            }
            let data = choose|data: Seq<Option<(Vec<u8>, u64, bool)>>| #[trigger]
                fetch::chunks_read(mode, on_disk, reads, data) && data.len() == on_disk.len()
                    && chunks::one_refused(proof_hash, to_scalar, data, error);
            lemma_disk_and_object(
                object,
                base,
                sector,
                mode,
                on_disk,
                reads,
                data,
                in_object,
                fetched,
                data_object,
            );
            match bucket {
                Ok(other) => {
                    lemma_done_is_not_refused(
                        proof_hash,
                        to_scalar,
                        data_object,
                        other@,
                        data,
                        error,
                    );
                },
                Err(_) => {},
            }
        },
    }
}

proof fn lemma_no_read_refused(
    mode: ReadSectorRecordChunksMode,
    index: Seq<Option<(u64, u64, bool)>>,
    sector: Seq<u8>,
    reads: Seq<Result<Vec<u8>, std::io::Error>>,
    error: ReadingError,
)
    requires
        reads_bring(mode, index, sector, reads),
    ensures
        !fetch::read_refused(mode, index, reads, error),
{
    assert forall|n: int, io: std::io::Error| !#[trigger] fetch::first_failure(reads, n, io) by {
        if 0 <= n < reads.len() {
            assert(reads[n] is Ok);
        }
    }
}

} // verus!
