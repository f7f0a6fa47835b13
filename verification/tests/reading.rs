use std::io;

use sector_store::reading::chunks::{mask_chunk, read_sector_record_chunks_qiniu, to_chunk};
use sector_store::reading::error::ReadingError;
use sector_store::reading::fetch::{
    chunk_ranges, cut_chunks, deal_chunks, read_sector_record_chunks, sector_reads,
    ReadSectorRecordChunksMode,
};
use sector_store::reading::layout::{
    read_record_metadata_index, read_sector_record_chunks_index, SectorLayout, NUM_CHUNKS,
    NUM_S_BUCKETS, RECORD_METADATA_SIZE,
};
use sector_store::reading::metadata::{
    read_record_metadata, read_record_metadata_qiniu, RecordMetadata,
};
use sector_store::reading::piece::{
    check_piece, read_piece, read_piece_qiniu, ChunkReading, MetadataReading, Piece,
};
use sector_store::reading::recover::{
    accept_recovered, recover_extended_record_chunks, recover_source_record_chunks,
};
use sector_store::s3::parts::Part;

type Chunk = [u8; 32];

const LAYOUT: SectorLayout =
    SectorLayout { contents_map_size: 100, record_chunks_size: 320, sector_size: 1000 };

fn failure() -> io::Error {
    io::Error::new(io::ErrorKind::Other, "disk gone")
}

/// The hash of the proof for an s-bucket.
fn proof_hash(s_bucket: u16) -> Chunk {
    [(s_bucket % 200) as u8 + 1; 32]
}

/// A chunk whose last byte is 255 is no scalar.
fn to_scalar(chunk: Chunk) -> Result<Chunk, String> {
    if chunk[31] == 255 {
        Err("too large".to_string())
    } else {
        Ok(chunk)
    }
}

fn sector() -> Vec<u8> {
    (0..1000).map(|i| (i % 250) as u8).collect()
}

/// A few plotted chunks: s-buckets 1 (encoded), 3 and 4.
fn plotted() -> Vec<Option<(usize, bool)>> {
    vec![None, Some((0, true)), None, Some((1, false)), Some((0, false))]
}

fn offsets() -> Box<[u32; NUM_S_BUCKETS]> {
    let mut offsets: Box<[u32; NUM_S_BUCKETS]> =
        vec![0u32; NUM_S_BUCKETS].into_boxed_slice().try_into().unwrap();
    for (i, offset) in offsets.iter_mut().enumerate() {
        *offset = 2 * i as u32;
    }
    offsets
}

fn index(sector_offset: u64) -> Vec<Option<(u64, u64, bool)>> {
    read_sector_record_chunks_index(&plotted(), &offsets(), &LAYOUT, sector_offset)
}

fn chunk_at(bytes: &[u8], position: usize) -> Vec<u8> {
    bytes[position..position + 32].to_vec()
}

#[test]
fn the_index_gives_the_places_of_the_chunks() {
    assert_eq!(
        index(0),
        vec![
            None,
            Some((100 + 2 * 32, 2, true)),
            None,
            Some((100 + 7 * 32, 7, false)),
            Some((100 + 8 * 32, 8, false)),
        ]
    );
    let all = vec![Some((0, false)); NUM_S_BUCKETS + 3];
    let whole = read_sector_record_chunks_index(&all, &offsets(), &LAYOUT, 0);
    assert_eq!(whole.len(), NUM_S_BUCKETS);
    assert_eq!(whole[65535], Some((100 + 131070 * 32, 131070, false)));
}

#[test]
fn a_sector_in_an_object_is_shifted_as_a_whole() {
    for (here, there) in index(0).into_iter().zip(index(5000)) {
        assert_eq!(there, here.map(|(position, location, encoded)| (position + 5000, location, encoded)));
    }
}

#[test]
fn metadata_lie_behind_the_chunks() {
    assert_eq!(read_record_metadata_index(0, &LAYOUT), 420);
    assert_eq!(read_record_metadata_index(3, &LAYOUT), 420 + 3 * 128);
}

#[test]
fn masking_twice_gives_back_the_chunk() {
    let chunk = to_chunk(&chunk_at(&sector(), 7));
    let hash = proof_hash(9);
    let masked = mask_chunk(&chunk, &hash);
    assert_ne!(masked, chunk);
    assert_eq!(masked[0], 7 ^ 10);
    assert_eq!(mask_chunk(&masked, &hash), chunk);
}

#[test]
fn plotted_chunks_are_decoded() {
    let mut data = vec![None, Some((vec![5u8; 32], 10, true)), Some((vec![6u8; 32], 11, false))];
    let done = read_sector_record_chunks_qiniu(&proof_hash, &to_scalar, &data).unwrap();
    assert_eq!(done.len(), NUM_S_BUCKETS);
    assert_eq!(done[0], None);
    assert_eq!(done[1], Some([5 ^ 2; 32]));
    assert_eq!(done[2], Some([6; 32]));
    assert!(done[3..].iter().all(|chunk| chunk.is_none()));
    data.push(Some((vec![255; 32], 12, false)));
    match read_sector_record_chunks_qiniu(&proof_hash, &to_scalar, &data) {
        Err(ReadingError::InvalidChunk { s_bucket, encoded_chunk_used, chunk_location, error }) => {
            assert_eq!((s_bucket, encoded_chunk_used, chunk_location), (3, false, 12));
            assert_eq!(error, "too large");
        }
        _ => panic!("an invalid chunk was accepted"),
    }
}

#[test]
fn both_modes_read_the_same_chunks() {
    let sector = sector();
    let index = index(0);
    assert_eq!(
        sector_reads(ReadSectorRecordChunksMode::WholeSector, &index, &LAYOUT),
        vec![(0, 1000)]
    );
    let reads = sector_reads(ReadSectorRecordChunksMode::ConcurrentChunks, &index, &LAYOUT);
    assert_eq!(reads, vec![(164, 32), (324, 32), (356, 32)]);
    assert_eq!(chunk_ranges(&index), reads);
    let single: Vec<io::Result<Vec<u8>>> =
        reads.iter().map(|(position, _)| Ok(chunk_at(&sector, *position as usize))).collect();
    let from_chunks = read_sector_record_chunks(
        ReadSectorRecordChunksMode::ConcurrentChunks,
        &index,
        single,
        &proof_hash,
        &to_scalar,
    )
    .unwrap();
    let from_sector = read_sector_record_chunks(
        ReadSectorRecordChunksMode::WholeSector,
        &index,
        vec![Ok(sector.clone())],
        &proof_hash,
        &to_scalar,
    )
    .unwrap();
    assert!(from_chunks == from_sector);
    assert_eq!(from_sector[1], Some(mask_chunk(&to_chunk(&chunk_at(&sector, 164)), &[2; 32])));
    assert_eq!(from_sector[3], Some(to_chunk(&chunk_at(&sector, 324))));
    assert_eq!(from_sector[4], Some(to_chunk(&chunk_at(&sector, 356))));
    assert_eq!(from_sector[0], None);
    assert_eq!(cut_chunks(&index, &sector)[3], Some((chunk_at(&sector, 324), 7, false)));
}

#[test]
fn failed_reads_are_reported() {
    let index = index(0);
    let error = read_sector_record_chunks(
        ReadSectorRecordChunksMode::WholeSector,
        &index,
        vec![Err(failure())],
        &proof_hash,
        &to_scalar,
    )
    .unwrap_err();
    assert!(error.is_fatal());
    assert_eq!(error.message(), "Reading I/O error: disk gone");
    let error = read_sector_record_chunks(
        ReadSectorRecordChunksMode::ConcurrentChunks,
        &index,
        vec![Ok(vec![1; 32]), Err(failure()), Ok(vec![1; 32])],
        &proof_hash,
        &to_scalar,
    )
    .unwrap_err();
    assert!(!error.is_fatal());
    assert_eq!(error.message(), "Failed to read chunk at location 7: disk gone");
}

#[test]
fn buffers_are_dealt_out_in_turn() {
    let index = index(0);
    let data = deal_chunks(&index, vec![vec![1], vec![2], vec![3], vec![4]]);
    assert_eq!(
        data,
        vec![None, Some((vec![1], 2, true)), None, Some((vec![2], 7, false)), Some((vec![3], 8, false))]
    );
    let short = deal_chunks(&index, vec![vec![1]]);
    assert_eq!(short, vec![None, Some((vec![1], 2, true)), None, None, None]);
}

#[test]
fn recovered_records_have_their_size() {
    let chunks: Vec<Option<u8>> = vec![None; NUM_S_BUCKETS];
    let recover = |_: &Vec<Option<u8>>| -> Result<Vec<u8>, String> { Ok(vec![7; NUM_S_BUCKETS]) };
    let extended = recover_extended_record_chunks(&chunks, 3, &recover).unwrap();
    assert_eq!(extended.len(), NUM_S_BUCKETS);
    match recover_source_record_chunks(&chunks, 3, &recover) {
        Err(ReadingError::WrongRecordSizeAfterDecoding { expected, actual }) => {
            assert_eq!((expected, actual), (NUM_CHUNKS, NUM_S_BUCKETS));
        }
        _ => panic!("a record of the wrong size was accepted"),
    }
    let fail = |_: &Vec<Option<u8>>| -> Result<Vec<u8>, String> { Err("too few".to_string()) };
    let error = recover_source_record_chunks(&chunks, 3, &fail).unwrap_err();
    assert_eq!(error.message(), "Failed to erasure-decode record at offset 3: too few");
    assert_eq!(accept_recovered(Ok(vec![1u8, 2]), 0, 2).unwrap(), vec![1, 2]);
}

#[test]
fn metadata_are_decoded() {
    let bytes: Vec<u8> = (0..130).collect();
    let metadata = read_record_metadata_qiniu(&bytes).unwrap();
    assert_eq!(metadata.commitment.to_vec(), bytes[..48].to_vec());
    assert_eq!(metadata.witness.to_vec(), bytes[48..96].to_vec());
    assert_eq!(metadata.piece_checksum.to_vec(), bytes[96..128].to_vec());
    assert_eq!(read_record_metadata(Ok(bytes)).unwrap(), metadata);
    assert!(matches!(read_record_metadata(Err(failure())), Err(ReadingError::Io(_))));
}

#[test]
fn the_errors_have_their_texts() {
    let invalid = ReadingError::InvalidChunk {
        s_bucket: 9,
        encoded_chunk_used: true,
        chunk_location: 4,
        error: "e".to_string(),
    };
    assert_eq!(
        invalid.message(),
        "Invalid chunk at location 4 s-bucket 9 encoded true, possible disk corruption: e"
    );
    assert_eq!(
        ReadingError::WrongRecordSizeAfterDecoding { expected: 5, actual: 4 }.message(),
        "Wrong record size after decoding: expected 5, actual 4"
    );
    assert_eq!(
        ReadingError::FailedToDecodeSectorContentsMap("m".to_string()).message(),
        "Failed to decode sector contents map: m"
    );
    assert_eq!(ReadingError::ChecksumMismatch.message(), "Checksum mismatch");
    assert!(ReadingError::from(failure()).is_fatal());
    assert!(!invalid.is_fatal());
    assert!(!ReadingError::ChecksumMismatch.is_fatal());
}

/// A checksum that depends on every byte and its place.
fn checksum(bytes: &Vec<u8>) -> [u8; 32] {
    let mut sum = [0u8; 32];
    for (i, byte) in bytes.iter().enumerate() {
        sum[i % 32] = sum[i % 32].wrapping_mul(31).wrapping_add(*byte);
    }
    sum
}

#[test]
fn a_piece_is_given_out_with_the_right_checksum_only() {
    let piece = || Piece { record: vec![[1; 32], [2; 32]], commitment: [3; 48], witness: [4; 48] };
    let bytes = piece().to_bytes();
    assert_eq!(bytes.len(), 2 * 32 + 2 * 48);
    assert_eq!((bytes[31], bytes[32], bytes[64], bytes[111], bytes[112]), (1, 2, 3, 3, 4));
    assert_eq!(check_piece(piece(), &[9; 32], &[9; 32]).unwrap(), piece());
    assert!(matches!(
        check_piece(piece(), &[9; 32], &[8; 32]),
        Err(ReadingError::ChecksumMismatch)
    ));
}

/// Takes a reading from the decoded chunks to the piece.
fn finish(chunks: ChunkReading, done: &Vec<Option<Chunk>>, position: u64) -> Result<Piece, ReadingError> {
    let recover_source = |done: &Vec<Option<Chunk>>| -> Result<Vec<Chunk>, String> {
        let mut record: Vec<Chunk> = done.iter().flatten().cloned().collect();
        record.resize(NUM_CHUNKS, [0; 32]);
        Ok(record)
    };
    let to_bytes = |scalar: &Chunk| -> Chunk { *scalar };
    let reading: MetadataReading = chunks.recover_record(done, &recover_source, &to_bytes)?;
    assert_eq!(reading.metadata_range(), (position, RECORD_METADATA_SIZE as u64));
    let piece = Piece { record: reading.record.clone(), commitment: [8; 48], witness: [9; 48] };
    let metadata = RecordMetadata {
        commitment: [8; 48],
        witness: [9; 48],
        piece_checksum: checksum(&piece.to_bytes()),
    };
    let given = reading.finish(&metadata, &checksum)?;
    assert_eq!(given, piece);
    Ok(given)
}

#[test]
fn a_piece_reads_the_same_from_disk_and_from_an_object() {
    let sector = sector();
    let mut object = vec![77u8; 5000];
    object.extend_from_slice(&sector);

    let start = read_piece(2, LAYOUT);
    assert_eq!(start.contents_map_range(), (0, 100));
    let chunks = start.contents_map_decoded(Ok(plotted()), &offsets()).unwrap();
    let done = read_sector_record_chunks(
        ReadSectorRecordChunksMode::WholeSector,
        &chunks.index,
        vec![Ok(sector.clone())],
        &proof_hash,
        &to_scalar,
    )
    .unwrap();
    let from_disk = finish(chunks, &done, 420 + 2 * 128).unwrap();

    let start = read_piece_qiniu(2, LAYOUT, 5000);
    assert_eq!(start.contents_map_range(), (5000, 100));
    let chunks = start.contents_map_decoded(Ok(plotted()), &offsets()).unwrap();
    let fetched: Vec<Vec<Part>> = chunks
        .batches()
        .iter()
        .map(|ranges| {
            ranges
                .iter()
                .map(|(offset, _)| Part { offset: *offset, data: chunk_at(&object, *offset as usize) })
                .collect()
        })
        .collect();
    let done = chunks.decode_fetched(fetched, &proof_hash, &to_scalar).unwrap();
    let from_object = finish(chunks, &done, 5000 + 420 + 2 * 128).unwrap();
    assert_eq!(from_disk, from_object);
}

#[test]
fn a_contents_map_that_cannot_be_decoded_is_reported() {
    let res = read_piece(2, LAYOUT).contents_map_decoded(Err("short".to_string()), &offsets());
    assert_eq!(
        res.err().unwrap().message(),
        "Failed to decode sector contents map: short"
    );
}

#[test]
fn chunks_are_asked_for_in_batches() {
    let plotted = vec![Some((0, false)); 1100];
    let chunks = read_piece_qiniu(0, LAYOUT, 50).contents_map_decoded(Ok(plotted), &offsets()).unwrap();
    let batches = chunks.batches();
    assert_eq!(batches.iter().map(|b| b.len()).collect::<Vec<usize>>(), vec![512, 512, 76]);
    assert_eq!(batches.concat(), chunk_ranges(&chunks.index));
    assert_eq!(batches[1][0], (50 + 100 + 1024 * 32, 32));
    let none = read_piece(0, LAYOUT).contents_map_decoded(Ok(vec![None; 4]), &offsets()).unwrap();
    assert!(none.batches().is_empty());
}

#[test]
fn an_invalid_fetched_chunk_is_reported() {
    let chunks = read_piece_qiniu(0, LAYOUT, 0).contents_map_decoded(Ok(plotted()), &offsets()).unwrap();
    let fetched = vec![
        vec![Part { offset: 0, data: vec![1; 32] }],
        vec![Part { offset: 0, data: vec![255; 32] }, Part { offset: 0, data: vec![1; 32] }],
    ];
    match chunks.decode_fetched(fetched, &proof_hash, &to_scalar) {
        Err(ReadingError::InvalidChunk { s_bucket, chunk_location, .. }) => {
            assert_eq!((s_bucket, chunk_location), (3, 7));
        }
        _ => panic!("an invalid chunk was accepted"),
    }
}

#[test]
fn a_record_that_cannot_be_recovered_is_reported() {
    let chunks = read_piece(6, LAYOUT).contents_map_decoded(Ok(plotted()), &offsets()).unwrap();
    let done: Vec<Option<Chunk>> = vec![None; NUM_S_BUCKETS];
    let fail = |_: &Vec<Option<Chunk>>| -> Result<Vec<Chunk>, String> { Err("few".to_string()) };
    let to_bytes = |scalar: &Chunk| -> Chunk { *scalar };
    let error = chunks.recover_record(&done, &fail, &to_bytes).err().unwrap();
    assert_eq!(error.message(), "Failed to erasure-decode record at offset 6: few");
}

#[test]
fn a_damaged_piece_is_refused() {
    let reading = MetadataReading {
        reading: read_piece(0, LAYOUT),
        record: vec![[1; 32]; NUM_CHUNKS],
    };
    let metadata =
        RecordMetadata { commitment: [8; 48], witness: [9; 48], piece_checksum: [0xee; 32] };
    assert!(matches!(reading.finish(&metadata, &checksum), Err(ReadingError::ChecksumMismatch)));
}
