//! The metadata of a record.
use vstd::prelude::*;

use crate::reading::error::ReadingError;
use crate::reading::layout::{CHECKSUM_SIZE, COMMITMENT_SIZE, RECORD_METADATA_SIZE};

verus! {

/// `parity_scale_codec::Decode::decode` on a commitment, a witness and a checksum: takes 48, 48
/// and 32 bytes off the front of the input as they are, and fails on a shorter input.
#[verifier::external_body]
fn decode_fields(bytes: &Vec<u8>) -> (r: Option<([u8; 48], [u8; 48], [u8; 32])>)
    ensures
        match r {
            Some((commitment, witness, piece_checksum)) => {
                &&& bytes@.len() >= 128
                &&& commitment@ == bytes@.subrange(0, 48)
                &&& witness@ == bytes@.subrange(48, 96)
                &&& piece_checksum@ == bytes@.subrange(96, 128)
            },
            None => bytes@.len() < 128,
        },
{
    parity_scale_codec::Decode::decode(&mut bytes.as_slice()).ok()
}

/// The metadata of a record.
#[derive(Debug, Clone, Copy, PartialEq, Eq)]
pub struct RecordMetadata {
    pub commitment: [u8; COMMITMENT_SIZE],
    pub witness: [u8; COMMITMENT_SIZE],
    /// The checksum of the piece that the record is a part of.
    pub piece_checksum: [u8; CHECKSUM_SIZE],
}

impl RecordMetadata {
    /// The encoded form: commitment, witness and checksum, one behind the other.
    pub open spec fn encoded(self) -> Seq<u8> {
        self.commitment@ + self.witness@ + self.piece_checksum@
    }
}

/// Decodes the metadata of a record.
pub fn read_record_metadata_qiniu(record_metadata_bytes: &Vec<u8>) -> (res: Result<
    RecordMetadata,
    ReadingError,
>)
    requires
        record_metadata_bytes.len() >= RECORD_METADATA_SIZE,
    ensures
        res matches Ok(metadata) && metadata.encoded() == record_metadata_bytes@.take(
            RECORD_METADATA_SIZE as int,
        ),
        res matches Ok(metadata) && {
            &&& metadata.commitment@ == record_metadata_bytes@.subrange(0, 48)
            &&& metadata.witness@ == record_metadata_bytes@.subrange(48, 96)
            &&& metadata.piece_checksum@ == record_metadata_bytes@.subrange(96, 128)
        },
{
    let (commitment, witness, piece_checksum) = decode_fields(record_metadata_bytes).unwrap();
    let metadata = RecordMetadata { commitment, witness, piece_checksum };
    proof {
        assert(metadata.encoded() =~= record_metadata_bytes@.take(RECORD_METADATA_SIZE as int));
    }
    Ok(metadata)
}

/// Decodes the metadata of a record that was read at its position.
pub fn read_record_metadata(read: Result<Vec<u8>, std::io::Error>) -> (res: Result<
    RecordMetadata,
    ReadingError,
>)
    requires
        read matches Ok(bytes) ==> bytes.len() >= RECORD_METADATA_SIZE,
    ensures
        match read {
            Ok(bytes) => res matches Ok(metadata) && metadata.encoded() == bytes@.take(
                RECORD_METADATA_SIZE as int,
            ),
            Err(error) => res == Err::<RecordMetadata, ReadingError>(ReadingError::Io(error)),
        },
{
    match read {
        Ok(bytes) => read_record_metadata_qiniu(&bytes),
        Err(error) => Err(ReadingError::Io(error)),
    }
}

/// Different metadata have different encoded forms.
pub proof fn law_metadata_encoding_injective(a: RecordMetadata, b: RecordMetadata)
    requires
        a.encoded() == b.encoded(),
    ensures
        a.commitment@ == b.commitment@,
        a.witness@ == b.witness@,
        a.piece_checksum@ == b.piece_checksum@,
{
    let s = a.encoded();
    assert(a.commitment@ =~= s.subrange(0, 48));
    assert(b.commitment@ =~= b.encoded().subrange(0, 48));
    assert(a.witness@ =~= s.subrange(48, 96));
    assert(b.witness@ =~= b.encoded().subrange(48, 96));
    assert(a.piece_checksum@ =~= s.subrange(96, 128));
    assert(b.piece_checksum@ =~= b.encoded().subrange(96, 128));
}

/// The fields of the metadata are the first 48, the next 48 and the last 32 bytes of its encoded
/// form.
pub proof fn law_metadata_fields(metadata: RecordMetadata, bytes: Seq<u8>)
    requires
        bytes.len() >= 128,
        metadata.encoded() == bytes.take(128),
    ensures
        metadata.commitment@ == bytes.subrange(0, 48),
        metadata.witness@ == bytes.subrange(48, 96),
        metadata.piece_checksum@ == bytes.subrange(96, 128),
{
    let s = metadata.encoded();
    assert(metadata.commitment@ =~= s.subrange(0, 48));
    assert(metadata.witness@ =~= s.subrange(48, 96));
    assert(metadata.piece_checksum@ =~= s.subrange(96, 128));
    assert(bytes.subrange(0, 48) =~= s.subrange(0, 48));
    assert(bytes.subrange(48, 96) =~= s.subrange(48, 96));
    assert(bytes.subrange(96, 128) =~= s.subrange(96, 128));
}

} // verus!
