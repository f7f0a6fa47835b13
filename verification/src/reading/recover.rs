//! Recovering a record from those of its chunks that were plotted.
use vstd::prelude::*;

use crate::reading::error::ReadingError;
use crate::reading::layout::{NUM_CHUNKS, NUM_S_BUCKETS};

verus! {

/// `res` is what a recovery that ended in `recovered` comes to, where `expected` chunks are due.
pub open spec fn accepted<S>(
    recovered: Result<Vec<S>, String>,
    piece_offset: u16,
    expected: usize,
    res: Result<Vec<S>, ReadingError>,
) -> bool {
    match recovered {
        Err(error) => res == Err::<Vec<S>, ReadingError>(
            ReadingError::FailedToErasureDecodeRecord { piece_offset, error },
        ),
        Ok(chunks) => if chunks.len() == expected {
            res == Ok::<Vec<S>, ReadingError>(chunks)
        } else {
            res == Err::<Vec<S>, ReadingError>(
                ReadingError::WrongRecordSizeAfterDecoding { expected, actual: chunks.len() },
            )
        },
    }
}

/// Accepts the outcome of a recovery if it is as many chunks as are due.
pub fn accept_recovered<S>(
    recovered: Result<Vec<S>, String>,
    piece_offset: u16,
    expected: usize,
) -> (res: Result<Vec<S>, ReadingError>)
    ensures
        accepted(recovered, piece_offset, expected, res),
{
    match recovered {
        Err(error) => Err(ReadingError::FailedToErasureDecodeRecord { piece_offset, error }),
        Ok(chunks) => {
            if chunks.len() != expected {
                return Err(
                    ReadingError::WrongRecordSizeAfterDecoding { expected, actual: chunks.len() },
                );
            }
            Ok(chunks)
        },
    }
}

/// `res` is what the recovery of the extended record from `chunks` comes to.
pub open spec fn extended_recovered<S, E: Fn(&Vec<Option<S>>) -> Result<Vec<S>, String>>(
    recover: E,
    chunks: &Vec<Option<S>>,
    piece_offset: u16,
    res: Result<Vec<S>, ReadingError>,
) -> bool {
    exists|recovered: Result<Vec<S>, String>| #[trigger]
        call_ensures(recover, (chunks,), recovered) && accepted(
            recovered,
            piece_offset,
            NUM_S_BUCKETS,
            res,
        )
}

/// Given sector record chunks recover extended record chunks (both source and parity).
pub fn recover_extended_record_chunks<S, E: Fn(&Vec<Option<S>>) -> Result<Vec<S>, String>>(
    sector_record_chunks: &Vec<Option<S>>,
    piece_offset: u16,
    recover: &E,
) -> (res: Result<Vec<S>, ReadingError>)
    requires
        sector_record_chunks.len() == NUM_S_BUCKETS,
        call_requires(*recover, (sector_record_chunks,)),
    ensures
        exists|recovered: Result<Vec<S>, String>| #[trigger]
            call_ensures(*recover, (sector_record_chunks,), recovered) && accepted(
                recovered,
                piece_offset,
                NUM_S_BUCKETS,
                res,
            ),
        extended_recovered(*recover, sector_record_chunks, piece_offset, res),
{
    let recovered: Result<Vec<S>, String> = recover(sector_record_chunks);
    accept_recovered(recovered, piece_offset, NUM_S_BUCKETS)
}

/// Given sector record chunks recover source record chunks.
pub fn recover_source_record_chunks<S, E: Fn(&Vec<Option<S>>) -> Result<Vec<S>, String>>(
    sector_record_chunks: &Vec<Option<S>>,
    piece_offset: u16,
    recover_source: &E,
) -> (res: Result<Vec<S>, ReadingError>)
    requires
        sector_record_chunks.len() == NUM_S_BUCKETS,
        call_requires(*recover_source, (sector_record_chunks,)),
    ensures
        exists|recovered: Result<Vec<S>, String>| #[trigger]
            call_ensures(*recover_source, (sector_record_chunks,), recovered) && accepted(
                recovered,
                piece_offset,
                NUM_CHUNKS,
                res,
            ),
{
    let recovered: Result<Vec<S>, String> = recover_source(sector_record_chunks);
    accept_recovered(recovered, piece_offset, NUM_CHUNKS)
}

/// What was recovered is kept as it is if it is as many chunks as are due; if not, the error tells how
/// many are due and how many there are. The reason of a failed recovery is kept, with the piece.
pub proof fn law_recovery_is_kept_or_refused<S>(
    recovered: Result<Vec<S>, String>,
    piece_offset: u16,
    expected: usize,
    res: Result<Vec<S>, ReadingError>,
)
    requires
        accepted(recovered, piece_offset, expected, res),
    ensures
        res is Ok <==> recovered is Ok && recovered->Ok_0.len() == expected,
        res matches Ok(chunks) ==> recovered == Ok::<Vec<S>, String>(chunks),
        recovered matches Ok(chunks) ==> chunks.len() != expected ==> res->Err_0 == (
        ReadingError::WrongRecordSizeAfterDecoding { expected, actual: chunks.len() }),
        recovered matches Err(reason) ==> res->Err_0 == (
        ReadingError::FailedToErasureDecodeRecord { piece_offset, error: reason }),
{
}

/// The extended record is all 65536 chunks that were recovered, in their order, and nothing less.
pub proof fn law_extended_record_is_whole<S, E: Fn(&Vec<Option<S>>) -> Result<Vec<S>, String>>(
    recover: E,
    chunks: &Vec<Option<S>>,
    piece_offset: u16,
    extended: Seq<S>,
    res: Result<Vec<S>, ReadingError>,
)
    requires
        extended_recovered(recover, chunks, piece_offset, res),
        forall|recovered: Result<Vec<S>, String>| #[trigger]
            call_ensures(recover, (chunks,), recovered) ==> recovered is Ok && recovered->Ok_0@
                == extended,
    ensures
        res is Ok <==> extended.len() == 65536,
        res matches Ok(kept) ==> kept@ == extended,
        res matches Err(error) ==> error matches ReadingError::WrongRecordSizeAfterDecoding {
            expected,
            actual,
        } && expected == 65536 && actual == extended.len(),
{
}

} // verus!
