//! Where things are in a sector.
use vstd::prelude::*;

verus! {

/// The number of s-buckets of a record: one chunk of the extended record for each.
pub const NUM_S_BUCKETS: usize = 65536;

/// The number of chunks of a record.
pub const NUM_CHUNKS: usize = 32768;

/// The size of a chunk.
pub const FULL_BYTES: usize = 32;

/// The size of a record commitment, and of a record witness.
pub const COMMITMENT_SIZE: usize = 48;

/// The size of a checksum.
pub const CHECKSUM_SIZE: usize = 32;

/// The size of the metadata of a record: commitment, witness and checksum of the piece.
pub const RECORD_METADATA_SIZE: usize = 128;

/// The sizes of the regions of a sector, which depend on the number of its pieces.
#[derive(Debug, Clone, Copy, PartialEq, Eq)]
pub struct SectorLayout {
    /// The encoded size of the sector contents map.
    pub contents_map_size: u64,
    /// The size of all the record chunks.
    pub record_chunks_size: u64,
    /// The size of the whole sector.
    pub sector_size: u64,
}

/// The location of a chunk, in chunks from the first chunk of the sector.
pub open spec fn chunk_location(chunk_offset: usize, s_bucket_offset: u32) -> int {
    chunk_offset + s_bucket_offset
}

/// The position of the chunk at `location`, in a sector that starts at `sector_offset`.
pub open spec fn chunk_position(layout: SectorLayout, location: int, sector_offset: u64) -> int {
    layout.contents_map_size + location * FULL_BYTES + sector_offset
}

/// The number of s-buckets for which both the chunks to plot and the offsets say something.
pub open spec fn index_len(plotted: Seq<Option<(usize, bool)>>) -> nat {
    if plotted.len() < NUM_S_BUCKETS {
        plotted.len()
    } else {
        NUM_S_BUCKETS as nat
    }
}

/// Where the chunk of an s-bucket is, `(position, location, encoded)`, if it was plotted.
pub open spec fn index_entry(
    plotted: Option<(usize, bool)>,
    s_bucket_offset: u32,
    layout: SectorLayout,
    sector_offset: u64,
) -> Option<(u64, u64, bool)> {
    match plotted {
        Some((chunk_offset, encoded)) => {
            let location = chunk_location(chunk_offset, s_bucket_offset);
            Some((chunk_position(layout, location, sector_offset) as u64, location as u64, encoded))
        },
        None => None,
    }
}

/// No position is beyond 64 bits.
pub open spec fn index_fits(
    plotted: Seq<Option<(usize, bool)>>,
    s_bucket_offsets: Seq<u32>,
    layout: SectorLayout,
    sector_offset: u64,
) -> bool {
    forall|i: int|
        0 <= i < index_len(plotted) && (#[trigger] plotted[i]) is Some ==> chunk_position(
            layout,
            chunk_location((plotted[i]->0).0, s_bucket_offsets[i]),
            sector_offset,
        ) <= u64::MAX
}

/// Where the chunks of a record are: for every s-bucket `(position, location, encoded)` if its
/// chunk was plotted. `plotted` says which chunks were, as `(offset in the s-bucket, encoded)`.
pub fn read_sector_record_chunks_index(
    plotted: &[Option<(usize, bool)>],
    s_bucket_offsets: &[u32; NUM_S_BUCKETS],
    layout: &SectorLayout,
    sector_offset: u64,
) -> (index: Vec<Option<(u64, u64, bool)>>)
    requires
        index_fits(plotted@, s_bucket_offsets@, *layout, sector_offset),
    ensures
        index.len() == index_len(plotted@),
        forall|i: int|
            0 <= i < index.len() ==> #[trigger] index[i] == index_entry(
                plotted[i],
                s_bucket_offsets[i],
                *layout,
                sector_offset,
            ),
        index.len() <= plotted.len() && index.len() <= NUM_S_BUCKETS,
        index.len() == plotted.len() || index.len() == NUM_S_BUCKETS,
        forall|i: int|
            0 <= i < index.len() ==> match ((#[trigger] index[i]), plotted[i]) {
                (Some((position, location, encoded)), Some((chunk_offset, is_encoded))) => {
                    &&& location == s_bucket_offsets[i] + chunk_offset
                    &&& position == sector_offset + layout.contents_map_size + 32 * location
                    &&& encoded == is_encoded
                },
                (None, None) => true,
                _ => false,
            },
{
    let mut index: Vec<Option<(u64, u64, bool)>> = Vec::new();
    let mut i: usize = 0;
    while i < plotted.len() && i < NUM_S_BUCKETS
        invariant
            index_fits(plotted@, s_bucket_offsets@, *layout, sector_offset),
            0 <= i <= index_len(plotted@),
            index.len() == i,
            forall|k: int|
                0 <= k < i ==> #[trigger] index[k] == index_entry(
                    plotted[k],
                    s_bucket_offsets[k],
                    *layout,
                    sector_offset,
                ),
        decreases plotted.len() - i,
    {
        match plotted[i] {
            Some((chunk_offset, encoded)) => {
                proof {
                    assert(plotted@[i as int] is Some);
                }
                let location: u64 = chunk_offset as u64 + s_bucket_offsets[i] as u64;
                let position: u64 = layout.contents_map_size + location * FULL_BYTES as u64;
                index.push(Some((position + sector_offset, location, encoded)));
            },
            None => {
                index.push(None);
            },
        }
        i += 1;
    }
    index
}

/// The position of the metadata of a record in its sector.
pub open spec fn metadata_position(piece_offset: u16, layout: SectorLayout) -> int {
    layout.contents_map_size + layout.record_chunks_size + RECORD_METADATA_SIZE * piece_offset
}

/// The position of the metadata of a record in its sector.
pub fn read_record_metadata_index(piece_offset: u16, layout: &SectorLayout) -> (r: u64)
    requires
        metadata_position(piece_offset, *layout) <= u64::MAX,
    ensures
        r == metadata_position(piece_offset, *layout),
{
    let start: u64 = layout.contents_map_size + layout.record_chunks_size;
    start + RECORD_METADATA_SIZE as u64 * piece_offset as u64
}

/// A sector that starts at `sector_offset` has all its chunks that much further on.
pub proof fn law_index_shifts(
    plotted: Option<(usize, bool)>,
    s_bucket_offset: u32,
    layout: SectorLayout,
    sector_offset: u64,
)
    requires
        plotted is Some ==> chunk_position(
            layout,
            chunk_location((plotted->0).0, s_bucket_offset),
            sector_offset,
        ) <= u64::MAX,
    ensures
        match (
            index_entry(plotted, s_bucket_offset, layout, 0),
            index_entry(plotted, s_bucket_offset, layout, sector_offset),
        ) {
            (Some((here, here_location, here_encoded)), Some((there, location, encoded))) => {
                there == here + sector_offset && location == here_location && encoded
                    == here_encoded
            },
            (None, None) => true,
            _ => false,
        },
{
}

/// The chunks of a sector lie one behind the other, right behind the contents map: the one at
/// `chunk_offset` of an s-bucket is as many chunks behind the first one as there are chunks in the
/// s-buckets before and in front of it in its own.
pub proof fn law_chunks_are_counted(
    chunk_offset: usize,
    encoded: bool,
    s_bucket_offset: u32,
    layout: SectorLayout,
    sector_offset: u64,
)
    requires
        sector_offset + layout.contents_map_size + 32 * (s_bucket_offset + chunk_offset)
            <= u64::MAX,
    ensures
        index_entry(Some((chunk_offset, encoded)), s_bucket_offset, layout, sector_offset) matches Some(
            (position, location, is_encoded),
        ) && {
            &&& location == s_bucket_offset + chunk_offset
            &&& position == sector_offset + layout.contents_map_size + 32 * location
            &&& is_encoded == encoded
        },
        index_entry(None, s_bucket_offset, layout, sector_offset) is None,
{
}

/// The next offset in an s-bucket is the next chunk: one location and 32 bytes further on, and so
/// is the same offset in an s-bucket that starts one chunk later.
pub proof fn law_next_chunk_follows(
    chunk_offset: usize,
    encoded: bool,
    s_bucket_offset: u32,
    layout: SectorLayout,
    sector_offset: u64,
)
    requires
        chunk_offset < usize::MAX,
        s_bucket_offset < u32::MAX,
        sector_offset + layout.contents_map_size + 32 * (s_bucket_offset + chunk_offset + 1)
            <= u64::MAX,
    ensures
        ({
            let here = index_entry(
                Some((chunk_offset, encoded)),
                s_bucket_offset,
                layout,
                sector_offset,
            )->0;
            let next = index_entry(
                Some(((chunk_offset + 1) as usize, encoded)),
                s_bucket_offset,
                layout,
                sector_offset,
            )->0;
            let later = index_entry(
                Some((chunk_offset, encoded)),
                (s_bucket_offset + 1) as u32,
                layout,
                sector_offset,
            )->0;
            &&& next.1 == here.1 + 1
            &&& next.0 == here.0 + 32
            &&& later.1 == here.1 + 1
            &&& later.0 == here.0 + 32
        }),
{
    law_chunks_are_counted(chunk_offset, encoded, s_bucket_offset, layout, sector_offset);
    law_chunks_are_counted(
        (chunk_offset + 1) as usize,
        encoded,
        s_bucket_offset,
        layout,
        sector_offset,
    );
    law_chunks_are_counted(
        chunk_offset,
        encoded,
        (s_bucket_offset + 1) as u32,
        layout,
        sector_offset,
    );
}

/// No two chunks of a sector share a byte: not two offsets of one s-bucket, and not chunks of two
/// s-buckets where the first has no more than `chunks` chunks and the second starts behind them.
pub proof fn law_chunks_lie_apart(
    first: (usize, bool),
    first_s_bucket_offset: u32,
    chunks: nat,
    second: (usize, bool),
    second_s_bucket_offset: u32,
    layout: SectorLayout,
    sector_offset: u64,
)
    requires
        first_s_bucket_offset == second_s_bucket_offset && first.0 < second.0 || first.0 < chunks
            && first_s_bucket_offset + chunks <= second_s_bucket_offset,
        sector_offset + layout.contents_map_size + 32 * (second_s_bucket_offset + second.0)
            <= u64::MAX,
    ensures
        ({
            let a = index_entry(Some(first), first_s_bucket_offset, layout, sector_offset)->0;
            let b = index_entry(Some(second), second_s_bucket_offset, layout, sector_offset)->0;
            &&& a.1 < b.1
            &&& a.0 + 32 <= b.0
            &&& b.0 - a.0 == 32 * (b.1 - a.1)
        }),
{
    law_chunks_are_counted(first.0, first.1, first_s_bucket_offset, layout, sector_offset);
    law_chunks_are_counted(second.0, second.1, second_s_bucket_offset, layout, sector_offset);
}

/// The metadata of the records lies right behind the chunks, 128 bytes for each record in turn.
pub proof fn law_metadata_follows_chunks(piece_offset: u16, layout: SectorLayout)
    ensures
        metadata_position(0, layout) == layout.contents_map_size + layout.record_chunks_size,
        piece_offset < u16::MAX ==> metadata_position((piece_offset + 1) as u16, layout)
            == metadata_position(piece_offset, layout) + 128,
        metadata_position(piece_offset, layout) == metadata_position(0, layout) + 128
            * piece_offset,
{
}

} // verus!
