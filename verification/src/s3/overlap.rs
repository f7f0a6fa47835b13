//! Look-up of the runs of bytes that lie over a position.
use vstd::prelude::*;

verus! {

/// Intervals `(start, stop, tag)`, `stop` not included, by position.
#[verifier::external_body]
pub struct Overlaps {
    lapper: rust_lapper::Lapper<u64, usize>,
}

/// The intervals that an `Overlaps` holds, in the order in which it hands them out.
pub uninterp spec fn intervals(overlaps: Overlaps) -> Seq<(u64, u64, usize)>;

/// The order of intervals: by start, then by stop.
pub open spec fn interval_le(a: (u64, u64, usize), b: (u64, u64, usize)) -> bool {
    a.0 < b.0 || (a.0 == b.0 && a.1 <= b.1)
}

/// The interval has a position in common with the positions from `start` to before `stop`.
pub open spec fn overlaps_with(iv: (u64, u64, usize), start: u64, stop: u64) -> bool {
    iv.0 < stop && iv.1 > start
}

/// `rust_lapper::Lapper::new`: keeps exactly the given intervals, sorted by start and then by
/// stop. The sort is stable: where the tags come in rising order, intervals with the same start
/// and stop keep their tags in rising order.
#[verifier::external_body]
pub(crate) fn new_overlaps(v: Vec<(u64, u64, usize)>) -> (r: Overlaps)
    ensures
        intervals(r).to_multiset() == v@.to_multiset(),
        forall|i: int, j: int|
            0 <= i < j < intervals(r).len() ==> interval_le(
                #[trigger] intervals(r)[i],
                #[trigger] intervals(r)[j],
            ),
        (forall|i: int, j: int| 0 <= i < j < v@.len() ==> (#[trigger] v@[i]).2 < (#[trigger] v@[j]).2)
            ==> (forall|i: int, j: int|
            0 <= i < j < intervals(r).len() && (#[trigger] intervals(r)[i]).0 == (
            #[trigger] intervals(r)[j]).0 && intervals(r)[i].1 == intervals(r)[j].1
                ==> intervals(r)[i].2 < intervals(r)[j].2),
{
    let intervals = v.into_iter().map(
        |iv| rust_lapper::Interval { start: iv.0, stop: iv.1, val: iv.2 },
    );
    Overlaps { lapper: rust_lapper::Lapper::new(intervals.collect()) }
}

/// `rust_lapper::Lapper::find`: all the intervals that overlap the positions from `start` to
/// before `stop`, in the order in which they are kept.
#[verifier::external_body]
pub(crate) fn find_overlaps(overlaps: &Overlaps, start: u64, stop: u64) -> (r: Vec<
    (u64, u64, usize),
>)
    ensures
        r@ == intervals(*overlaps).filter(
            |iv: (u64, u64, usize)| overlaps_with(iv, start, stop),
        ),
{
    overlaps.lapper.find(start, stop).map(|iv| (iv.start, iv.stop, iv.val)).collect()
}

} // verus!
