//! Reading a snapshot: the records are handed to a visitor one by one until
//! the visitor says stop.

use crate::record::AllocationRecord;
use vstd::prelude::*;

verus! {

/// The visitor may be called on `rec`.
pub open spec fn accepts<const STACK_SIZE: usize, F: FnMut(usize, usize, &[usize]) -> bool>(
    visitor: F,
    rec: AllocationRecord<STACK_SIZE>,
) -> bool {
    forall|frames: &[usize]|
        frames@ == rec.frames_spec() ==> call_requires(visitor, (rec.address, rec.size, frames))
}

/// The visitor was called on `rec` and answered `go`.
pub open spec fn answered<const STACK_SIZE: usize, F: FnMut(usize, usize, &[usize]) -> bool>(
    visitor: F,
    rec: AllocationRecord<STACK_SIZE>,
    go: bool,
) -> bool {
    exists|frames: &[usize]|
        frames@ == rec.frames_spec() && call_ensures(
            visitor,
            (rec.address, rec.size, frames),
            go,
        )
}

/// A reading of `records` that made `visited` calls: the visitor was called
/// on the first `visited` records in order, answered `true` to every call but
/// the last, and answered `false` to the last unless the records ran out.
pub open spec fn stops_at<const STACK_SIZE: usize, F: FnMut(usize, usize, &[usize]) -> bool>(
    visitor: F,
    records: Seq<AllocationRecord<STACK_SIZE>>,
    visited: int,
) -> bool {
    &&& 0 <= visited <= records.len()
    &&& forall|k: int| 0 <= k < visited - 1 ==> answered(visitor, #[trigger] records[k], true)
    &&& visited > 0 ==> {
        ||| answered(visitor, records[visited - 1], false)
        ||| visited == records.len() && answered(visitor, records[visited - 1], true)
    }
    &&& visited == 0 ==> records.len() == 0
}

/// Hands the records to the visitor in order, each as address, size and
/// frames, and stops at once when the visitor answers `false`. Gives the
/// number of calls made.
pub fn visit<const STACK_SIZE: usize, F: FnMut(usize, usize, &[usize]) -> bool>(
    records: &Vec<AllocationRecord<STACK_SIZE>>,
    visitor: F,
) -> (visited: usize)
    requires
        forall|k: int| 0 <= k < records@.len() ==> accepts(visitor, #[trigger] records@[k]),
    ensures
        stops_at(visitor, records@, visited as int),
{
    broadcast use vstd::function::group_function_axioms;

    let mut call = visitor;
    let mut i: usize = 0;
    while i < records.len()
        invariant
            call == visitor,
            i <= records@.len(),
            forall|k: int| 0 <= k < records@.len() ==> accepts(visitor, #[trigger] records@[k]),
            forall|k: int| 0 <= k < i ==> answered(visitor, #[trigger] records@[k], true),
        decreases records@.len() - i,
    {
        let rec = &records[i];
        let go = call(rec.address, rec.size, rec.frames());
        assert(answered(visitor, records@[i as int], go));
        i = i + 1;
        if !go {
            return i;
        }
    }
    i
}

} // verus!
