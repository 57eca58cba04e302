//! The record kept for one live allocation.

use crate::capture::{kept, StackBuffer};
use vstd::prelude::*;
use vstd::slice::slice_subrange;

verus! {

/// One live allocation: the address of the block, the number of bytes that
/// were asked for, and the call stack captured when it was made. Only the
/// first `depth` entries of `stack` are frames, innermost first; a `depth`
/// beyond the room of `stack` counts as all of it.
#[derive(Clone, Copy, Debug)]
pub struct AllocationRecord<const STACK_SIZE: usize> {
    pub address: usize,
    pub size: usize,
    pub depth: usize,
    pub stack: [usize; STACK_SIZE],
}

impl<const STACK_SIZE: usize> AllocationRecord<STACK_SIZE> {
    /// The captured frames, innermost first.
    pub open spec fn frames_spec(self) -> Seq<usize> {
        if self.depth <= STACK_SIZE {
            self.stack@.subrange(0, self.depth as int)
        } else {
            self.stack@
        }
    }

    /// The record of a block at `address` of `size` bytes whose capture is `buf`.
    pub open spec fn of_capture(address: usize, size: usize, buf: StackBuffer<STACK_SIZE>) -> Self {
        AllocationRecord { address, size, depth: buf.depth, stack: buf.frames }
    }

    /// The same record with another size.
    pub open spec fn resized(self, size: usize) -> Self {
        AllocationRecord { size, ..self }
    }

    /// Builds the record of a block from a finished capture.
    pub fn from_capture(address: usize, size: usize, buf: &StackBuffer<STACK_SIZE>) -> (rec: Self)
        requires
            buf.wf(),
        ensures
            rec == Self::of_capture(address, size, *buf),
            rec.frames_spec() == buf@,
    {
        AllocationRecord { address, size, depth: buf.depth, stack: buf.frames }
    }

    /// Builds a record from frames given innermost first; frames beyond the
    /// record's room are left out.
    pub fn new(address: usize, size: usize, frames: &[usize]) -> (rec: Self)
        ensures
            rec == Self::of_capture(
                address,
                size,
                StackBuffer::<STACK_SIZE>::new_spec(0).offered_all(frames@),
            ),
            rec.address == address,
            rec.size == size,
            rec.frames_spec() == kept(Seq::empty(), 0, frames@, STACK_SIZE),
    {
        let buf = StackBuffer::<STACK_SIZE>::from_frames(frames);
        Self::from_capture(address, size, &buf)
    }

    /// The captured frames, innermost first.
    pub fn frames(&self) -> (out: &[usize])
        ensures
            out@ == self.frames_spec(),
    {
        if self.depth <= STACK_SIZE {
            slice_subrange(self.stack.as_slice(), 0, self.depth)
        } else {
            self.stack.as_slice()
        }
    }
}

} // verus!
