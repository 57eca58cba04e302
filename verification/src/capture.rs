//! Capturing the current call stack into a buffer of fixed size.

use vstd::prelude::*;
use vstd::slice::slice_subrange;

verus! {

/// A buffer for up to `STACK_SIZE` program counters, innermost frame first,
/// together with the number of leading frames that are still to be skipped.
#[derive(Clone, Copy, Debug)]
pub struct StackBuffer<const STACK_SIZE: usize> {
    pub skip: usize,
    pub depth: usize,
    pub frames: [usize; STACK_SIZE],
}

impl<const STACK_SIZE: usize> View for StackBuffer<STACK_SIZE> {
    type V = Seq<usize>;

    /// The frames written so far.
    open spec fn view(&self) -> Seq<usize> {
        self.frames@.subrange(0, self.depth as int)
    }
}

impl<const STACK_SIZE: usize> StackBuffer<STACK_SIZE> {
    /// No more frames are counted than the buffer has room for.
    pub open spec fn wf(self) -> bool {
        self.depth <= STACK_SIZE
    }

    /// The buffer after one more frame of the walk has been offered to it: a
    /// frame that is still to be skipped only lowers the skip count, a frame
    /// that finds the buffer full is dropped, any other is appended.
    pub open spec fn offered(self, ip: usize) -> Self {
        if self.depth >= STACK_SIZE {
            self
        } else if self.skip > 0 {
            StackBuffer { skip: (self.skip - 1) as usize, ..self }
        } else {
            StackBuffer {
                skip: self.skip,
                depth: (self.depth + 1) as usize,
                frames: vstd::array::spec_array_update(self.frames, self.depth as int, ip),
            }
        }
    }

    /// The buffer after a whole walk: the frames in `ips` are offered in turn
    /// until the buffer is full.
    pub open spec fn offered_all(self, ips: Seq<usize>) -> Self
        decreases ips.len(),
    {
        if ips.len() == 0 {
            self
        } else {
            self.offered(ips[0]).offered_all(ips.subrange(1, ips.len() as int))
        }
    }

    /// An empty buffer that will pass over the first `skip` frames offered.
    pub fn new(skip: usize) -> (buf: Self)
        ensures
            buf == Self::new_spec(skip),
            buf.wf(),
            buf@ == Seq::<usize>::empty(),
    {
        StackBuffer { skip, depth: 0, frames: [0usize; STACK_SIZE] }
    }

    /// Offers one frame to the buffer and says whether the walk should go on,
    /// which it should until the buffer is full.
    pub fn observe(&mut self, ip: usize) -> (more: bool)
        requires
            old(self).wf(),
        ensures
            final(self).wf(),
            *final(self) == old(self).offered(ip),
            more == (final(self).depth < STACK_SIZE),
    {
        if self.depth >= STACK_SIZE {
            return false;
        }
        if self.skip > 0 {
            self.skip = self.skip - 1;
            return true;
        }
        let ghost before = self.frames;
        self.frames[self.depth] = ip;
        proof {
            vstd::array::axiom_spec_array_update(before, self.depth as int, ip);
            assert(self.frames =~= vstd::array::spec_array_update(before, self.depth as int, ip));
        }
        self.depth = self.depth + 1;
        self.depth < STACK_SIZE
    }

    /// The frames written so far, innermost first.
    pub fn frames(&self) -> (out: &[usize])
        requires
            self.wf(),
        ensures
            out@ == self@,
    {
        slice_subrange(self.frames.as_slice(), 0, self.depth)
    }

    /// A buffer holding the leading frames of `ips`, as many as fit.
    pub fn from_frames(ips: &[usize]) -> (buf: Self)
        ensures
            buf.wf(),
            buf == Self::new_spec(0).offered_all(ips@),
            buf@ == kept(Seq::empty(), 0, ips@, STACK_SIZE),
    {
        proof {
            lemma_walk_keeps(Self::new_spec(0), ips@);
        }
        let mut buf = Self::new(0);
        let mut i: usize = 0;
        assert(ips@.subrange(0, ips@.len() as int) =~= ips@);
        while i < ips.len()
            invariant
                i <= ips.len(),
                buf.wf(),
                buf.offered_all(ips@.subrange(i as int, ips@.len() as int))
                    == Self::new_spec(0).offered_all(ips@),
            decreases ips.len() - i,
        {
            let ghost rest = ips@.subrange(i as int, ips@.len() as int);
            assert(rest.subrange(1, rest.len() as int) =~= ips@.subrange(
                i + 1,
                ips@.len() as int,
            ));
            buf.observe(ips[i]);
            i = i + 1;
        }
        buf
    }

    /// Walks the call stack of the caller, innermost frame first, into a new
    /// buffer: the first `skip` frames are passed over, and the walk ends when
    /// the buffer is full or the stack has no more frames.
    pub fn capture(skip: usize) -> (buf: Self)
        ensures
            buf.wf(),
            exists|ips: Seq<usize>| buf == Self::new_spec(skip).offered_all(ips),
            exists|ips: Seq<usize>| buf@ == #[trigger] kept(Seq::empty(), skip, ips, STACK_SIZE),
    {
        let mut buf = Self::new(skip);
        walk_frames(&mut buf);
        proof {
            let ips = choose|ips: Seq<usize>| buf == Self::new_spec(skip).offered_all(ips);
            lemma_offered_all_extends(Self::new_spec(skip), ips);
            lemma_walk_keeps(Self::new_spec(skip), ips);
            assert(buf@ == kept(Seq::empty(), skip, ips, STACK_SIZE));
        }
        buf
    }

    /// The empty buffer that will pass over the first `skip` frames.
    pub open spec fn new_spec(skip: usize) -> Self {
        StackBuffer {
            skip,
            depth: 0,
            frames: vstd::array::spec_array_fill_for_copy_type::<usize, STACK_SIZE>(0),
        }
    }
}

/// The frames that a buffer with room for `room` frames holds after a walk
/// over `ips`, when it held `held` before and had `skip` frames to pass over:
/// the frames held, then those of the walk but for the first `skip`, as many
/// as there is room for.
pub open spec fn kept(held: Seq<usize>, skip: usize, ips: Seq<usize>, room: usize) -> Seq<usize> {
    let walked = held + ips.skip(
        if skip <= ips.len() {
            skip as int
        } else {
            ips.len() as int
        },
    );
    walked.take(
        if room <= walked.len() {
            room as int
        } else {
            walked.len() as int
        },
    )
}

/// Calls `backtrace::trace`, which hands the frames of the current call stack
/// to a visitor, innermost first, until the visitor returns `false` or the
/// stack ends. Each frame's instruction pointer is offered to `buf`, whose
/// answer is the visitor's. The contract claims that `buf` ends as if some
/// sequence of frames had been offered to it in turn; it says nothing of
/// which frames those are.
#[verifier::external_body]
fn walk_frames<const STACK_SIZE: usize>(buf: &mut StackBuffer<STACK_SIZE>)
    requires
        old(buf).wf(),
    ensures
        exists|ips: Seq<usize>| *final(buf) == old(buf).offered_all(ips),
{
    backtrace::trace(|frame| buf.observe(frame.ip() as usize));
}

/// A walk only ever adds frames: the frames that a buffer held before stay
/// where they were, and the buffer stays well formed.
pub proof fn lemma_offered_all_extends<const STACK_SIZE: usize>(
    buf: StackBuffer<STACK_SIZE>,
    ips: Seq<usize>,
)
    requires
        buf.wf(),
    ensures
        buf.offered_all(ips).wf(),
        buf@.is_prefix_of(buf.offered_all(ips)@),
        buf.offered_all(ips)@.len() <= buf@.len() + ips.len(),
    decreases ips.len(),
{
    if ips.len() > 0 {
        let next = buf.offered(ips[0]);
        vstd::array::axiom_spec_array_update(buf.frames, buf.depth as int, ips[0]);
        assert(buf@.is_prefix_of(next@));
        lemma_offered_all_extends(next, ips.subrange(1, ips.len() as int));
    }
}

/// What a walk leaves in a buffer, said of the frames alone.
pub proof fn lemma_walk_keeps<const STACK_SIZE: usize>(
    buf: StackBuffer<STACK_SIZE>,
    ips: Seq<usize>,
)
    requires
        buf.wf(),
    ensures
        buf.offered_all(ips)@ == kept(buf@, buf.skip, ips, STACK_SIZE),
    decreases ips.len(),
{
    let room = STACK_SIZE;
    if ips.len() == 0 {
        assert(buf@ =~= kept(buf@, buf.skip, ips, room));
    } else {
        let next = buf.offered(ips[0]);
        let rest = ips.subrange(1, ips.len() as int);
        vstd::array::axiom_spec_array_update(buf.frames, buf.depth as int, ips[0]);
        lemma_walk_keeps(next, rest);
        if buf.depth >= STACK_SIZE {
            assert(kept(buf@, buf.skip, rest, room) =~= kept(
                buf@,
                buf.skip,
                ips,
                room,
            ));
        } else if buf.skip > 0 {
            assert(next@ =~= buf@);
            assert(rest.skip(
                if buf.skip - 1 <= rest.len() {
                    buf.skip - 1
                } else {
                    rest.len() as int
                },
            ) =~= ips.skip(
                if buf.skip <= ips.len() {
                    buf.skip as int
                } else {
                    ips.len() as int
                },
            ));
        } else {
            assert(next@ =~= buf@.push(ips[0]));
            assert(rest.skip(0) =~= rest);
            assert(ips.skip(0) =~= ips);
            assert(buf@.push(ips[0]) + rest =~= buf@ + ips);
        }
    }
}

} // verus!
