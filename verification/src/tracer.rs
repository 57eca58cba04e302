//! The tracer: the record store together with its lifecycle, and the
//! accounting that the allocator's hook does on each call.

use crate::capture::StackBuffer;
use crate::record::AllocationRecord;
use crate::snapshot::{accepts, stops_at, visit};
use crate::store::{inserted, lists, RecordStore, Slot};
use crate::symbol::{symbol_name, NAME_CAPACITY};
use vstd::prelude::*;

verus! {

/// The number of slots of a tracer made by [`LeakTracer::new`].
pub const DEFAULT_CAPACITY: usize = 32768;

/// What a tracer stands for: where it is in its lifecycle, how many records
/// it has room for, and the live allocations that it has on record.
pub ghost struct TracerState<const STACK_SIZE: usize> {
    pub initialized: bool,
    pub active: bool,
    pub capacity: nat,
    pub records: Map<usize, AllocationRecord<STACK_SIZE>>,
}

impl<const STACK_SIZE: usize> TracerState<STACK_SIZE> {
    /// A tracer that was never initialized is inactive and has no records; no
    /// tracer has more records than it has room for.
    pub open spec fn wf(self) -> bool {
        &&& self.records.dom().finite()
        &&& self.records.len() <= self.capacity
        &&& !self.initialized ==> !self.active && self.records == Map::<
            usize,
            AllocationRecord<STACK_SIZE>,
        >::empty()
    }

    /// The state of a new tracer with room for `capacity` records.
    pub open spec fn fresh(capacity: nat) -> Self {
        TracerState { initialized: false, active: false, capacity, records: Map::empty() }
    }

    /// After `init`: the first call prepares the store and starts tracking,
    /// any later call changes nothing.
    pub open spec fn started(self) -> Self {
        if self.initialized {
            self
        } else {
            TracerState { initialized: true, active: true, ..self }
        }
    }

    /// After `pause`: tracking is off, the records stay.
    pub open spec fn paused(self) -> Self {
        TracerState { active: false, ..self }
    }

    /// After `resume`: tracking is on again, if the tracer was ever initialized.
    pub open spec fn resumed(self) -> Self {
        TracerState { active: self.initialized, ..self }
    }

    /// After the hook has seen an allocation that gave the block of `rec`. A
    /// failed allocation, whose address is null, leaves no record, and
    /// neither does one made while tracking is off.
    pub open spec fn allocated(self, rec: AllocationRecord<STACK_SIZE>) -> Self {
        if self.active && rec.address != 0 {
            TracerState { records: inserted(self.records, self.capacity, rec), ..self }
        } else {
            self
        }
    }

    /// After the hook has seen the block at `address` freed.
    pub open spec fn freed(self, address: usize) -> Self {
        if self.active {
            TracerState { records: self.records.remove(address), ..self }
        } else {
            self
        }
    }

    /// After the hook has seen the block at `address` change its size in place:
    /// its record, if there is one, gets the new size and keeps its stack.
    pub open spec fn resized(self, address: usize, size: usize) -> Self {
        if self.active && self.records.contains_key(address) {
            TracerState {
                records: self.records.insert(address, self.records[address].resized(size)),
                ..self
            }
        } else {
            self
        }
    }

    /// After the hook has seen a reallocation of the block at `old_address`
    /// that gave the block of `rec`. A failed reallocation leaves the old
    /// block as it was, and its record with it. A block that stayed in place
    /// is resized. A block that moved is freed at its old address and
    /// allocated at its new one.
    pub open spec fn reallocated(self, old_address: usize, rec: AllocationRecord<STACK_SIZE>) -> Self {
        if rec.address == 0 {
            self
        } else if rec.address == old_address {
            self.resized(old_address, rec.size)
        } else {
            self.freed(old_address).allocated(rec)
        }
    }
}

/// The bytes that a store of `capacity` slots takes, or the largest number
/// that fits where the product does not.
pub open spec fn backing_bytes<const STACK_SIZE: usize>(capacity: nat) -> nat {
    let bytes = vstd::layout::size_of::<Slot<STACK_SIZE>>() * capacity;
    if bytes <= usize::MAX {
        bytes
    } else {
        usize::MAX as nat
    }
}

/// Tracks the live allocations of a process. It is made inactive and without
/// a store; `init` lays out the store, once, and starts tracking.
pub struct LeakTracer<const STACK_SIZE: usize> {
    store: RecordStore<STACK_SIZE>,
    capacity: usize,
    skip: usize,
    initialized: bool,
    active: bool,
}

/// A tracer that keeps ten frames of each call stack.
pub type LeakTracerDefault = LeakTracer<10>;

impl<const STACK_SIZE: usize> View for LeakTracer<STACK_SIZE> {
    type V = TracerState<STACK_SIZE>;

    closed spec fn view(&self) -> TracerState<STACK_SIZE> {
        TracerState {
            initialized: self.initialized,
            active: self.active,
            capacity: self.capacity as nat,
            records: self.store@,
        }
    }
}

impl<const STACK_SIZE: usize> LeakTracer<STACK_SIZE> {
    /// The tracer is sound: its store is, the store has the tracer's capacity
    /// once it is laid out, and nothing is tracked before that.
    pub closed spec fn wf(&self) -> bool {
        &&& self.store.wf()
        &&& self.initialized ==> self.store.capacity_spec() == self.capacity
        &&& !self.initialized ==> !self.active && self.store.capacity_spec() == 0
    }

    /// The number of innermost frames that each capture passes over.
    pub closed spec fn skip_spec(&self) -> usize {
        self.skip
    }

    /// The records in the order in which `now_leaks` hands them out.
    pub closed spec fn leaks(&self) -> Seq<AllocationRecord<STACK_SIZE>> {
        self.store.ordered()
    }

    /// A sound tracer stands for a sound state, and the records that it hands
    /// out are those that it has: each once, and no other.
    pub proof fn lemma_wf(&self)
        requires
            self.wf(),
        ensures
            self@.wf(),
            lists(self.leaks(), self@.records),
    {
        self.store.lemma_wf();
        if !self.initialized {
            assert(self@.records.len() == 0);
            assert(self@.records.dom() =~= Set::<usize>::empty());
            assert(self@.records =~= Map::<usize, AllocationRecord<STACK_SIZE>>::empty());
        }
    }

    /// A tracer with room for [`DEFAULT_CAPACITY`] records that skips no frame.
    pub fn new() -> (tracer: Self)
        ensures
            tracer.wf(),
            tracer@ == TracerState::<STACK_SIZE>::fresh(DEFAULT_CAPACITY as nat),
            tracer.skip_spec() == 0,
    {
        Self::with_capacity(DEFAULT_CAPACITY, 0)
    }

    /// A tracer with room for `capacity` records whose captures pass over the
    /// `skip` innermost frames, those of the hook itself.
    pub fn with_capacity(capacity: usize, skip: usize) -> (tracer: Self)
        ensures
            tracer.wf(),
            tracer@ == TracerState::<STACK_SIZE>::fresh(capacity as nat),
            tracer.skip_spec() == skip,
    {
        LeakTracer {
            store: RecordStore::with_capacity(0),
            capacity,
            skip,
            initialized: false,
            active: false,
        }
    }

    /// Lays out the store and starts tracking; a second call changes
    /// nothing. Gives the size of the store in bytes.
    pub fn init(&mut self) -> (bytes: usize)
        requires
            old(self).wf(),
        ensures
            final(self).wf(),
            final(self)@ == old(self)@.started(),
            final(self).skip_spec() == old(self).skip_spec(),
            bytes == backing_bytes::<STACK_SIZE>(old(self)@.capacity),
    {
        if !self.initialized {
            proof {
                self.lemma_wf();
            }
            self.store = RecordStore::with_capacity(self.capacity);
            self.initialized = true;
            self.active = true;
        }
        match core::mem::size_of::<Slot<STACK_SIZE>>().checked_mul(self.capacity) {
            Some(bytes) => bytes,
            None => usize::MAX,
        }
    }

    /// Stops tracking. The records stay and can still be read.
    pub fn pause(&mut self)
        requires
            old(self).wf(),
        ensures
            final(self).wf(),
            final(self)@ == old(self)@.paused(),
            final(self).skip_spec() == old(self).skip_spec(),
            final(self).leaks() == old(self).leaks(),
    {
        self.active = false;
    }

    /// Starts tracking again. Before `init` it does nothing.
    pub fn resume(&mut self)
        requires
            old(self).wf(),
        ensures
            final(self).wf(),
            final(self)@ == old(self)@.resumed(),
            final(self).skip_spec() == old(self).skip_spec(),
            final(self).leaks() == old(self).leaks(),
    {
        self.active = self.initialized;
    }

    /// Whether `init` has been called.
    pub fn is_initialized(&self) -> (yes: bool)
        ensures
            yes == self@.initialized,
    {
        self.initialized
    }

    /// Whether allocations are being tracked.
    pub fn is_active(&self) -> (yes: bool)
        ensures
            yes == self@.active,
    {
        self.active
    }

    /// The number of records that the tracer has room for.
    pub fn capacity(&self) -> (n: usize)
        ensures
            n == self@.capacity,
    {
        self.capacity
    }

    /// The number of live allocations on record.
    pub fn len(&self) -> (n: usize)
        requires
            self.wf(),
        ensures
            n == self@.records.len(),
    {
        self.store.len()
    }

    /// The record kept for the block at `address`, if there is one.
    pub fn get(&self, address: usize) -> (found: Option<AllocationRecord<STACK_SIZE>>)
        requires
            self.wf(),
        ensures
            found == if self@.records.contains_key(address) {
                Some(self@.records[address])
            } else {
                None
            },
    {
        self.store.get(address)
    }

    /// Accounts for an allocation that gave the block at `address`, with the
    /// call stack in `buf`.
    pub fn record_allocation(&mut self, address: usize, size: usize, buf: &StackBuffer<STACK_SIZE>)
        requires
            old(self).wf(),
        ensures
            final(self).wf(),
            final(self).skip_spec() == old(self).skip_spec(),
            final(self)@ == old(self)@.allocated(
                AllocationRecord::of_capture(address, size, *buf),
            ),
    {
        if self.active && address != 0 {
            let rec = AllocationRecord { address, size, depth: buf.depth, stack: buf.frames };
            self.store.insert(rec);
        }
    }

    /// Accounts for a reallocation of the block at `old_address` that gave the
    /// block at `new_address`, with the call stack in `buf`.
    pub fn record_reallocation(
        &mut self,
        old_address: usize,
        new_size: usize,
        new_address: usize,
        buf: &StackBuffer<STACK_SIZE>,
    )
        requires
            old(self).wf(),
        ensures
            final(self).wf(),
            final(self).skip_spec() == old(self).skip_spec(),
            final(self)@ == old(self)@.reallocated(
                old_address,
                AllocationRecord::of_capture(new_address, new_size, *buf),
            ),
    {
        if new_address == 0 {
        } else if new_address == old_address {
            if self.active {
                self.store.resize(old_address, new_size);
            }
        } else {
            self.dealloc_accounting(old_address);
            self.record_allocation(new_address, new_size, buf);
        }
    }

    /// The hook's part after an allocation of `size` bytes that gave the
    /// block at `address`, null where it failed: while tracking is on, the
    /// call stack is captured and the block goes on record with it. Which
    /// frames the stack has is not stated, only that they come from one walk
    /// that passed over the tracer's count of frames. Gives the address back
    /// as it came.
    pub fn alloc_accounting(&mut self, size: usize, address: usize) -> (same: usize)
        requires
            old(self).wf(),
        ensures
            same == address,
            final(self).wf(),
            final(self).skip_spec() == old(self).skip_spec(),
            exists|ips: Seq<usize>|
                final(self)@ == old(self)@.allocated(
                    #[trigger] Self::captured(old(self).skip_spec(), address, size, ips),
                ),
    {
        if self.active && address != 0 {
            let buf = StackBuffer::capture(self.skip);
            self.record_allocation(address, size, &buf);
            proof {
                let ips = choose|ips: Seq<usize>|
                    buf == StackBuffer::<STACK_SIZE>::new_spec(self.skip).offered_all(ips);
                assert(self@ == old(self)@.allocated(
                    Self::captured(old(self).skip_spec(), address, size, ips),
                ));
            }
        } else {
            assert(self@ == old(self)@.allocated(
                Self::captured(old(self).skip_spec(), address, size, Seq::empty()),
            ));
        }
        address
    }

    /// The record that a block gets when the walk of the call stack meets the
    /// frames `ips`, of which the first `skip` are passed over.
    pub open spec fn captured(
        skip: usize,
        address: usize,
        size: usize,
        ips: Seq<usize>,
    ) -> AllocationRecord<STACK_SIZE> {
        AllocationRecord::of_capture(
            address,
            size,
            StackBuffer::<STACK_SIZE>::new_spec(skip).offered_all(ips),
        )
    }

    /// The hook's part before the block at `address` is freed: while
    /// tracking is on, its record goes. A block without a record is no
    /// error; the answer says whether a record went, for those who count.
    pub fn dealloc_accounting(&mut self, address: usize) -> (forgotten: bool)
        requires
            old(self).wf(),
        ensures
            final(self).wf(),
            final(self).skip_spec() == old(self).skip_spec(),
            final(self)@ == old(self)@.freed(address),
            forgotten == (old(self)@.active && old(self)@.records.contains_key(address)),
    {
        if self.active {
            self.store.remove(address)
        } else {
            false
        }
    }

    /// The hook's part after a reallocation of the block at `old_address` to
    /// `new_size` bytes that gave the block at `new_address`, null where it
    /// failed. The call stack is captured only where the block has moved.
    /// Gives the new address back as it came.
    pub fn realloc_accounting(
        &mut self,
        old_address: usize,
        new_size: usize,
        new_address: usize,
    ) -> (same: usize)
        requires
            old(self).wf(),
        ensures
            same == new_address,
            final(self).wf(),
            final(self).skip_spec() == old(self).skip_spec(),
            exists|ips: Seq<usize>|
                final(self)@ == old(self)@.reallocated(
                    old_address,
                    #[trigger] Self::captured(old(self).skip_spec(), new_address, new_size, ips),
                ),
    {
        if self.active && new_address != 0 && new_address != old_address {
            let buf = StackBuffer::capture(self.skip);
            self.record_reallocation(old_address, new_size, new_address, &buf);
            proof {
                let ips = choose|ips: Seq<usize>|
                    buf == StackBuffer::<STACK_SIZE>::new_spec(self.skip).offered_all(ips);
                assert(self@ == old(self)@.reallocated(
                    old_address,
                    Self::captured(self.skip, new_address, new_size, ips),
                ));
            }
        } else {
            let buf = StackBuffer::new(self.skip);
            self.record_reallocation(old_address, new_size, new_address, &buf);
            assert(self@ == old(self)@.reallocated(
                old_address,
                Self::captured(self.skip, new_address, new_size, Seq::empty()),
            ));
        }
        new_address
    }

    /// A copy of every record, in the order of [`Self::leaks`], that shares
    /// nothing with the tracer.
    pub fn snapshot(&self) -> (records: Vec<AllocationRecord<STACK_SIZE>>)
        requires
            self.wf(),
        ensures
            records@ == self.leaks(),
            lists(records@, self@.records),
    {
        self.store.snapshot()
    }

    /// Copies the records out and hands the copies to `visitor` one by one,
    /// each as address, size and frames, until the visitor answers `false`.
    /// Gives the number of calls made.
    pub fn now_leaks<F: FnMut(usize, usize, &[usize]) -> bool>(&self, visitor: F) -> (visited: usize)
        requires
            self.wf(),
            forall|address: usize|
                self@.records.contains_key(address) ==> accepts(
                    visitor,
                    #[trigger] self@.records[address],
                ),
        ensures
            lists(self.leaks(), self@.records),
            stops_at(visitor, self.leaks(), visited as int),
    {
        let records = self.snapshot();
        visit(&records, visitor)
    }

    /// The name of the routine that holds `address`, cut off at
    /// [`NAME_CAPACITY`] bytes. There is none before `init`, and none for an
    /// address that no named symbol covers.
    pub fn get_symbol_name(&self, address: usize) -> (name: Option<String>)
        ensures
            !self@.initialized ==> name is None,
            name matches Some(text) ==> text@.len() <= NAME_CAPACITY,
    {
        if self.initialized {
            symbol_name(address)
        } else {
            None
        }
    }
}

} // verus!
