//! Laws of the tracer, stated over the states that a tracer stands for and
//! the events that its hook sees.

use crate::record::AllocationRecord;
use crate::store::inserted;
use crate::tracer::{LeakTracer, TracerState};
use vstd::prelude::*;

verus! {

/// What the hook sees of the allocator: a block was allocated, with the
/// record that it would get, or the block at an address was freed.
pub ghost enum HookEvent<const STACK_SIZE: usize> {
    Allocated(AllocationRecord<STACK_SIZE>),
    Freed(usize),
}

/// The state after the hook has seen one event.
pub open spec fn after<const STACK_SIZE: usize>(
    state: TracerState<STACK_SIZE>,
    event: HookEvent<STACK_SIZE>,
) -> TracerState<STACK_SIZE> {
    match event {
        HookEvent::Allocated(rec) => state.allocated(rec),
        HookEvent::Freed(address) => state.freed(address),
    }
}

/// The state after the hook has seen `events` in turn.
pub open spec fn run<const STACK_SIZE: usize>(
    state: TracerState<STACK_SIZE>,
    events: Seq<HookEvent<STACK_SIZE>>,
) -> TracerState<STACK_SIZE>
    decreases events.len(),
{
    if events.len() == 0 {
        state
    } else {
        after(run(state, events.drop_last()), events.last())
    }
}

/// The addresses of the live blocks after one event, whatever any tracer
/// has on record: an allocation that succeeded adds its address, a free
/// takes its address away.
pub open spec fn live_step<const STACK_SIZE: usize>(
    live: Set<usize>,
    event: HookEvent<STACK_SIZE>,
) -> Set<usize> {
    match event {
        HookEvent::Allocated(rec) => if rec.address != 0 {
            live.insert(rec.address)
        } else {
            live
        },
        HookEvent::Freed(address) => live.remove(address),
    }
}

/// The addresses of the live blocks after `events`.
pub open spec fn live_after<const STACK_SIZE: usize>(
    live: Set<usize>,
    events: Seq<HookEvent<STACK_SIZE>>,
) -> Set<usize>
    decreases events.len(),
{
    if events.len() == 0 {
        live
    } else {
        live_step(live_after(live, events.drop_last()), events.last())
    }
}

/// At no point of `events` are more than `capacity` blocks live at once.
pub open spec fn within_capacity<const STACK_SIZE: usize>(
    live: Set<usize>,
    events: Seq<HookEvent<STACK_SIZE>>,
    capacity: nat,
) -> bool {
    forall|n: int|
        0 <= n <= events.len() ==> (#[trigger] live_after(live, events.take(n))).len() <= capacity
}

/// While tracking is on, and as long as the blocks that are live at one time
/// never outnumber the slots, the addresses on record are exactly those of
/// the blocks allocated and not yet freed.
pub proof fn law_records_are_the_live_blocks<const STACK_SIZE: usize>(
    state: TracerState<STACK_SIZE>,
    events: Seq<HookEvent<STACK_SIZE>>,
)
    requires
        state.wf(),
        state.initialized,
        state.active,
        within_capacity(state.records.dom(), events, state.capacity),
    ensures
        run(state, events).records.dom() == live_after(state.records.dom(), events),
        run(state, events).wf(),
        run(state, events).initialized,
        run(state, events).active,
        run(state, events).capacity == state.capacity,
    decreases events.len(),
{
    let live = state.records.dom();
    if events.len() == 0 {
        assert(events.take(0) =~= events);
    } else {
        let earlier = events.drop_last();
        assert forall|n: int| 0 <= n <= earlier.len() implies (#[trigger] live_after(
            live,
            earlier.take(n),
        )).len() <= state.capacity by {
            assert(earlier.take(n) =~= events.take(n));
        }
        law_records_are_the_live_blocks(state, earlier);
        assert(events.take(events.len() as int) =~= events);
        let before = run(state, earlier);
        let now = run(state, events);
        assert(live_after(live, events).len() <= state.capacity);
        match events.last() {
            HookEvent::Allocated(rec) => {
                if rec.address != 0 {
                    assert(now.records.dom() =~= before.records.dom().insert(rec.address));
                }
            },
            HookEvent::Freed(address) => {
                assert(now.records.dom() =~= before.records.dom().remove(address));
            },
        }
    }
}

/// What a tracer hands out to a reader after such events: each block that
/// was allocated and not yet freed, once, and no other.
pub proof fn law_leaks_are_the_live_blocks<const STACK_SIZE: usize>(
    tracer: &LeakTracer<STACK_SIZE>,
    start: TracerState<STACK_SIZE>,
    events: Seq<HookEvent<STACK_SIZE>>,
)
    requires
        tracer.wf(),
        start.wf(),
        start.initialized,
        start.active,
        within_capacity(start.records.dom(), events, start.capacity),
        tracer@ == run(start, events),
    ensures
        tracer.leaks().len() == live_after(start.records.dom(), events).len(),
        forall|address: usize|
            live_after(start.records.dom(), events).contains(address) <==> exists|k: int|
                0 <= k < tracer.leaks().len() && #[trigger] tracer.leaks()[k].address == address,
        forall|k: int, l: int|
            0 <= k < l < tracer.leaks().len() ==> tracer.leaks()[k].address
                != tracer.leaks()[l].address,
{
    law_records_are_the_live_blocks(start, events);
    tracer.lemma_wf();
    let leaks = tracer.leaks();
    let records = tracer@.records;
    assert forall|address: usize|
        live_after(start.records.dom(), events).contains(address) <==> exists|k: int|
            0 <= k < leaks.len() && #[trigger] leaks[k].address == address by {
        assert(live_after(start.records.dom(), events).contains(address)
            == records.contains_key(address));
        if exists|k: int| 0 <= k < leaks.len() && #[trigger] leaks[k].address == address {
            let k = choose|k: int| 0 <= k < leaks.len() && #[trigger] leaks[k].address == address;
            assert(records.contains_key(leaks[k].address));
        }
    }
}

/// A second `init` changes nothing: neither the records nor whether
/// tracking is on, also where tracking was paused in between.
pub proof fn law_init_is_idempotent<const STACK_SIZE: usize>(state: TracerState<STACK_SIZE>)
    ensures
        state.started().started() == state.started(),
        state.started().paused().started() == state.started().paused(),
        state.initialized ==> state.started() == state,
{
}

/// While tracking is paused the records stand still: no allocation made in
/// the pause goes on record, every record made before it is still there
/// after `resume`, and a block freed in the pause keeps its record.
pub proof fn law_pause_freezes_the_records<const STACK_SIZE: usize>(
    state: TracerState<STACK_SIZE>,
    events: Seq<HookEvent<STACK_SIZE>>,
)
    ensures
        run(state.paused(), events) == state.paused(),
        run(state.paused(), events).resumed() == state.resumed(),
        run(state.paused(), events).resumed().records == state.records,
    decreases events.len(),
{
    if events.len() > 0 {
        law_pause_freezes_the_records(state, events.drop_last());
    }
}

/// An allocation at a new address that finds the table full changes
/// nothing: no record is pushed out, and the new block is not on record.
pub proof fn law_full_table_drops_the_newcomer<const STACK_SIZE: usize>(
    state: TracerState<STACK_SIZE>,
    rec: AllocationRecord<STACK_SIZE>,
)
    requires
        state.records.len() >= state.capacity,
        !state.records.contains_key(rec.address),
    ensures
        state.allocated(rec) == state,
        !state.allocated(rec).records.contains_key(rec.address),
        inserted(state.records, state.capacity, rec) == state.records,
{
}

/// An allocation at a known address, or at a new one while a slot is free,
/// goes on record, and no other record changes.
pub proof fn law_allocation_goes_on_record<const STACK_SIZE: usize>(
    state: TracerState<STACK_SIZE>,
    rec: AllocationRecord<STACK_SIZE>,
)
    requires
        state.active,
        rec.address != 0,
        state.records.contains_key(rec.address) || state.records.len() < state.capacity,
    ensures
        state.allocated(rec).records.contains_key(rec.address),
        state.allocated(rec).records[rec.address] == rec,
        forall|other: usize|
            other != rec.address ==> (state.allocated(rec).records.contains_key(other)
                == state.records.contains_key(other)) && (state.records.contains_key(other)
                ==> state.allocated(rec).records[other] == state.records[other]),
{
}

} // verus!
