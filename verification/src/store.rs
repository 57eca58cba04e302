//! The record store: a hashed table of fixed capacity, probed linearly, whose
//! slots are laid out once and never grow.

use crate::record::AllocationRecord;
use crate::snapshot::{accepts, answered, stops_at};
use vstd::prelude::*;

verus! {

/// One slot of the table.
#[derive(Clone, Copy, Debug)]
pub enum Slot<const STACK_SIZE: usize> {
    /// The slot has never held a record: a probe may stop here.
    Empty,
    /// The slot held a record that was removed: a probe goes on past it.
    Vacated,
    /// The slot holds the record of a live allocation.
    Occupied(AllocationRecord<STACK_SIZE>),
}

/// The record in a slot that holds one.
spec fn record_of<const STACK_SIZE: usize>(slot: Slot<STACK_SIZE>) -> AllocationRecord<
    STACK_SIZE,
> {
    match slot {
        Slot::Occupied(rec) => rec,
        _ => arbitrary(),
    }
}

/// The slot at which the probe for `address` starts.
spec fn home_slot(address: usize, capacity: int) -> int {
    ((address / 16) as int) % capacity
}

/// The slot that a probe from `home` reaches at its `step`-th step.
spec fn slot_at(home: int, step: int, capacity: int) -> int {
    if home + step < capacity {
        home + step
    } else {
        home + step - capacity
    }
}

/// The step at which a probe from `home` reaches the slot `index`.
spec fn step_of(home: int, index: int, capacity: int) -> int {
    if index >= home {
        index - home
    } else {
        index + capacity - home
    }
}

/// Slot `i` holds the record of the block at `address`.
spec fn holds<const STACK_SIZE: usize>(
    slots: Seq<Slot<STACK_SIZE>>,
    i: int,
    address: usize,
) -> bool {
    0 <= i < slots.len() && slots[i] is Occupied && record_of(slots[i]).address == address
}

/// No address is held by two slots.
spec fn distinct<const STACK_SIZE: usize>(slots: Seq<Slot<STACK_SIZE>>) -> bool {
    forall|i: int, j: int, address: usize|
        holds(slots, i, address) && holds(slots, j, address) ==> i == j
}

/// The probe for the record in slot `i` meets an empty slot at step `t`.
spec fn cut_off<const STACK_SIZE: usize>(
    slots: Seq<Slot<STACK_SIZE>>,
    i: int,
    t: int,
) -> bool {
    let home = home_slot(record_of(slots[i]).address, slots.len() as int);
    slots[slot_at(home, t, slots.len() as int)] is Empty
}

/// Every record can be found: the probe for it meets no empty slot before
/// it reaches the record.
spec fn reachable<const STACK_SIZE: usize>(slots: Seq<Slot<STACK_SIZE>>) -> bool {
    forall|i: int, t: int|
        #![trigger cut_off(slots, i, t)]
        0 <= i < slots.len() && slots[i] is Occupied && 0 <= t < step_of(
            home_slot(record_of(slots[i]).address, slots.len() as int),
            i,
            slots.len() as int,
        ) ==> !cut_off(slots, i, t)
}

/// The number of records in the first `n` slots.
spec fn occupied_upto<const STACK_SIZE: usize>(
    slots: Seq<Slot<STACK_SIZE>>,
    n: int,
) -> int
    decreases n,
{
    if n <= 0 {
        0
    } else {
        occupied_upto(slots, n - 1) + if slots[n - 1] is Occupied {
            1int
        } else {
            0int
        }
    }
}

/// The records in the first `n` slots, in slot order.
spec fn records_upto<const STACK_SIZE: usize>(
    slots: Seq<Slot<STACK_SIZE>>,
    n: int,
) -> Seq<AllocationRecord<STACK_SIZE>>
    decreases n,
{
    if n <= 0 {
        Seq::empty()
    } else if slots[n - 1] is Occupied {
        records_upto(slots, n - 1).push(record_of(slots[n - 1]))
    } else {
        records_upto(slots, n - 1)
    }
}

/// The mapping that a table stands for: each held address to its record.
spec fn table_map<const STACK_SIZE: usize>(slots: Seq<Slot<STACK_SIZE>>) -> Map<
    usize,
    AllocationRecord<STACK_SIZE>,
> {
    Map::new(
        |address: usize| exists|i: int| holds(slots, i, address),
        |address: usize| record_of(slots[choose|i: int| holds(slots, i, address)]),
    )
}

/// `records` lists the mapping `m`: each entry once, and nothing else.
pub open spec fn lists<const STACK_SIZE: usize>(
    records: Seq<AllocationRecord<STACK_SIZE>>,
    m: Map<usize, AllocationRecord<STACK_SIZE>>,
) -> bool {
    &&& records.len() == m.len()
    &&& forall|k: int|
        0 <= k < records.len() ==> m.contains_key(#[trigger] records[k].address)
            && m[records[k].address] == records[k]
    &&& forall|address: usize|
        m.contains_key(address) ==> exists|k: int|
            0 <= k < records.len() && #[trigger] records[k].address == address
    &&& forall|k: int, l: int|
        0 <= k < l < records.len() ==> records[k].address != records[l].address
}

/// What an insertion makes of a mapping held in a table of `capacity` slots:
/// a known address, or a new one while there is room, maps to `rec`; a new one
/// that finds the table full is dropped.
pub open spec fn inserted<const STACK_SIZE: usize>(
    m: Map<usize, AllocationRecord<STACK_SIZE>>,
    capacity: nat,
    rec: AllocationRecord<STACK_SIZE>,
) -> Map<usize, AllocationRecord<STACK_SIZE>> {
    if m.contains_key(rec.address) || m.len() < capacity {
        m.insert(rec.address, rec)
    } else {
        m
    }
}

proof fn lemma_lookup<const STACK_SIZE: usize>(
    slots: Seq<Slot<STACK_SIZE>>,
    i: int,
    address: usize,
)
    requires
        distinct(slots),
        holds(slots, i, address),
    ensures
        table_map(slots).contains_key(address),
        table_map(slots)[address] == record_of(slots[i]),
{
    let j = choose|j: int| holds(slots, j, address);
    assert(holds(slots, j, address));
}

proof fn lemma_occupied_bounds<const STACK_SIZE: usize>(slots: Seq<Slot<STACK_SIZE>>, n: int)
    requires
        0 <= n <= slots.len(),
    ensures
        0 <= occupied_upto(slots, n) <= n,
        (forall|i: int| 0 <= i < n ==> slots[i] is Occupied) ==> occupied_upto(slots, n) == n,
        (exists|i: int| 0 <= i < n && !(slots[i] is Occupied)) ==> occupied_upto(slots, n) < n,
    decreases n,
{
    if n > 0 {
        lemma_occupied_bounds(slots, n - 1);
    }
}

proof fn lemma_occupied_update<const STACK_SIZE: usize>(
    slots: Seq<Slot<STACK_SIZE>>,
    j: int,
    slot: Slot<STACK_SIZE>,
    n: int,
)
    requires
        0 <= j < slots.len(),
        0 <= n <= slots.len(),
    ensures
        occupied_upto(slots.update(j, slot), n) == occupied_upto(slots, n) + if j < n {
            (if slot is Occupied { 1int } else { 0int }) - (if slots[j] is Occupied { 1int } else { 0int })
        } else {
            0int
        },
    decreases n,
{
    if n > 0 {
        lemma_occupied_update(slots, j, slot, n - 1);
    }
}

/// Writing `rec` over its own earlier record, or into a slot that holds none
/// while no slot holds its address, adds it to the mapping.
proof fn lemma_put<const STACK_SIZE: usize>(
    slots: Seq<Slot<STACK_SIZE>>,
    j: int,
    rec: AllocationRecord<STACK_SIZE>,
)
    requires
        distinct(slots),
        0 <= j < slots.len(),
        holds(slots, j, rec.address) || (!(slots[j] is Occupied) && forall|i: int|
            !holds(slots, i, rec.address)),
    ensures
        distinct(slots.update(j, Slot::Occupied(rec))),
        table_map(slots.update(j, Slot::Occupied(rec))) == table_map(slots).insert(
            rec.address,
            rec,
        ),
{
    let after = slots.update(j, Slot::Occupied(rec));
    assert(holds(after, j, rec.address));
    assert forall|i: int, address: usize| i != j implies (holds(after, i, address) == holds(
        slots,
        i,
        address,
    )) by {}
    assert forall|i: int, address: usize| holds(after, i, address) && address
        != rec.address implies i != j by {}
    assert(distinct(after)) by {
        assert forall|a: int, b: int, address: usize|
            holds(after, a, address) && holds(after, b, address) implies a == b by {
            if a != j && b != j {
                assert(holds(slots, a, address) && holds(slots, b, address));
            } else if a != j {
                assert(holds(slots, a, rec.address));
            } else if b != j {
                assert(holds(slots, b, rec.address));
            }
        }
    }
    let m0 = table_map(slots);
    let m1 = table_map(after);
    assert forall|address: usize| m1.contains_key(address) <==> m0.insert(
        rec.address,
        rec,
    ).contains_key(address) by {
        if address != rec.address {
            if m1.contains_key(address) {
                let i = choose|i: int| holds(after, i, address);
                assert(holds(slots, i, address));
            }
            if m0.contains_key(address) {
                let i = choose|i: int| holds(slots, i, address);
                assert(i != j);
                assert(holds(after, i, address));
            }
        }
    }
    assert forall|address: usize| m1.contains_key(address) implies m1[address] == m0.insert(
        rec.address,
        rec,
    )[address] by {
        if address == rec.address {
            lemma_lookup(after, j, address);
        } else {
            let i = choose|i: int| holds(after, i, address);
            assert(holds(slots, i, address));
            lemma_lookup(after, i, address);
            lemma_lookup(slots, i, address);
        }
    }
    assert(m1 =~= m0.insert(rec.address, rec));
}

/// Taking the record out of the slot that holds `address` takes the address
/// out of the mapping.
proof fn lemma_vacate<const STACK_SIZE: usize>(
    slots: Seq<Slot<STACK_SIZE>>,
    j: int,
    address: usize,
    blank: Slot<STACK_SIZE>,
)
    requires
        distinct(slots),
        holds(slots, j, address),
        !(blank is Occupied),
    ensures
        distinct(slots.update(j, blank)),
        table_map(slots.update(j, blank)) == table_map(slots).remove(address),
{
    let after = slots.update(j, blank);
    assert forall|i: int, a: usize| holds(after, i, a) == (i != j && holds(slots, i, a)) by {}
    assert(distinct(after));
    let m0 = table_map(slots);
    let m1 = table_map(after);
    assert forall|a: usize| m1.contains_key(a) <==> m0.remove(address).contains_key(a) by {
        if m1.contains_key(a) {
            let i = choose|i: int| holds(after, i, a);
            assert(holds(slots, i, a));
            if a == address {
                assert(i == j);
            }
        }
        if m0.contains_key(a) && a != address {
            let i = choose|i: int| holds(slots, i, a);
            assert(holds(after, i, a));
        }
    }
    assert forall|a: usize| m1.contains_key(a) implies m1[a] == m0.remove(address)[a] by {
        let i = choose|i: int| holds(after, i, a);
        assert(holds(slots, i, a));
        lemma_lookup(after, i, a);
        lemma_lookup(slots, i, a);
    }
    assert(m1 =~= m0.remove(address));
}

/// Marking a slot that holds no record otherwise changes no record.
proof fn lemma_remark<const STACK_SIZE: usize>(
    slots: Seq<Slot<STACK_SIZE>>,
    j: int,
    blank: Slot<STACK_SIZE>,
)
    requires
        distinct(slots),
        0 <= j < slots.len(),
        !(slots[j] is Occupied),
        !(blank is Occupied),
    ensures
        distinct(slots.update(j, blank)),
        table_map(slots.update(j, blank)) == table_map(slots),
{
    let after = slots.update(j, blank);
    assert forall|i: int, a: usize| holds(after, i, a) == holds(slots, i, a) by {}
    assert(distinct(after));
    let m0 = table_map(slots);
    let m1 = table_map(after);
    assert forall|a: usize| m1.contains_key(a) <==> m0.contains_key(a) by {
        if m1.contains_key(a) {
            let i = choose|i: int| holds(after, i, a);
            assert(holds(slots, i, a));
        }
        if m0.contains_key(a) {
            let i = choose|i: int| holds(slots, i, a);
            assert(holds(after, i, a));
        }
    }
    assert forall|a: usize| m1.contains_key(a) implies m1[a] == m0[a] by {
        let i = choose|i: int| holds(after, i, a);
        assert(holds(slots, i, a));
        lemma_lookup(after, i, a);
        lemma_lookup(slots, i, a);
    }
    assert(m1 =~= m0);
}

/// The slot that follows `index`, the first slot following the last.
spec fn next_slot(index: int, capacity: int) -> int {
    if index + 1 < capacity {
        index + 1
    } else {
        0
    }
}

/// The slot that lies `steps` slots before `last`, the last slot lying
/// before the first.
spec fn slot_before(last: int, steps: int, capacity: int) -> int {
    if last >= steps {
        last - steps
    } else {
        last + capacity - steps
    }
}

/// How many slots `index` lies before `last`.
spec fn steps_before(last: int, index: int, capacity: int) -> int {
    if index <= last {
        last - index
    } else {
        last + capacity - index
    }
}

/// Slot `index` belongs to the run that ends at `last`: it is `last` itself,
/// or every slot from it up to `last`, `last` left out, is vacated.
spec fn in_run<const STACK_SIZE: usize>(
    slots: Seq<Slot<STACK_SIZE>>,
    last: int,
    index: int,
) -> bool {
    forall|j: int|
        0 < j <= steps_before(last, index, slots.len() as int) ==> slots[#[trigger] slot_before(
            last,
            j,
            slots.len() as int,
        )] is Vacated
}

/// A slot without a record that is followed by an empty slot may be empty
/// itself: no probe goes through it to a record.
proof fn lemma_empty_before_empty<const STACK_SIZE: usize>(slots: Seq<Slot<STACK_SIZE>>, j: int)
    requires
        reachable(slots),
        0 <= j < slots.len(),
        !(slots[j] is Occupied),
        slots[next_slot(j, slots.len() as int)] is Empty,
    ensures
        reachable(slots.update(j, Slot::Empty)),
{
    let after = slots.update(j, Slot::<STACK_SIZE>::Empty);
    let cap = slots.len() as int;
    assert forall|i: int, t: int|
        #![trigger cut_off(after, i, t)]
        0 <= i < cap && after[i] is Occupied && 0 <= t < step_of(
            home_slot(record_of(after[i]).address, cap),
            i,
            cap,
        ) implies !cut_off(after, i, t) by {
        let home = home_slot(record_of(slots[i]).address, cap);
        assert(!cut_off(slots, i, t));
        if slot_at(home, t, cap) == j {
            assert(slot_at(home, t + 1, cap) == next_slot(j, cap));
            if t + 1 < step_of(home, i, cap) {
                assert(!cut_off(slots, i, t + 1));
            } else {
                assert(slot_at(home, step_of(home, i, cap), cap) == i);
            }
        }
    }
}

/// Slot `i`, one of the first `n`, holds exactly `rec`.
spec fn from_slot<const STACK_SIZE: usize>(
    slots: Seq<Slot<STACK_SIZE>>,
    n: int,
    i: int,
    rec: AllocationRecord<STACK_SIZE>,
) -> bool {
    0 <= i < n && holds(slots, i, rec.address) && record_of(slots[i]) == rec
}

/// One of the first `n` slots holds exactly `rec`.
spec fn has_slot<const STACK_SIZE: usize>(
    slots: Seq<Slot<STACK_SIZE>>,
    n: int,
    rec: AllocationRecord<STACK_SIZE>,
) -> bool {
    exists|i: int| from_slot(slots, n, i, rec)
}

proof fn lemma_records_upto<const STACK_SIZE: usize>(slots: Seq<Slot<STACK_SIZE>>, n: int)
    requires
        distinct(slots),
        0 <= n <= slots.len(),
    ensures
        records_upto(slots, n).len() == occupied_upto(slots, n),
        forall|k: int|
            0 <= k < records_upto(slots, n).len() ==> has_slot(
                slots,
                n,
                #[trigger] records_upto(slots, n)[k],
            ),
        forall|i: int|
            0 <= i < n && #[trigger] slots[i] is Occupied ==> exists|k: int|
                0 <= k < records_upto(slots, n).len() && records_upto(slots, n)[k] == record_of(
                    slots[i],
                ),
        forall|k: int, l: int|
            0 <= k < l < records_upto(slots, n).len() ==> records_upto(slots, n)[k].address
                != records_upto(slots, n)[l].address,
    decreases n,
{
    if n > 0 {
        lemma_records_upto(slots, n - 1);
        let m = n - 1;
        let prev = records_upto(slots, m);
        let cur = records_upto(slots, n);
        assert forall|k: int| 0 <= k < cur.len() implies has_slot(slots, n, #[trigger] cur[k]) by {
            if k < prev.len() {
                assert(has_slot(slots, m, prev[k]));
                let i = choose|i: int| from_slot(slots, m, i, prev[k]);
                assert(from_slot(slots, n, i, cur[k]));
            } else {
                assert(from_slot(slots, n, n - 1, cur[k]));
            }
        }
        assert forall|i: int| 0 <= i < n && #[trigger] slots[i] is Occupied implies exists|k: int|
            0 <= k < cur.len() && cur[k] == record_of(slots[i]) by {
            if i < n - 1 {
                let k = choose|k: int| 0 <= k < prev.len() && prev[k] == record_of(slots[i]);
                assert(cur[k] == record_of(slots[i]));
            } else {
                assert(cur[cur.len() - 1] == record_of(slots[i]));
            }
        }
        assert forall|k: int, l: int| 0 <= k < l < cur.len() implies cur[k].address
            != cur[l].address by {
            if l >= prev.len() {
                assert(has_slot(slots, m, prev[k]));
                let i = choose|i: int| from_slot(slots, m, i, prev[k]);
                assert(holds(slots, i, prev[k].address));
                assert(holds(slots, n - 1, cur[l].address));
            }
        }
    }
}

/// The records of a table, read in slot order, list its mapping.
proof fn lemma_lists<const STACK_SIZE: usize>(slots: Seq<Slot<STACK_SIZE>>)
    requires
        distinct(slots),
        table_map(slots).len() == occupied_upto(slots, slots.len() as int),
    ensures
        lists(records_upto(slots, slots.len() as int), table_map(slots)),
{
    let n = slots.len() as int;
    let records = records_upto(slots, n);
    let m = table_map(slots);
    lemma_records_upto(slots, n);
    assert forall|k: int| 0 <= k < records.len() implies m.contains_key(
        #[trigger] records[k].address,
    ) && m[records[k].address] == records[k] by {
        assert(has_slot(slots, n, records[k]));
        let i = choose|i: int| from_slot(slots, n, i, records[k]);
        lemma_lookup(slots, i, records[k].address);
    }
    assert forall|address: usize| m.contains_key(address) implies exists|k: int|
        0 <= k < records.len() && #[trigger] records[k].address == address by {
        let i = choose|i: int| holds(slots, i, address);
        assert(slots[i] is Occupied);
        let k = choose|k: int| 0 <= k < records.len() && records[k] == record_of(slots[i]);
        assert(records[k].address == address);
    }
}

/// The records of fewer slots come first among the records of more.
proof fn lemma_prefix_grows<const STACK_SIZE: usize>(
    slots: Seq<Slot<STACK_SIZE>>,
    n: int,
    m: int,
)
    requires
        0 <= n <= m <= slots.len(),
    ensures
        records_upto(slots, n).is_prefix_of(records_upto(slots, m)),
    decreases m - n,
{
    if n < m {
        lemma_prefix_grows(slots, n, m - 1);
    }
}

proof fn lemma_all_empty<const STACK_SIZE: usize>(slots: Seq<Slot<STACK_SIZE>>, n: int)
    requires
        0 <= n <= slots.len(),
        forall|k: int| 0 <= k < slots.len() ==> slots[k] is Empty,
    ensures
        occupied_upto(slots, n) == 0,
    decreases n,
{
    if n > 0 {
        lemma_all_empty(slots, n - 1);
    }
}

/// The table of live allocations: at most one record for an address, and
/// never more records than the table has slots.
pub struct RecordStore<const STACK_SIZE: usize> {
    slots: Vec<Slot<STACK_SIZE>>,
    live: usize,
}

impl<const STACK_SIZE: usize> View for RecordStore<STACK_SIZE> {
    type V = Map<usize, AllocationRecord<STACK_SIZE>>;

    /// The live allocations: each tracked address with its record.
    closed spec fn view(&self) -> Map<usize, AllocationRecord<STACK_SIZE>> {
        table_map(self.slots@)
    }
}

impl<const STACK_SIZE: usize> RecordStore<STACK_SIZE> {
    /// The table is sound: no address twice, every record within reach of
    /// its probe, and the count of records kept right.
    pub closed spec fn wf(&self) -> bool {
        &&& distinct(self.slots@)
        &&& reachable(self.slots@)
        &&& self.live == occupied_upto(self.slots@, self.slots@.len() as int)
        &&& self@.dom().finite()
        &&& self@.len() == self.live
    }

    /// The number of slots, fixed when the table was made.
    pub closed spec fn capacity_spec(&self) -> nat {
        self.slots@.len()
    }

    /// The records in the order in which a reader meets them.
    pub closed spec fn ordered(&self) -> Seq<AllocationRecord<STACK_SIZE>> {
        records_upto(self.slots@, self.slots@.len() as int)
    }

    /// A sound table never holds more than its capacity, and its records in
    /// reading order list its mapping.
    pub proof fn lemma_wf(&self)
        requires
            self.wf(),
        ensures
            self@.dom().finite(),
            self@.len() <= self.capacity_spec(),
            lists(self.ordered(), self@),
    {
        lemma_occupied_bounds(self.slots@, self.slots@.len() as int);
        lemma_lists(self.slots@);
    }

    /// Lays out a table of `capacity` empty slots.
    pub fn with_capacity(capacity: usize) -> (store: Self)
        ensures
            store.wf(),
            store.capacity_spec() == capacity,
            store@ == Map::<usize, AllocationRecord<STACK_SIZE>>::empty(),
    {
        let mut slots: Vec<Slot<STACK_SIZE>> = Vec::with_capacity(capacity);
        let mut i: usize = 0;
        while i < capacity
            invariant
                i <= capacity,
                slots@.len() == i,
                forall|k: int| 0 <= k < i ==> slots@[k] is Empty,
            decreases capacity - i,
        {
            slots.push(Slot::Empty);
            i = i + 1;
        }
        let store = RecordStore { slots, live: 0 };
        proof {
            lemma_occupied_bounds(store.slots@, capacity as int);
            lemma_all_empty(store.slots@, capacity as int);
            assert(store@ =~= Map::<usize, AllocationRecord<STACK_SIZE>>::empty());
        }
        store
    }

    /// The number of slots.
    pub fn capacity(&self) -> (n: usize)
        ensures
            n == self.capacity_spec(),
    {
        self.slots.len()
    }

    /// The number of live allocations on record.
    pub fn len(&self) -> (n: usize)
        requires
            self.wf(),
        ensures
            n == self@.len(),
    {
        self.live
    }

    /// Probes for `address`. Gives the slot that holds it, if one does; if
    /// none does, the first slot on the probe's way that is free to take it,
    /// if there is one.
    fn probe(&self, address: usize) -> (found: (Option<usize>, Option<usize>))
        requires
            self.wf(),
            self.slots@.len() > 0,
        ensures
            match found.0 {
                Some(i) => holds(self.slots@, i as int, address),
                None => forall|i: int| !holds(self.slots@, i, address),
            },
            found.0 is None ==> match found.1 {
                Some(j) => {
                    &&& j < self.slots@.len()
                    &&& !(self.slots@[j as int] is Occupied)
                    &&& forall|t: int|
                        0 <= t < step_of(
                            home_slot(address, self.slots@.len() as int),
                            j as int,
                            self.slots@.len() as int,
                        ) ==> !(self.slots@[#[trigger] slot_at(
                            home_slot(address, self.slots@.len() as int),
                            t,
                            self.slots@.len() as int,
                        )] is Empty)
                },
                None => forall|i: int| 0 <= i < self.slots@.len() ==> self.slots@[i] is Occupied,
            },
    {
        let cap = self.slots.len();
        let home = (address / 16) % cap;
        let room = cap - home;
        let mut vacant: Option<usize> = None;
        let mut step: usize = 0;
        while step < cap
            invariant
                self.wf(),
                cap == self.slots@.len(),
                home == home_slot(address, cap as int),
                0 <= home < cap,
                room == cap - home,
                step <= cap,
                forall|t: int|
                    0 <= t < step ==> !holds(
                        self.slots@,
                        #[trigger] slot_at(home as int, t, cap as int),
                        address,
                    ),
                forall|t: int|
                    0 <= t < step ==> !(self.slots@[#[trigger] slot_at(
                        home as int,
                        t,
                        cap as int,
                    )] is Empty),
                match vacant {
                    Some(j) => {
                        &&& j < cap
                        &&& step_of(home as int, j as int, cap as int) < step
                        &&& !(self.slots@[j as int] is Occupied)
                    },
                    None => forall|t: int|
                        0 <= t < step ==> self.slots@[#[trigger] slot_at(
                            home as int,
                            t,
                            cap as int,
                        )] is Occupied,
                },
            decreases cap - step,
        {
            let index = if step < room {
                home + step
            } else {
                step - room
            };
            assert(index == slot_at(home as int, step as int, cap as int));
            match self.slots[index] {
                Slot::Empty => {
                    if vacant.is_none() {
                        vacant = Some(index);
                    }
                    proof {
                        self.lemma_probe_cut(address, step as int);
                    }
                    return (None, vacant);
                },
                Slot::Vacated => {
                    if vacant.is_none() {
                        vacant = Some(index);
                    }
                },
                Slot::Occupied(rec) => {
                    if rec.address == address {
                        return (Some(index), None);
                    }
                },
            }
            step = step + 1;
        }
        proof {
            assert forall|i: int| !holds(self.slots@, i, address) by {
                if 0 <= i < cap {
                    let t = step_of(home as int, i, cap as int);
                    assert(slot_at(home as int, t, cap as int) == i);
                }
            }
            if vacant is None {
                assert forall|i: int| 0 <= i < cap implies self.slots@[i] is Occupied by {
                    let t = step_of(home as int, i, cap as int);
                    assert(slot_at(home as int, t, cap as int) == i);
                }
            }
        }
        (None, vacant)
    }

    /// A probe for `address` that has met no record of it and comes to an
    /// empty slot at step `step` shows that no slot holds the address.
    proof fn lemma_probe_cut(&self, address: usize, step: int)
        requires
            self.wf(),
            self.slots@.len() > 0,
            0 <= step < self.slots@.len(),
            self.slots@[slot_at(
                home_slot(address, self.slots@.len() as int),
                step,
                self.slots@.len() as int,
            )] is Empty,
            forall|t: int|
                0 <= t < step ==> !holds(
                    self.slots@,
                    #[trigger] slot_at(
                        home_slot(address, self.slots@.len() as int),
                        t,
                        self.slots@.len() as int,
                    ),
                    address,
                ),
        ensures
            forall|i: int| !holds(self.slots@, i, address),
    {
        let slots = self.slots@;
        let cap = slots.len() as int;
        let home = home_slot(address, cap);
        assert forall|i: int| !holds(slots, i, address) by {
            if holds(slots, i, address) {
                let t = step_of(home, i, cap);
                assert(slot_at(home, t, cap) == i);
                if t > step {
                    assert(!cut_off(slots, i, step));
                }
            }
        }
    }

    /// Writes `rec` into slot `j`, which either holds the record of the same
    /// address or is the free slot that a probe for the address gave.
    fn write_slot(&mut self, j: usize, rec: AllocationRecord<STACK_SIZE>)
        requires
            old(self).wf(),
            j < old(self).slots@.len(),
            holds(old(self).slots@, j as int, rec.address) || {
                &&& !(old(self).slots@[j as int] is Occupied)
                &&& forall|i: int| !holds(old(self).slots@, i, rec.address)
                &&& forall|t: int|
                    0 <= t < step_of(
                        home_slot(rec.address, old(self).slots@.len() as int),
                        j as int,
                        old(self).slots@.len() as int,
                    ) ==> !(old(self).slots@[#[trigger] slot_at(
                        home_slot(rec.address, old(self).slots@.len() as int),
                        t,
                        old(self).slots@.len() as int,
                    )] is Empty)
            },
        ensures
            final(self).wf(),
            final(self).capacity_spec() == old(self).capacity_spec(),
            final(self)@ == old(self)@.insert(rec.address, rec),
            !old(self)@.contains_key(rec.address) ==> old(self)@.len() < old(self).capacity_spec(),
    {
        let ghost before = self.slots@;
        let ghost cap = before.len() as int;
        assert(self.slots.len() == cap);
        let fresh = match self.slots[j] {
            Slot::Occupied(_) => false,
            _ => true,
        };
        self.slots.set(j, Slot::Occupied(rec));
        proof {
            let after = self.slots@;
            lemma_put(before, j as int, rec);
            lemma_occupied_update(before, j as int, Slot::Occupied(rec), cap);
            lemma_occupied_bounds(before, cap);
            if holds(before, j as int, rec.address) {
                lemma_lookup(before, j as int, rec.address);
            }
            assert forall|i: int, t: int|
                #![trigger cut_off(after, i, t)]
                0 <= i < cap && after[i] is Occupied && 0 <= t < step_of(
                    home_slot(record_of(after[i]).address, cap),
                    i,
                    cap,
                ) implies !cut_off(after, i, t) by {
                let home = home_slot(record_of(after[i]).address, cap);
                let k = slot_at(home, t, cap);
                if i != j || holds(before, j as int, rec.address) {
                    assert(!cut_off(before, i, t));
                }
                assert(!(before[k] is Empty));
            }
        }
        if fresh {
            proof {
                assert(!(before[j as int] is Occupied));
                lemma_occupied_bounds(before, cap);
            }
            self.live = self.live + 1;
        }
    }

    /// Whether a record is kept for `address`.
    pub fn contains(&self, address: usize) -> (known: bool)
        requires
            self.wf(),
        ensures
            known == self@.contains_key(address),
    {
        self.get(address).is_some()
    }

    /// The record kept for `address`, if there is one.
    pub fn get(&self, address: usize) -> (found: Option<AllocationRecord<STACK_SIZE>>)
        requires
            self.wf(),
        ensures
            found == if self@.contains_key(address) {
                Some(self@[address])
            } else {
                None
            },
    {
        if self.slots.len() == 0 {
            return None;
        }
        let (at, _) = self.probe(address);
        match at {
            Some(i) => {
                proof {
                    lemma_lookup(self.slots@, i as int, address);
                }
                match self.slots[i] {
                    Slot::Occupied(rec) => Some(rec),
                    _ => None,
                }
            },
            None => None,
        }
    }

    /// Records `rec` under its address. A record already kept for that
    /// address is replaced. A new address is taken while a slot is free; once
    /// the table is full it is dropped, and nothing that the table holds is
    /// touched. Says whether the record was taken.
    pub fn insert(&mut self, rec: AllocationRecord<STACK_SIZE>) -> (recorded: bool)
        requires
            old(self).wf(),
        ensures
            final(self).wf(),
            final(self).capacity_spec() == old(self).capacity_spec(),
            recorded == (old(self)@.contains_key(rec.address) || old(self)@.len() < old(
                self,
            ).capacity_spec()),
            final(self)@ == inserted(old(self)@, old(self).capacity_spec(), rec),
    {
        if self.slots.len() == 0 {
            return false;
        }
        let (at, vacant) = self.probe(rec.address);
        match at {
            Some(i) => {
                proof {
                    lemma_lookup(self.slots@, i as int, rec.address);
                }
                self.write_slot(i, rec);
                true
            },
            None => match vacant {
                Some(j) => {
                    self.write_slot(j, rec);
                    true
                },
                None => {
                    proof {
                        lemma_occupied_bounds(self.slots@, self.slots@.len() as int);
                    }
                    false
                },
            },
        }
    }

    /// Forgets the record kept for `address`, if there is one, and says
    /// whether there was.
    pub fn remove(&mut self, address: usize) -> (removed: bool)
        requires
            old(self).wf(),
        ensures
            final(self).wf(),
            final(self).capacity_spec() == old(self).capacity_spec(),
            removed == old(self)@.contains_key(address),
            final(self)@ == old(self)@.remove(address),
    {
        if self.slots.len() == 0 {
            assert(self@.remove(address) =~= self@);
            return false;
        }
        let (at, _) = self.probe(address);
        match at {
            Some(i) => {
                let ghost before = self.slots@;
                let ghost cap = before.len() as int;
                let next = if i + 1 < self.slots.len() {
                    i + 1
                } else {
                    0
                };
                let ends_run = match self.slots[next] {
                    Slot::Empty => true,
                    _ => false,
                };
                self.slots.set(i, Slot::Vacated);
                proof {
                    let after = self.slots@;
                    lemma_lookup(before, i as int, address);
                    lemma_vacate(before, i as int, address, Slot::Vacated);
                    lemma_occupied_update(before, i as int, Slot::Vacated, cap);
                    lemma_occupied_bounds(after, cap);
                    assert forall|k: int, t: int|
                        #![trigger cut_off(after, k, t)]
                        0 <= k < cap && after[k] is Occupied && 0 <= t < step_of(
                            home_slot(record_of(after[k]).address, cap),
                            k,
                            cap,
                        ) implies !cut_off(after, k, t) by {
                        assert(!cut_off(before, k, t));
                    }
                }
                self.live = self.live - 1;
                if ends_run {
                    self.empty_run(i);
                }
                true
            },
            None => {
                assert(self@.remove(address) =~= self@);
                false
            },
        }
    }

    /// Empties the slot `last`, which holds no record and is followed by an
    /// empty slot, and with it the vacated slots that lie directly before
    /// it: probes then stop there again. Every other slot stays as it was,
    /// and so do the records.
    fn empty_run(&mut self, last: usize)
        requires
            old(self).wf(),
            last < old(self).slots@.len(),
            !(old(self).slots@[last as int] is Occupied),
            old(self).slots@[next_slot(last as int, old(self).slots@.len() as int)] is Empty,
        ensures
            final(self).wf(),
            final(self).capacity_spec() == old(self).capacity_spec(),
            final(self)@ == old(self)@,
            final(self).slots@.len() == old(self).slots@.len(),
            forall|i: int|
                0 <= i < old(self).slots@.len() ==> #[trigger] final(self).slots@[i] == if in_run(
                    old(self).slots@,
                    last as int,
                    i,
                ) {
                    Slot::Empty
                } else {
                    old(self).slots@[i]
                },
    {
        let cap = self.slots.len();
        let mut index = last;
        let mut left = cap;
        let ghost done: int = 0;
        while left > 0
            invariant
                self.wf(),
                cap == self.slots@.len(),
                cap == old(self).slots@.len(),
                self.capacity_spec() == old(self).capacity_spec(),
                self@ == old(self)@,
                last < cap,
                index < cap,
                0 <= done < cap,
                left == cap - done,
                index == slot_before(last as int, done, cap as int),
                !(self.slots@[index as int] is Occupied),
                self.slots@[next_slot(index as int, cap as int)] is Empty,
                forall|j: int|
                    0 < j <= done ==> old(self).slots@[#[trigger] slot_before(
                        last as int,
                        j,
                        cap as int,
                    )] is Vacated,
                forall|i: int|
                    0 <= i < cap ==> #[trigger] self.slots@[i] == if steps_before(
                        last as int,
                        i,
                        cap as int,
                    ) < done {
                        Slot::Empty
                    } else {
                        old(self).slots@[i]
                    },
            decreases left,
        {
            let ghost before = self.slots@;
            self.slots.set(index, Slot::Empty);
            proof {
                lemma_remark(before, index as int, Slot::Empty);
                lemma_empty_before_empty(before, index as int);
                lemma_occupied_update(before, index as int, Slot::Empty, cap as int);
            }
            let prev = if index == 0 {
                cap - 1
            } else {
                index - 1
            };
            assert(prev == slot_before(last as int, done + 1, cap as int));
            assert forall|i: int| 0 <= i < cap implies #[trigger] self.slots@[i] == if steps_before(
                last as int,
                i,
                cap as int,
            ) < done + 1 {
                Slot::Empty
            } else {
                old(self).slots@[i]
            } by {
                assert(before[i] == if steps_before(last as int, i, cap as int) < done {
                    Slot::Empty
                } else {
                    old(self).slots@[i]
                });
            }
            match self.slots[prev] {
                Slot::Vacated => {},
                _ => {
                    proof {
                        let start = old(self).slots@;
                        assert forall|i: int| 0 <= i < cap implies #[trigger] self.slots@[i]
                            == if in_run(start, last as int, i) {
                            Slot::Empty
                        } else {
                            start[i]
                        } by {
                            let far = steps_before(last as int, i, cap as int);
                            if far > done {
                                if in_run(start, last as int, i) {
                                    assert(start[slot_before(last as int, done + 1, cap as int)] is Vacated);
                                    assert(self.slots@[prev as int] == start[prev as int]);
                                }
                            }
                        }
                    }
                    return ;
                },
            }
            assert(self.slots@[prev as int] is Vacated);
            assert(done + 1 < cap);
            index = prev;
            left = left - 1;
            proof {
                done = done + 1;
            }
        }
    }

    /// Sets the size on the record kept for `address` and leaves its call
    /// stack as it was. Without a record for the address nothing changes.
    /// Says whether there was one.
    pub fn resize(&mut self, address: usize, size: usize) -> (resized: bool)
        requires
            old(self).wf(),
        ensures
            final(self).wf(),
            final(self).capacity_spec() == old(self).capacity_spec(),
            resized == old(self)@.contains_key(address),
            final(self)@ == if resized {
                old(self)@.insert(address, old(self)@[address].resized(size))
            } else {
                old(self)@
            },
    {
        match self.get(address) {
            Some(rec) => {
                let updated = AllocationRecord { size, ..rec };
                self.insert(updated);
                true
            },
            None => false,
        }
    }

    /// Hands the records to `visitor` in reading order, each as address,
    /// size and frames, and stops at once when the visitor answers `false`.
    /// Gives the number of calls made.
    pub fn iterate<F: FnMut(usize, usize, &[usize]) -> bool>(&self, visitor: F) -> (visited: usize)
        requires
            self.wf(),
            forall|address: usize|
                self@.contains_key(address) ==> accepts(visitor, #[trigger] self@[address]),
        ensures
            lists(self.ordered(), self@),
            stops_at(visitor, self.ordered(), visited as int),
    {
        broadcast use vstd::function::group_function_axioms;

        proof {
            self.lemma_wf();
            lemma_records_upto(self.slots@, self.slots@.len() as int);
            lemma_occupied_bounds(self.slots@, self.slots@.len() as int);
        }
        let ghost all = self.ordered();
        let mut call = visitor;
        let mut visited: usize = 0;
        let mut i: usize = 0;
        while i < self.slots.len()
            invariant
                call == visitor,
                self.wf(),
                all == self.ordered(),
                lists(all, self@),
                i <= self.slots@.len(),
                visited == records_upto(self.slots@, i as int).len(),
                visited <= i,
                records_upto(self.slots@, i as int).is_prefix_of(all),
                forall|address: usize|
                    self@.contains_key(address) ==> accepts(visitor, #[trigger] self@[address]),
                forall|k: int| 0 <= k < visited ==> answered(visitor, #[trigger] all[k], true),
            decreases self.slots@.len() - i,
        {
            proof {
                lemma_prefix_grows(self.slots@, i as int + 1, self.slots@.len() as int);
            }
            match self.slots[i] {
                Slot::Occupied(rec) => {
                    let ghost upto = records_upto(self.slots@, i as int + 1);
                    assert(upto == records_upto(self.slots@, i as int).push(rec));
                    assert(all[visited as int] == upto[visited as int]);
                    assert(self@.contains_key(all[visited as int].address));
                    let go = call(rec.address, rec.size, rec.frames());
                    assert(answered(visitor, all[visited as int], go));
                    visited = visited + 1;
                    if !go {
                        return visited;
                    }
                },
                _ => {},
            }
            i = i + 1;
        }
        visited
    }

    /// A copy of every record, in reading order, that shares nothing with
    /// the table.
    pub fn snapshot(&self) -> (records: Vec<AllocationRecord<STACK_SIZE>>)
        requires
            self.wf(),
        ensures
            records@ == self.ordered(),
            lists(records@, self@),
    {
        let mut records: Vec<AllocationRecord<STACK_SIZE>> = Vec::new();
        let mut i: usize = 0;
        while i < self.slots.len()
            invariant
                i <= self.slots@.len(),
                records@ == records_upto(self.slots@, i as int),
            decreases self.slots@.len() - i,
        {
            match self.slots[i] {
                Slot::Occupied(rec) => {
                    records.push(rec);
                },
                _ => {},
            }
            i = i + 1;
        }
        proof {
            self.lemma_wf();
        }
        records
    }
}

} // verus!
