use leak_tracer::symbol::{name_of_lookup, symbol_name, NAME_CAPACITY};
use leak_tracer::{AllocationRecord, RecordStore, StackBuffer};

fn rec(address: usize, size: usize) -> AllocationRecord<2> {
    AllocationRecord::<2>::new(address, size, &[address + 1, address + 2])
}

fn sorted(store: &RecordStore<2>) -> Vec<(usize, usize)> {
    let mut out: Vec<(usize, usize)> =
        store.snapshot().iter().map(|r| (r.address, r.size)).collect();
    out.sort();
    out
}

#[test]
fn new_store_is_empty() {
    let store = RecordStore::<2>::with_capacity(8);
    assert_eq!(store.capacity(), 8);
    assert_eq!(store.len(), 0);
    assert!(store.snapshot().is_empty());
    assert!(!store.contains(0x10));
}

#[test]
fn store_without_slots_takes_nothing() {
    let mut store = RecordStore::<2>::with_capacity(0);
    assert!(!store.insert(rec(0x10, 1)));
    assert!(!store.remove(0x10));
    assert!(!store.resize(0x10, 4));
    assert!(store.get(0x10).is_none());
    assert_eq!(store.len(), 0);
}

#[test]
fn insert_get_remove() {
    let mut store = RecordStore::<2>::with_capacity(8);
    assert!(store.insert(rec(0x10, 1)));
    assert!(store.insert(rec(0x20, 2)));
    assert!(store.contains(0x10));
    let got = store.get(0x20).unwrap();
    assert_eq!((got.address, got.size), (0x20, 2));
    assert_eq!(got.frames(), &[0x21, 0x22]);
    assert!(store.remove(0x10));
    assert!(!store.remove(0x10));
    assert!(!store.contains(0x10));
    assert_eq!(sorted(&store), vec![(0x20, 2)]);
    assert_eq!(store.len(), 1);
}

#[test]
fn insert_replaces_a_known_address() {
    let mut store = RecordStore::<2>::with_capacity(2);
    assert!(store.insert(rec(0x10, 1)));
    assert!(store.insert(rec(0x20, 2)));
    assert!(store.insert(rec(0x10, 9)));
    assert_eq!(sorted(&store), vec![(0x10, 9), (0x20, 2)]);
    assert_eq!(store.len(), 2);
}

#[test]
fn colliding_addresses_are_kept_apart() {
    // With 4 slots these addresses all start their probe at the same slot.
    let mut store = RecordStore::<2>::with_capacity(4);
    let a = 0x10;
    let b = 0x10 + 4 * 16;
    let c = 0x10 + 8 * 16;
    let d = 0x10 + 12 * 16;
    assert!(store.insert(rec(a, 1)));
    assert!(store.insert(rec(b, 2)));
    assert!(store.insert(rec(c, 3)));
    assert!(store.remove(b));
    assert!(store.contains(c));
    assert!(store.contains(a));
    assert!(!store.contains(b));
    assert!(store.insert(rec(d, 4)));
    assert!(store.insert(rec(b, 5)));
    assert!(!store.insert(rec(0x33, 6)));
    assert_eq!(sorted(&store), vec![(a, 1), (b, 5), (c, 3), (d, 4)]);
    assert!(store.insert(rec(c, 7)));
    assert_eq!(store.get(c).unwrap().size, 7);
    assert_eq!(store.len(), 4);
}

#[test]
fn full_store_drops_and_keeps() {
    let mut store = RecordStore::<2>::with_capacity(3);
    assert!(store.insert(rec(0x10, 1)));
    assert!(store.insert(rec(0x20, 2)));
    assert!(store.insert(rec(0x30, 3)));
    let before = sorted(&store);
    assert!(!store.insert(rec(0x40, 4)));
    assert_eq!(sorted(&store), before);
    assert!(!store.contains(0x40));
    assert!(store.remove(0x20));
    assert!(store.insert(rec(0x40, 4)));
    assert_eq!(sorted(&store), vec![(0x10, 1), (0x30, 3), (0x40, 4)]);
}

#[test]
fn slots_are_used_again_after_many_removals() {
    let mut store = RecordStore::<2>::with_capacity(4);
    for round in 0..100usize {
        let address = 0x1000 + round * 16;
        assert!(store.insert(rec(address, round)));
        assert!(store.contains(address));
        assert!(store.remove(address));
        assert!(!store.contains(address));
    }
    assert_eq!(store.len(), 0);
    for k in 0..4usize {
        assert!(store.insert(rec(k * 16, k)));
    }
    assert_eq!(store.len(), 4);
}

#[test]
fn resize_keeps_the_stack() {
    let mut store = RecordStore::<2>::with_capacity(4);
    store.insert(rec(0x10, 1));
    assert!(store.resize(0x10, 50));
    let got = store.get(0x10).unwrap();
    assert_eq!(got.size, 50);
    assert_eq!(got.frames(), &[0x11, 0x12]);
    assert!(!store.resize(0x20, 50));
    assert_eq!(store.len(), 1);
}

#[test]
fn buffer_skips_then_fills() {
    let mut buf = StackBuffer::<3>::new(2);
    assert!(buf.observe(1));
    assert!(buf.observe(2));
    assert!(buf.frames().is_empty());
    assert!(buf.observe(3));
    assert!(buf.observe(4));
    assert!(!buf.observe(5));
    assert!(!buf.observe(6));
    assert_eq!(buf.frames(), &[3, 4, 5]);
    assert_eq!(buf.skip, 0);
    assert_eq!(buf.depth, 3);
}

#[test]
fn buffer_without_room_ends_the_walk() {
    let mut buf = StackBuffer::<0>::new(3);
    assert!(!buf.observe(1));
    assert!(buf.frames().is_empty());
    assert_eq!(buf.skip, 3);
}

#[test]
fn buffer_from_frames_cuts_off() {
    let buf = StackBuffer::<2>::from_frames(&[5, 6, 7]);
    assert_eq!(buf.frames(), &[5, 6]);
    let short = StackBuffer::<4>::from_frames(&[5]);
    assert_eq!(short.frames(), &[5]);
}

#[test]
fn capture_sees_the_current_stack() {
    let buf = StackBuffer::<8>::capture(0);
    assert!(!buf.frames().is_empty());
    assert!(buf.frames().len() <= 8);
    assert!(buf.frames().iter().all(|frame| *frame != 0));
}

#[test]
fn lookup_without_a_name_is_none() {
    assert_eq!(name_of_lookup(false, String::from("leftover")), None);
    assert_eq!(name_of_lookup(true, String::from("main")), Some(String::from("main")));
    assert_eq!(name_of_lookup(true, String::new()), Some(String::new()));
}

#[test]
fn symbol_name_of_a_frame() {
    let buf = StackBuffer::<32>::capture(0);
    let names: Vec<String> = buf.frames().iter().filter_map(|f| symbol_name(*f)).collect();
    assert!(!names.is_empty());
    assert!(names.iter().all(|name| !name.is_empty() && name.len() <= NAME_CAPACITY));
    assert_eq!(symbol_name(1), None);
}

#[test]
fn iterate_reads_in_place_and_stops() {
    let mut store = RecordStore::<2>::with_capacity(16);
    for k in 1..=6usize {
        store.insert(rec(k * 16, k));
    }
    let mut seen = Vec::new();
    let visited = store.iterate(|address, size, stack| {
        seen.push((address, size, stack.to_vec()));
        true
    });
    assert_eq!(visited, 6);
    seen.sort();
    assert_eq!(seen[0], (16, 1, vec![17, 18]));
    assert_eq!(seen.iter().map(|e| e.0).collect::<Vec<_>>(), vec![16, 32, 48, 64, 80, 96]);
    let order: Vec<usize> = store.snapshot().iter().map(|r| r.address).collect();
    for stop_after in 1..=6usize {
        let mut met = Vec::new();
        let visited = store.iterate(|address, _, _| {
            met.push(address);
            met.len() < stop_after
        });
        assert_eq!(visited, stop_after);
        assert_eq!(met, order[..stop_after].to_vec());
    }
    let empty = RecordStore::<2>::with_capacity(4);
    assert_eq!(empty.iterate(|_, _, _| false), 0);
}

#[test]
fn probes_stop_again_after_removals() {
    // All four addresses start at one slot; taking them out from the far end
    // leaves the table as empty as a new one.
    let mut store = RecordStore::<2>::with_capacity(8);
    let at = |k: usize| 0x20 + k * 8 * 16;
    for k in 0..4usize {
        assert!(store.insert(rec(at(k), k)));
    }
    assert!(store.remove(at(1)));
    assert!(store.remove(at(2)));
    assert!(store.contains(at(3)));
    assert!(store.contains(at(0)));
    assert!(store.remove(at(3)));
    assert!(store.remove(at(0)));
    assert_eq!(store.len(), 0);
    assert!(!store.contains(at(0)));
    for k in 0..8usize {
        assert!(store.insert(rec(k * 16, k)));
    }
    assert!(!store.insert(rec(0x990, 1)));
    assert_eq!(store.len(), 8);
}
