use leak_tracer::store::Slot;
use leak_tracer::tracer::DEFAULT_CAPACITY;
use leak_tracer::{AllocationRecord, LeakTracer, StackBuffer};

fn collect<const K: usize>(tracer: &LeakTracer<K>) -> Vec<(usize, usize, Vec<usize>)> {
    let mut out = Vec::new();
    tracer.now_leaks(|address, size, stack| {
        out.push((address, size, stack.to_vec()));
        true
    });
    out
}

fn addresses<const K: usize>(tracer: &LeakTracer<K>) -> Vec<usize> {
    let mut out: Vec<usize> = collect(tracer).iter().map(|e| e.0).collect();
    out.sort();
    out
}

#[test]
fn it_works() {
    let aa = leak_tracer::LeakTracer::<15>::new();
    assert!(!aa.is_initialized());
    assert!(!aa.is_active());
    assert_eq!(aa.capacity(), DEFAULT_CAPACITY);
    assert_eq!(aa.capacity(), 32768);
    assert_eq!(aa.len(), 0);
}

#[test]
fn init_starts_tracking_and_reports_store_size() {
    let mut tracer = LeakTracer::<10>::with_capacity(64, 0);
    let bytes = tracer.init();
    assert_eq!(bytes, 64 * std::mem::size_of::<Slot<10>>());
    assert!(bytes >= 64 * 12 * std::mem::size_of::<usize>());
    assert!(tracer.is_initialized());
    assert!(tracer.is_active());
    assert_eq!(tracer.len(), 0);
}

#[test]
fn init_size_saturates() {
    let mut tracer = LeakTracer::<4>::with_capacity(0, 0);
    assert_eq!(tracer.init(), 0);
    assert_eq!(tracer.alloc_accounting(8, 0x100), 0x100);
    assert_eq!(tracer.len(), 0);
}

#[test]
fn init_twice_changes_nothing() {
    let mut tracer = LeakTracer::<10>::with_capacity(16, 0);
    let first = tracer.init();
    tracer.alloc_accounting(16, 0x1000);
    tracer.alloc_accounting(24, 0x2000);
    let before = collect(&tracer);
    let second = tracer.init();
    assert_eq!(first, second);
    assert!(tracer.is_active());
    assert_eq!(collect(&tracer), before);

    tracer.pause();
    tracer.init();
    assert!(!tracer.is_active());
    assert_eq!(collect(&tracer), before);
}

#[test]
fn nothing_is_tracked_before_init() {
    let mut tracer = LeakTracer::<10>::with_capacity(16, 0);
    tracer.alloc_accounting(16, 0x1000);
    tracer.dealloc_accounting(0x1000);
    tracer.resume();
    assert!(!tracer.is_active());
    tracer.alloc_accounting(16, 0x2000);
    assert_eq!(tracer.len(), 0);
    assert_eq!(tracer.now_leaks(|_, _, _| true), 0);
    assert_eq!(tracer.get_symbol_name(it_works as usize), None);
}

#[test]
fn two_allocations_one_freed() {
    let mut tracer = LeakTracer::<10>::with_capacity(16, 0);
    tracer.init();
    let a = tracer.alloc_accounting(16, 0x1000);
    let b = tracer.alloc_accounting(32, 0x2000);
    assert_eq!((a, b), (0x1000, 0x2000));
    assert!(tracer.dealloc_accounting(a));
    assert!(!tracer.dealloc_accounting(a));
    assert!(!tracer.dealloc_accounting(0x7000));
    let leaks = collect(&tracer);
    assert_eq!(leaks.len(), 1);
    assert_eq!(leaks[0].0, 0x2000);
    assert_eq!(leaks[0].1, 32);
    assert!(!leaks[0].2.is_empty());
    assert!(leaks[0].2.len() <= 10);
}

#[test]
fn captured_frames_resolve_to_names() {
    let mut tracer = LeakTracer::<32>::with_capacity(16, 0);
    tracer.init();
    tracer.alloc_accounting(32, 0x2000);
    let leaks = collect(&tracer);
    assert_eq!(leaks.len(), 1);
    let names: Vec<String> =
        leaks[0].2.iter().filter_map(|frame| tracer.get_symbol_name(*frame)).collect();
    assert!(!names.is_empty());
    assert!(names.iter().all(|name| !name.is_empty() && name.len() <= 500));
}

#[test]
fn address_without_symbol_has_no_name() {
    let mut tracer = LeakTracer::<10>::with_capacity(16, 0);
    tracer.init();
    assert_eq!(tracer.get_symbol_name(1), None);
}

#[test]
fn live_set_follows_allocations_and_frees() {
    let mut tracer = LeakTracer::<4>::with_capacity(8, 0);
    tracer.init();
    for k in 1..=8usize {
        tracer.alloc_accounting(k, k * 0x10);
    }
    tracer.dealloc_accounting(0x30);
    tracer.dealloc_accounting(0x50);
    tracer.alloc_accounting(99, 0x90);
    tracer.dealloc_accounting(0x10);
    tracer.alloc_accounting(100, 0x30);
    assert_eq!(addresses(&tracer), vec![0x20, 0x30, 0x40, 0x60, 0x70, 0x80, 0x90]);
    assert_eq!(tracer.len(), 7);
    assert_eq!(tracer.get(0x30).map(|r| r.size), Some(100));
    assert_eq!(tracer.get(0x50).map(|r| r.size), None);
}

#[test]
fn failed_allocation_leaves_no_record() {
    let mut tracer = LeakTracer::<4>::with_capacity(8, 0);
    tracer.init();
    assert_eq!(tracer.alloc_accounting(16, 0), 0);
    assert_eq!(tracer.len(), 0);
}

#[test]
fn reused_address_replaces_the_record() {
    let mut tracer = LeakTracer::<4>::with_capacity(8, 0);
    tracer.init();
    tracer.alloc_accounting(16, 0x1000);
    tracer.alloc_accounting(48, 0x1000);
    let leaks = collect(&tracer);
    assert_eq!(leaks.len(), 1);
    assert_eq!((leaks[0].0, leaks[0].1), (0x1000, 48));
}

#[test]
fn pause_and_resume() {
    let mut tracer = LeakTracer::<4>::with_capacity(8, 0);
    tracer.init();
    tracer.alloc_accounting(16, 0x1000);
    tracer.alloc_accounting(16, 0x2000);
    tracer.pause();
    assert!(!tracer.is_active());
    tracer.alloc_accounting(16, 0x3000);
    assert!(!tracer.dealloc_accounting(0x1000));
    assert_eq!(addresses(&tracer), vec![0x1000, 0x2000]);
    tracer.resume();
    assert!(tracer.is_active());
    assert_eq!(addresses(&tracer), vec![0x1000, 0x2000]);
    tracer.dealloc_accounting(0x1000);
    tracer.alloc_accounting(16, 0x4000);
    assert_eq!(addresses(&tracer), vec![0x2000, 0x4000]);
}

#[test]
fn visitor_stops_the_reading() {
    let mut tracer = LeakTracer::<4>::with_capacity(16, 0);
    tracer.init();
    for k in 1..=10usize {
        tracer.alloc_accounting(8, k * 0x100);
    }
    for stop_after in 1..=10usize {
        let mut calls = 0;
        let visited = tracer.now_leaks(|_, _, _| {
            calls += 1;
            calls < stop_after
        });
        assert_eq!(calls, stop_after);
        assert_eq!(visited, stop_after);
    }
    let mut calls = 0;
    let visited = tracer.now_leaks(|_, _, _| {
        calls += 1;
        true
    });
    assert_eq!((calls, visited), (10, 10));
}

#[test]
fn full_table_drops_new_addresses() {
    let mut tracer = LeakTracer::<4>::with_capacity(4, 0);
    tracer.init();
    for k in 1..=4usize {
        tracer.alloc_accounting(k, k * 0x40);
    }
    let before = collect(&tracer);
    assert_eq!(tracer.alloc_accounting(5, 0x500), 0x500);
    assert_eq!(collect(&tracer), before);
    assert_eq!(tracer.len(), 4);
    assert_eq!(tracer.get(0x500).map(|r| r.size), None);
    tracer.alloc_accounting(77, 0x80);
    assert_eq!(tracer.get(0x80).map(|r| r.size), Some(77));
    tracer.dealloc_accounting(0x40);
    tracer.alloc_accounting(5, 0x500);
    assert_eq!(addresses(&tracer), vec![0x80, 0xc0, 0x100, 0x500]);
}

#[test]
fn default_capacity_overflow() {
    let mut tracer = LeakTracer::<2>::new();
    tracer.init();
    let buf = StackBuffer::<2>::from_frames(&[7, 8]);
    for k in 1..=DEFAULT_CAPACITY {
        tracer.record_allocation(k * 16, 1, &buf);
    }
    assert_eq!(tracer.len(), DEFAULT_CAPACITY);
    tracer.record_allocation((DEFAULT_CAPACITY + 1) * 16, 1, &buf);
    assert_eq!(tracer.len(), DEFAULT_CAPACITY);
    assert!(tracer.get((DEFAULT_CAPACITY + 1) * 16).is_none());
    assert!(tracer.get(16).is_some());
    assert!(tracer.get(DEFAULT_CAPACITY * 16).is_some());
}

#[test]
fn reallocation_in_place_keeps_the_stack() {
    let mut tracer = LeakTracer::<4>::with_capacity(8, 0);
    tracer.init();
    let buf = StackBuffer::<4>::from_frames(&[11, 22, 33]);
    tracer.record_allocation(0x1000, 16, &buf);
    assert_eq!(tracer.realloc_accounting(0x1000, 64, 0x1000), 0x1000);
    let rec = tracer.get(0x1000).unwrap();
    assert_eq!(rec.size, 64);
    assert_eq!(rec.frames(), &[11, 22, 33]);
    tracer.realloc_accounting(0x9000, 64, 0x9000);
    assert_eq!(tracer.len(), 1);
}

#[test]
fn reallocation_that_moves_makes_a_new_record() {
    let mut tracer = LeakTracer::<4>::with_capacity(8, 0);
    tracer.init();
    let buf = StackBuffer::<4>::from_frames(&[11, 22, 33]);
    tracer.record_allocation(0x1000, 16, &buf);
    let other = StackBuffer::<4>::from_frames(&[44]);
    tracer.record_reallocation(0x1000, 64, 0x2000, &other);
    assert!(tracer.get(0x1000).is_none());
    let rec = tracer.get(0x2000).unwrap();
    assert_eq!((rec.address, rec.size), (0x2000, 64));
    assert_eq!(rec.frames(), &[44]);
    assert_eq!(tracer.realloc_accounting(0x2000, 128, 0x3000), 0x3000);
    assert_eq!(addresses(&tracer), vec![0x3000]);
    assert!(!tracer.get(0x3000).unwrap().frames().is_empty());
}

#[test]
fn failed_reallocation_keeps_the_old_record() {
    let mut tracer = LeakTracer::<4>::with_capacity(8, 0);
    tracer.init();
    tracer.alloc_accounting(16, 0x1000);
    assert_eq!(tracer.realloc_accounting(0x1000, 1 << 40, 0), 0);
    assert_eq!(tracer.get(0x1000).map(|r| r.size), Some(16));
    assert_eq!(tracer.len(), 1);
}

#[test]
fn snapshot_is_independent_of_the_tracer() {
    let mut tracer = LeakTracer::<4>::with_capacity(8, 0);
    tracer.init();
    tracer.alloc_accounting(16, 0x1000);
    tracer.alloc_accounting(32, 0x2000);
    let snap = tracer.snapshot();
    tracer.dealloc_accounting(0x1000);
    tracer.alloc_accounting(8, 0x3000);
    let mut seen: Vec<(usize, usize)> = snap.iter().map(|r| (r.address, r.size)).collect();
    seen.sort();
    assert_eq!(seen, vec![(0x1000, 16), (0x2000, 32)]);
    assert_eq!(addresses(&tracer), vec![0x2000, 0x3000]);
}

#[test]
fn skipped_frames_are_left_out() {
    let all = StackBuffer::<64>::capture(0);
    let fewer = StackBuffer::<64>::capture(2);
    assert!(all.frames().len() >= 3);
    assert!(fewer.frames().len() < all.frames().len());
    let mut tracer = LeakTracer::<3>::with_capacity(8, 1);
    tracer.init();
    tracer.alloc_accounting(16, 0x1000);
    assert_eq!(tracer.get(0x1000).unwrap().frames().len(), 3);
}

#[test]
fn record_from_frames() {
    let rec = AllocationRecord::<3>::new(0x10, 5, &[1, 2, 3, 4, 5]);
    assert_eq!((rec.address, rec.size, rec.depth), (0x10, 5, 3));
    assert_eq!(rec.frames(), &[1, 2, 3]);
    let short = AllocationRecord::<3>::new(0x20, 6, &[9]);
    assert_eq!(short.frames(), &[9]);
    let none = AllocationRecord::<0>::new(0x30, 7, &[9, 9]);
    assert!(none.frames().is_empty());
    let wide = AllocationRecord::<2> { address: 1, size: 1, depth: 9, stack: [4, 5] };
    assert_eq!(wide.frames(), &[4, 5]);
}
