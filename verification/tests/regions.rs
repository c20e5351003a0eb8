use xross::heap::{RawMemory, SystemHeap};
use xross::tlsf::Tlsf;

#[test]
fn raw_memory_range_check() {
    let m = RawMemory { base: 4096, size: 1024, align: 64 };
    assert!(!m.is_own(4095));
    assert!(m.is_own(4096));
    assert!(m.is_own(4096 + 1023));
    assert!(!m.is_own(4096 + 1024));
}

#[test]
fn segregated_fit_first_fit_and_reuse() {
    let mut t = Tlsf::new(10_000, 4096);
    let a = t.allocate(100, 8).unwrap();
    assert_eq!(a % 8, 0);
    let b = t.allocate(200, 16).unwrap();
    assert_eq!(b % 16, 0);
    assert!(a + 100 <= b || b + 200 <= a);
    t.deallocate(a);
    // the freed bytes are servable again
    let c = t.allocate(100, 8).unwrap();
    assert!(c + 100 <= b || b + 200 <= c);
    // with the rest of the region consumed, a freed block is the one
    // that serves an equal request
    let mut tight = Tlsf::new(8192, 512);
    let x = tight.allocate(256, 8).unwrap();
    let y = tight.allocate(200, 8).unwrap();
    assert!(x + 256 <= y || y + 200 <= x);
    tight.deallocate(x);
    let z = tight.allocate(256, 8).unwrap();
    assert_eq!(x, z);
}

#[test]
fn segregated_fit_alignment_splits() {
    let mut t = Tlsf::new(10_001, 4096);
    // the region starts unaligned; the block still comes back aligned
    let a = t.allocate(64, 256).unwrap();
    assert_eq!(a % 256, 0);
    assert!(a >= 10_001);
    assert!(a + 64 <= 10_001 + 4096);
}

#[test]
fn segregated_fit_exhaustion_is_reported() {
    let mut t = Tlsf::new(4096, 256);
    let a = t.allocate(200, 8);
    assert!(a.is_some());
    let b = t.allocate(200, 8);
    assert!(b.is_none());
    t.deallocate(a.unwrap());
    assert!(t.allocate(200, 8).is_some());
}

#[test]
fn system_heap_never_reuses_addresses() {
    let mut h = SystemHeap::new(1 << 40, usize::MAX);
    let a = h.allocate(100, 8).unwrap();
    h.deallocate(a);
    let b = h.allocate(100, 8).unwrap();
    assert_ne!(a, b);
    assert!(b >= a + 100);
    assert_eq!(h.live.len(), 1);
}
