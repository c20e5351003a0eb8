use xross::global::{CHUNK_SIZE, MAX_CHUNKS};
use xross::slab::SLAB_TOTAL_CAPACITY;
use xross::{XrossAlloc, XrossThreadContext, LARGE_THRESHOLD};

const BASE: usize = 1 << 30;

fn fresh(chunks: usize) -> XrossAlloc {
    XrossAlloc::new(BASE, chunks * CHUNK_SIZE)
}

#[test]
fn slab_lifo_reuse() {
    let mut xa = fresh(4);
    let mut ctx = XrossThreadContext::new(11);
    let a1 = xa.allocate(&mut ctx, 8, 8);
    let a2 = xa.allocate(&mut ctx, 8, 8);
    assert_ne!(a1, 0);
    assert_ne!(a2, 0);
    assert_ne!(a1, a2);
    // fresh slots come straight off the cursor, in slot order
    let chunk = ctx.local.as_ref().unwrap().chunk_ptr;
    assert_eq!(a1, chunk + 256);
    assert_eq!(a2, chunk + 264);
    xa.deallocate(&mut ctx, a2, 8, 8);
    let a3 = xa.allocate(&mut ctx, 8, 8);
    assert_eq!(a3, a2);
    // the bump cursor did not move for the reused slot
    let bump = ctx.local.as_ref().unwrap().slabs[0].bump_idx;
    assert_eq!(bump, 2);
}

#[test]
fn owns_separates_regimes() {
    let mut xa = fresh(4);
    let mut ctx = XrossThreadContext::new(7);
    let small = xa.allocate(&mut ctx, 64, 8);
    assert!(xa.global.is_own(small));
    let big = xa.allocate(&mut ctx, LARGE_THRESHOLD + 1, 8);
    assert!(!xa.global.is_own(big));
    for s in &xa.system.live {
        assert!(!xa.global.is_own(s.addr));
    }
}

#[test]
fn round_trip_keeps_state_usable() {
    let mut xa = fresh(4);
    let mut ctx = XrossThreadContext::new(3);
    let a = xa.allocate(&mut ctx, 128, 8);
    assert_ne!(a, 0);
    xa.deallocate(&mut ctx, a, 128, 8);
    let b = xa.allocate(&mut ctx, 128, 8);
    assert_eq!(a, b);
    // and the allocator keeps serving across all classes afterwards
    for size in [8usize, 16, 32, 64, 128, 256, 512, 1024, 2048] {
        let p = xa.allocate(&mut ctx, size, 8);
        assert_ne!(p, 0);
        xa.deallocate(&mut ctx, p, size, 8);
    }
}

#[test]
fn cross_thread_free_is_drained_and_reused() {
    let mut xa = fresh(8);
    let mut ctx_a = XrossThreadContext::new(100);
    let mut ctx_b = XrossThreadContext::new(200);
    let a = xa.allocate(&mut ctx_a, 64, 8);
    assert_ne!(a, 0);
    // a foreign thread frees the block: it lands in its batch first
    xa.deallocate(&mut ctx_b, a, 64, 8);
    assert!(ctx_b.batch.addrs.contains(&a));
    // tearing the foreign context down pushes the batch to the inbox
    xa.teardown(&mut ctx_b);
    let ci = (a - BASE) / CHUNK_SIZE;
    assert!(xa.global.headers[ci].remote_free_list.contains(&a));
    // the owner drains and can hand the very block out again
    let mut local = ctx_a.local.take().unwrap();
    local.process_remote_frees(&mut xa.global);
    ctx_a.local = Some(local);
    assert!(xa.global.headers[ci].remote_free_list.is_empty());
    let b = xa.allocate(&mut ctx_a, 64, 8);
    assert_eq!(a, b);
}

#[test]
fn realloc_same_class_in_place() {
    let mut xa = fresh(4);
    let mut ctx = XrossThreadContext::new(5);
    let a = xa.allocate(&mut ctx, 100, 8);
    assert_ne!(a, 0);
    let b = xa.reallocate(&mut ctx, a, 100, 8, 120);
    assert_eq!(a, b);
}

#[test]
fn realloc_across_classes_moves() {
    let mut xa = fresh(4);
    let mut ctx = XrossThreadContext::new(5);
    let a = xa.allocate(&mut ctx, 100, 8);
    let b = xa.reallocate(&mut ctx, a, 100, 8, 300);
    assert_ne!(b, 0);
    assert_ne!(a, b);
    // the old block was freed: the same class hands it back at once
    let c = xa.allocate(&mut ctx, 100, 8);
    assert_eq!(a, c);
}

#[test]
fn realloc_null_and_zero_degenerate() {
    let mut xa = fresh(4);
    let mut ctx = XrossThreadContext::new(5);
    let a = xa.reallocate(&mut ctx, 0, 0, 8, 64);
    assert_ne!(a, 0);
    let r = xa.reallocate(&mut ctx, a, 64, 8, 0);
    assert_eq!(r, 0);
    // the zero-size resize freed the block: the class hands it back
    let b = xa.allocate(&mut ctx, 64, 8);
    assert_eq!(b, a);
}

#[test]
fn remote_free_batches_flush_at_the_threshold() {
    let mut xa = fresh(8);
    let mut ctx_a = XrossThreadContext::new(100);
    let mut ctx_b = XrossThreadContext::new(200);
    let mut ptrs = Vec::new();
    for _ in 0..17 {
        let p = xa.allocate(&mut ctx_a, 32, 8);
        assert_ne!(p, 0);
        ptrs.push(p);
    }
    for p in &ptrs {
        xa.deallocate(&mut ctx_b, *p, 32, 8);
    }
    // the seventeenth free pushed the first sixteen as one batch
    let ci = (ptrs[0] - BASE) / CHUNK_SIZE;
    let inbox = &xa.global.headers[ci].remote_free_list;
    assert_eq!(inbox.len(), 16);
    assert_eq!(&inbox[..], &ptrs[..16]);
    assert_eq!(ctx_b.batch.addrs, vec![ptrs[16]]);
}

#[test]
fn large_objects_bypass_chunks() {
    let mut xa = fresh(4);
    let mut ctx = XrossThreadContext::new(9);
    let a = xa.allocate(&mut ctx, LARGE_THRESHOLD + 1, 16);
    assert_ne!(a, 0);
    assert!(!xa.global.is_own(a));
    let b = xa.allocate(&mut ctx, 2 * CHUNK_SIZE, 16);
    assert_ne!(b, 0);
    assert!(!xa.global.is_own(b));
}

#[test]
fn mid_sized_requests_use_the_residual_region() {
    let mut xa = fresh(4);
    let mut ctx = XrossThreadContext::new(9);
    // bind a chunk first through the slab path
    let small = xa.allocate(&mut ctx, 8, 8);
    assert_ne!(small, 0);
    let mid = xa.allocate(&mut ctx, 4096, 16);
    assert_ne!(mid, 0);
    assert!(xa.global.is_own(mid));
    let chunk = ctx.local.as_ref().unwrap().chunk_ptr;
    assert!(mid >= chunk + SLAB_TOTAL_CAPACITY);
    assert!(mid + 4096 <= chunk + CHUNK_SIZE);
    xa.deallocate(&mut ctx, mid, 4096, 16);
    // the residual region keeps serving after the free
    let mid2 = xa.allocate(&mut ctx, 4096, 16);
    assert_ne!(mid2, 0);
    assert!(mid2 >= chunk + SLAB_TOTAL_CAPACITY);
    assert!(mid2 + 4096 <= chunk + CHUNK_SIZE);
}

#[test]
fn second_pass_acquires_no_chunk() {
    let mut xa = fresh(MAX_CHUNKS);
    let mut ctx = XrossThreadContext::new(42);
    let mut ptrs = Vec::new();
    for _ in 0..2048 {
        let p = xa.allocate(&mut ctx, 8, 8);
        assert_ne!(p, 0);
        ptrs.push(p);
    }
    let acquired_after_first = xa.global.acquired;
    assert_eq!(acquired_after_first, 1);
    for p in ptrs.drain(..) {
        xa.deallocate(&mut ctx, p, 8, 8);
    }
    for _ in 0..2048 {
        let p = xa.allocate(&mut ctx, 8, 8);
        assert_ne!(p, 0);
        ptrs.push(p);
    }
    assert_eq!(xa.global.acquired, acquired_after_first);
    assert_eq!(xa.global.next, CHUNK_SIZE);
}

#[test]
fn chunk_recycled_through_free_stack() {
    let mut xa = fresh(8);
    let mut ctx1 = XrossThreadContext::new(1);
    let p = xa.allocate(&mut ctx1, 8, 8);
    xa.deallocate(&mut ctx1, p, 8, 8);
    let chunk1 = ctx1.local.as_ref().unwrap().chunk_ptr;
    xa.teardown(&mut ctx1);
    assert_eq!(xa.global.free_chunks.len(), 1);
    // the next thread reuses the freed chunk instead of carving a new one
    let cursor = xa.global.next;
    let mut ctx2 = XrossThreadContext::new(2);
    let q = xa.allocate(&mut ctx2, 8, 8);
    assert_ne!(q, 0);
    assert_eq!(ctx2.local.as_ref().unwrap().chunk_ptr, chunk1);
    assert_eq!(xa.global.next, cursor);
    assert_eq!(xa.global.free_chunks.len(), 0);
}

#[test]
fn many_threads_mixed_sizes_drain_to_zero() {
    let mut xa = fresh(64);
    let mut ctxs: Vec<XrossThreadContext> = (0..32)
        .map(|t| XrossThreadContext::new(1000 + t))
        .collect();
    let sizes = [64usize, 128, 256, 1024];
    for round in 0..6_400_000u32 {
        let t = (round % 32) as usize;
        let size = sizes[(round as usize / 32) % 4];
        let p = xa.allocate(&mut ctxs[t], size, 8);
        assert_ne!(p, 0);
        xa.deallocate(&mut ctxs[t], p, size, 8);
    }
    for ctx in ctxs.iter_mut() {
        xa.teardown(ctx);
        assert!(ctx.local.is_none());
        assert!(ctx.batch.addrs.is_empty());
    }
    // every block was returned: nothing live anywhere, all chunks back
    assert_eq!(xa.system.live.len(), 0);
    assert_eq!(xa.global.free_chunks.len(), 32);
}
