//! A thread-aware chunk allocator, modelled over plain addresses.
//!
//! A fixed backing region is carved into 2 MiB chunks; each thread binds one
//! chunk and serves small requests from per-class slabs, middle-sized requests
//! from a segregated-fit region, and large requests from the system allocator.
//! Frees of foreign chunks travel through per-chunk inboxes that only the
//! owning thread drains.

pub mod all_types;
pub mod arrays;
pub mod bridge;
pub mod enums;
pub mod fast;
pub mod global;
pub mod heap;
pub mod local;
pub mod models;
pub mod metadata;
pub mod ordinal;
pub mod services;
pub mod standalone;
pub mod symbols;
pub mod slab;
pub mod tlsf;

use vstd::prelude::*;

use crate::local::XrossLocalAllocator;

verus! {

/// Requests above this many bytes bypass the chunks and go straight to the
/// system allocator.
pub const LARGE_THRESHOLD: usize = global::CHUNK_SIZE / 2;

/// How many remote frees a batch buffers before it is pushed as a whole.
pub const REMOTE_FREE_BATCH_THRESHOLD: usize = 16;

/// A small per-thread buffer of pointers destined for one foreign chunk's
/// inbox; it amortises pushes by flushing whole batches.
pub struct RemoteFreeBatch {
    /// Base address of the chunk the buffered frees belong to; zero while
    /// the batch is empty.
    pub chunk: usize,
    /// The buffered addresses, oldest first.
    pub addrs: Vec<usize>,
}

/// Everything one thread owns: its identity token, its bound sub-allocator
/// once it has one, and its remote-free batch.
pub struct XrossThreadContext {
    /// This thread's non-zero token.
    pub token: usize,
    /// The bound sub-allocator, present once a chunk has been acquired.
    pub local: Option<XrossLocalAllocator>,
    /// Frees destined for chunks of other threads, not yet flushed.
    pub batch: RemoteFreeBatch,
}

impl XrossThreadContext {
    /// A fresh context for a thread with the given non-zero token.
    pub fn new(token: usize) -> (r: Self)
        requires
            token != 0,
        ensures
            r.token == token,
            r.local is None,
            r.batch.chunk == 0,
            r.batch.addrs@.len() == 0,
    {
        XrossThreadContext { token, local: None, batch: RemoteFreeBatch::new() }
    }
}

/// A batch that can be flushed into the arena: either empty, or aimed at a
/// handed-out, currently owned chunk, holding distinct addresses of that
/// chunk's usable bytes, none of them already sitting in the chunk's inbox.
pub open spec fn spec_batch_ok(g: global::XrossGlobalAllocator, b: RemoteFreeBatch) -> bool {
    b.addrs@.len() == 0 || {
        let ti = g.spec_chunk_index(b.chunk);
        &&& g.spec_valid_chunk(b.chunk)
        &&& g.headers@[ti].owner_id != 0
        &&& forall|k: int|
            0 <= k < b.addrs@.len() ==> b.chunk + slab::CHUNK_HEADER_SIZE <= #[trigger] b.addrs@[k]
                < b.chunk + global::CHUNK_SIZE
        &&& forall|k1: int, k2: int|
            0 <= k1 < k2 < b.addrs@.len() ==> b.addrs@[k1] != b.addrs@[k2]
        &&& forall|k: int|
            0 <= k < b.addrs@.len() ==> !g.headers@[ti].remote_free_list@.contains(
                #[trigger] b.addrs@[k],
            )
    }
}

impl RemoteFreeBatch {
    /// An empty batch aimed at no chunk.
    pub fn new() -> (r: Self)
        ensures
            r.chunk == 0,
            r.addrs@.len() == 0,
    {
        RemoteFreeBatch { chunk: 0, addrs: Vec::new() }
    }

    /// Push the whole batch onto its target chunk's inbox in one step and
    /// reset the batch. A batch that holds nothing does nothing.
    pub fn flush(&mut self, arena: &mut global::XrossGlobalAllocator)
        requires
            old(arena).wf(),
            spec_batch_ok(*old(arena), *old(self)),
        ensures
            final(arena).wf(),
            final(self).chunk == 0,
            final(self).addrs@.len() == 0,
            final(arena).base == old(arena).base,
            final(arena).size == old(arena).size,
            final(arena).next == old(arena).next,
            final(arena).acquired == old(arena).acquired,
            final(arena).free_chunks@ == old(arena).free_chunks@,
            final(arena).headers@.len() == old(arena).headers@.len(),
            old(self).addrs@.len() == 0 ==> final(arena).headers@ == old(arena).headers@,
            old(self).addrs@.len() > 0 ==> {
                let ti = old(arena).spec_chunk_index(old(self).chunk);
                &&& final(arena).headers@[ti].owner_id == old(arena).headers@[ti].owner_id
                &&& final(arena).headers@[ti].remote_free_list@ == old(arena).headers@[ti].remote_free_list@ + old(self).addrs@
                &&& forall|j: int|
                    0 <= j < old(arena).headers@.len() && j != ti ==> final(arena).headers@[j]
                        == old(arena).headers@[j]
            },
    {
        if self.addrs.len() == 0 {
            self.chunk = 0;
            return ;
        }
        proof {
            global::lemma_chunk_index_bounds(*old(arena), self.chunk);
            global::lemma_valid_chunk_below_cursor(*old(arena), self.chunk);
        }
        let ti = (self.chunk - arena.base) / global::CHUNK_SIZE;
        let ghost g = *old(arena);
        let ghost tidx = ti as int;
        let ghost b = *old(self);
        let mut moved: Vec<usize> = Vec::new();
        core::mem::swap(&mut moved, &mut self.addrs);
        let header = &mut arena.headers[ti];
        header.remote_free_list.append(&mut moved);
        self.chunk = 0;
        proof {
            let inbox2 = arena.headers@[tidx].remote_free_list@;
            assert(inbox2 == g.headers@[tidx].remote_free_list@ + b.addrs@);
            // the enlarged inbox still holds distinct, in-chunk addresses
            assert forall|k: int| 0 <= k < inbox2.len() implies arena.spec_in_chunk(
                tidx,
                #[trigger] inbox2[k],
            ) by {
                if k < g.headers@[tidx].remote_free_list@.len() {
                    assert(g.spec_in_chunk(tidx, g.headers@[tidx].remote_free_list@[k]));
                } else {
                    assert(inbox2[k] == b.addrs@[k - g.headers@[tidx].remote_free_list@.len()]);
                    assert(g.spec_chunk_base(tidx) == b.chunk);
                }
            }
            assert forall|k1: int, k2: int|
                0 <= k1 < k2 < inbox2.len() implies inbox2[k1] != inbox2[k2] by {
                let n0 = g.headers@[tidx].remote_free_list@.len();
                if k1 < n0 && k2 < n0 {
                    assert(g.headers@[tidx].remote_free_list@[k1] != g.headers@[
                        tidx
                    ].remote_free_list@[k2]);
                } else if k1 < n0 {
                    assert(inbox2[k2] == b.addrs@[k2 - n0]);
                    if inbox2[k1] == inbox2[k2] {
                        assert(g.headers@[tidx].remote_free_list@.contains(b.addrs@[k2 - n0]));
                    }
                } else {
                    assert(inbox2[k1] == b.addrs@[k1 - n0] && inbox2[k2] == b.addrs@[k2 - n0]);
                }
            }
            // free chunks keep their cleared headers: the target is owned,
            // so it is not one of them
            assert forall|k: int| 0 <= k < arena.free_chunks@.len() implies {
                let i = arena.spec_chunk_index(#[trigger] arena.free_chunks@[k]);
                arena.headers@[i].owner_id == 0 && arena.headers@[i].remote_free_list@.len() == 0
            } by {
                let c2 = arena.free_chunks@[k];
                let i = arena.spec_chunk_index(c2);
                assert(g.free_chunks@[k] == c2);
                assert(g.spec_valid_chunk(c2));
                global::lemma_chunk_index_bounds(g, c2);
                assert(g.headers@[i].owner_id == 0 && g.headers@[i].remote_free_list@.len() == 0);
                if i == tidx {
                    assert(false);
                } else {
                    assert(arena.headers@[i] == g.headers@[i]);
                }
            }
        }
    }

    /// Buffer one freed address aimed at `chunk`; when the batch already
    /// aims elsewhere or has reached the flush threshold, flush it first.
    pub fn add(
        &mut self,
        arena: &mut global::XrossGlobalAllocator,
        ptr: usize,
        chunk: usize,
    )
        requires
            old(arena).wf(),
            spec_batch_ok(*old(arena), *old(self)),
            old(arena).spec_valid_chunk(chunk),
            old(arena).headers@[old(arena).spec_chunk_index(chunk)].owner_id != 0,
            chunk + slab::CHUNK_HEADER_SIZE <= ptr < chunk + global::CHUNK_SIZE,
            !old(arena).headers@[old(arena).spec_chunk_index(chunk)].remote_free_list@.contains(
                ptr,
            ),
            old(self).chunk == chunk ==> !old(self).addrs@.contains(ptr),
        ensures
            final(arena).wf(),
            spec_batch_ok(*final(arena), *final(self)),
            final(self).chunk == chunk,
            final(self).addrs@.contains(ptr),
            final(arena).base == old(arena).base,
            final(arena).size == old(arena).size,
            final(arena).next == old(arena).next,
            final(arena).acquired == old(arena).acquired,
            final(arena).free_chunks@ == old(arena).free_chunks@,
            final(arena).headers@.len() == old(arena).headers@.len(),
            // at most the previous target's inbox has grown, by exactly the
            // old batch, and only when a flush was due
            old(self).chunk == chunk && old(self).addrs@.len() < REMOTE_FREE_BATCH_THRESHOLD ==> {
                &&& final(arena).headers@ == old(arena).headers@
                &&& final(self).addrs@ == old(self).addrs@.push(ptr)
            },
            // a flushing add leaves exactly the one new address buffered,
            // with the old batch appended to its target's inbox
            old(self).chunk != chunk || old(self).addrs@.len() >= REMOTE_FREE_BATCH_THRESHOLD
                ==> {
                &&& final(self).addrs@ == seq![ptr]
                &&& (old(self).addrs@.len() == 0 ==> final(arena).headers@ == old(arena).headers@)
                &&& (old(self).addrs@.len() > 0 ==> {
                    let ti = old(arena).spec_chunk_index(old(self).chunk);
                    final(arena).headers@[ti].remote_free_list@ == old(arena).headers@[ti].remote_free_list@ + old(self).addrs@
                })
            },
            forall|j: int|
                0 <= j < old(arena).headers@.len() && (old(self).addrs@.len() == 0 || j != old(arena).spec_chunk_index(old(self).chunk)) ==> final(arena).headers@[j] == old(arena).headers@[j],
            forall|j: int|
                0 <= j < old(arena).headers@.len() ==> (#[trigger] final(arena).headers@[j]).owner_id
                    == old(arena).headers@[j].owner_id,
    {
        let flushed = self.chunk != chunk || self.addrs.len() >= REMOTE_FREE_BATCH_THRESHOLD;
        if flushed {
            self.flush(arena);
            self.chunk = chunk;
        }
        self.addrs.push(ptr);
        proof {
            let g = *old(arena);
            let b = *old(self);
            let ti = arena.spec_chunk_index(chunk);
            global::lemma_chunk_index_bounds(*arena, chunk);
            assert(self.addrs@.last() == ptr);
            if !flushed {
                assert(*arena == g);
                assert(self.addrs@ == b.addrs@.push(ptr));
                assert(b.addrs@.len() > 0 ==> g.spec_chunk_index(b.chunk) == ti);
                assert forall|k1: int, k2: int|
                    0 <= k1 < k2 < self.addrs@.len() implies self.addrs@[k1]
                        != self.addrs@[k2] by {
                    if k2 == self.addrs@.len() - 1 {
                        assert(self.addrs@[k1] == b.addrs@[k1]);
                        if self.addrs@[k1] == ptr {
                            assert(b.addrs@.contains(ptr));
                        }
                    }
                }
                assert(spec_batch_ok(*arena, *self));
            } else {
                assert(self.addrs@ =~= seq![ptr]);
                if b.addrs@.len() > 0 && b.chunk == chunk {
                    // the old batch was flushed into this very chunk
                    let gti = g.spec_chunk_index(b.chunk);
                    assert(gti == ti);
                    assert(arena.headers@[ti].remote_free_list@ == g.headers@[
                        ti
                    ].remote_free_list@ + b.addrs@);
                    if arena.headers@[ti].remote_free_list@.contains(ptr) {
                        let k = choose|k: int|
                            0 <= k < arena.headers@[ti].remote_free_list@.len() && arena.headers@[
                                ti
                            ].remote_free_list@[k] == ptr;
                        if k < g.headers@[ti].remote_free_list@.len() {
                            assert(g.headers@[ti].remote_free_list@[k] == ptr);
                            assert(g.headers@[ti].remote_free_list@.contains(ptr));
                        } else {
                            assert(b.addrs@[k - g.headers@[ti].remote_free_list@.len()] == ptr);
                            assert(b.addrs@.contains(ptr));
                        }
                        assert(false);
                    }
                } else {
                    // this chunk's inbox is untouched
                    if b.addrs@.len() > 0 {
                        let gti = g.spec_chunk_index(b.chunk);
                        global::lemma_chunk_index_bounds(g, b.chunk);
                        if gti == ti {
                            assert(g.spec_chunk_base(gti) == b.chunk);
                            assert(g.spec_chunk_base(ti) == chunk);
                            assert(b.chunk == chunk);
                            assert(false);
                        }
                        assert(arena.headers@[ti] == g.headers@[ti]);
                    } else {
                        assert(arena.headers@[ti] == g.headers@[ti]);
                    }
                    if arena.headers@[ti].remote_free_list@.contains(ptr) {
                        assert(g.headers@[ti].remote_free_list@.contains(ptr));
                        assert(false);
                    }
                }
                assert(spec_batch_ok(*arena, *self));
            }
        }
    }
}

/// Divisibility carries across a chain of multiples: what `m` divides is
/// also divided by every divisor of `m`.
pub(crate) proof fn lemma_mod_chain(x: int, m: int, d: int)
    requires
        0 <= x,
        0 < m,
        0 < d,
        x % m == 0,
        m % d == 0,
    ensures
        x % d == 0,
{
    vstd::arithmetic::div_mod::lemma_fundamental_div_mod(x, m);
    vstd::arithmetic::div_mod::lemma_fundamental_div_mod(m, d);
    assert(x == d * ((m / d) * (x / m))) by (nonlinear_arith)
        requires
            x == m * (x / m),
            m == d * (m / d),
    ;
    vstd::arithmetic::div_mod::lemma_mod_multiples_basic((m / d) * (x / m), d);
    assert(d * ((m / d) * (x / m)) == ((m / d) * (x / m)) * d) by (nonlinear_arith);
}

/// A sum of two multiples of `d` is a multiple of `d`.
proof fn lemma_mod_sum_zero(x: int, y: int, d: int)
    requires
        0 < d,
        x % d == 0,
        y % d == 0,
    ensures
        (x + y) % d == 0,
{
    vstd::arithmetic::div_mod::lemma_fundamental_div_mod(x, d);
    vstd::arithmetic::div_mod::lemma_fundamental_div_mod(y, d);
    assert(x + y == (x / d + y / d) * d) by (nonlinear_arith)
        requires
            x == d * (x / d),
            y == d * (y / d),
    ;
    vstd::arithmetic::div_mod::lemma_mod_multiples_basic(x / d + y / d, d);
}

/// A multiple of a multiple of `d` is a multiple of `d`.
proof fn lemma_mod_mul_zero(k: int, x: int, d: int)
    requires
        0 < d,
        x % d == 0,
    ensures
        (k * x) % d == 0,
{
    vstd::arithmetic::div_mod::lemma_fundamental_div_mod(x, d);
    assert(k * x == (k * (x / d)) * d) by (nonlinear_arith)
        requires
            x == d * (x / d),
    ;
    vstd::arithmetic::div_mod::lemma_mod_multiples_basic(k * (x / d), d);
}

/// A slot handed out by a slab of class `idx` inside a chunk at `chunk`:
/// where it lies and what alignments it meets.
proof fn lemma_slab_slot_props(chunk: int, idx: int, a: int, align: int)
    requires
        0 <= idx < slab::LAYOUT_LEN,
        chunk % (global::CHUNK_SIZE as int) == 0,
        0 < chunk,
        slab::spec_slab_offset(idx) + chunk <= a,
        (a - (chunk + slab::spec_slab_offset(idx))) % slab::spec_slab_size(idx) == 0,
        (a - (chunk + slab::spec_slab_offset(idx))) / slab::spec_slab_size(idx)
            < slab::spec_slab_len(idx),
        0 < align,
        256int % align == 0,
        slab::spec_slab_size(idx) % align == 0,
    ensures
        a % align == 0,
        a + slab::spec_slab_size(idx) <= chunk + slab::SLAB_TOTAL_CAPACITY,
{
    let sz = slab::spec_slab_size(idx);
    let base = chunk + slab::spec_slab_offset(idx);
    let q = (a - base) / sz;
    vstd::arithmetic::div_mod::lemma_fundamental_div_mod(a - base, sz);
    assert(a == chunk + 256 + idx * 32768 + q * sz);
    slab::lemma_slab_class_full(idx);
    assert(q * sz + sz <= slab::spec_slab_len(idx) * sz) by (nonlinear_arith)
        requires
            q < slab::spec_slab_len(idx),
            0 < sz,
    ;
    assert(idx * 32768 + 32768 <= slab::LAYOUT_LEN * 32768) by (nonlinear_arith)
        requires
            idx < slab::LAYOUT_LEN,
    ;
    // each summand of the address is a multiple of the alignment
    lemma_mod_chain(global::CHUNK_SIZE as int, 256, align);
    lemma_mod_chain(chunk, global::CHUNK_SIZE as int, align);
    lemma_mod_chain(32768, 256, align);
    lemma_mod_mul_zero(idx, 32768, align);
    lemma_mod_mul_zero(q, sz, align);
    assert(0 <= q * sz) by (nonlinear_arith)
        requires
            0 <= q,
            0 < sz,
    ;
    assert(0 <= idx * 32768) by (nonlinear_arith)
        requires
            0 <= idx,
    ;
    lemma_mod_sum_zero(chunk, 256, align);
    lemma_mod_sum_zero(chunk + 256, idx * 32768, align);
    lemma_mod_sum_zero(chunk + 256 + idx * 32768, q * sz, align);
}

/// What slab service may return: a slot that was free beforehand, one
/// whose pending free a drain claimed, or one beyond the old cursor. Never
/// a block the caller was still holding.
pub open spec fn spec_fresh_slab_result(
    l1: XrossLocalAllocator,
    inbox0: Seq<usize>,
    cls: int,
    a: usize,
) -> bool {
    ||| l1.slabs@[cls]@.free.contains(a)
    ||| inbox0.contains(a)
    ||| (a - l1.slabs@[cls]@.base) / slab::spec_slab_size(cls) >= l1.slabs@[cls]@.bump
}

/// The slot at `base + q * sz` has slot number `q`.
proof fn lemma_bump_slot_index(base: int, q: int, sz: int)
    requires
        0 < sz,
        0 <= q,
    ensures
        (base + q * sz - base) / sz == q,
        (base + q * sz - base) % sz == 0,
{
    assert((q * sz) / sz == q && (q * sz) % sz == 0) by (nonlinear_arith)
        requires
            0 < sz,
            0 <= q,
    ;
}

/// No system block starts inside the backing region.
proof fn lemma_no_sys_live_in_region(x: XrossAlloc, a: usize)
    requires
        x.wf(),
        x.global.spec_is_own(a),
    ensures
        !x.system.spec_has_live(a),
{
    if x.system.spec_has_live(a) {
        let k = choose|k: int|
            0 <= k < x.system.live@.len() && (#[trigger] x.system.live@[k]).addr == a;
        assert(x.system.start <= x.system.live@[k].addr);
        assert(false);
    }
}

/// A system address lies outside the backing region.
proof fn lemma_sys_result_outside(x: XrossAlloc, a: usize)
    requires
        x.wf(),
        a >= x.system.start,
    ensures
        !x.global.spec_is_own(a),
{
}

/// The two regimes never alias: no address is at once inside the backing
/// region and the start of a live system block, so ownership of every
/// address is decided by the range check alone.
pub proof fn lemma_regime_separation(x: XrossAlloc, a: usize)
    requires
        x.wf(),
    ensures
        x.global.spec_is_own(a) ==> !x.system.spec_has_live(a),
        x.system.spec_has_live(a) ==> !x.global.spec_is_own(a),
{
    if x.global.spec_is_own(a) {
        lemma_no_sys_live_in_region(x, a);
    }
}

/// A system address differs from every block of an owned chunk.
proof fn lemma_no_own_entry_is_sys(x: XrossAlloc, l: XrossLocalAllocator, a: usize)
    requires
        x.wf(),
        a >= x.system.start,
        x.global.spec_valid_chunk(l.chunk_ptr),
    ensures
        forall|e: usize| #[trigger] local::spec_drain_entry_ok(l, e) ==> e != a,
{
    assert forall|e: usize| #[trigger] local::spec_drain_entry_ok(l, e) implies e != a by {
        assert(e < l.chunk_ptr + global::CHUNK_SIZE);
        assert(l.chunk_ptr + global::CHUNK_SIZE <= x.global.base + x.global.next);
    }
}

/// Addresses inside two distinct chunks never coincide.
proof fn lemma_chunks_distinct_addrs(
    g: global::XrossGlobalAllocator,
    i1: int,
    i2: int,
    a1: usize,
    a2: usize,
)
    requires
        i1 != i2,
        g.spec_chunk_base(i1) <= a1 < g.spec_chunk_base(i1) + global::CHUNK_SIZE,
        g.spec_chunk_base(i2) <= a2 < g.spec_chunk_base(i2) + global::CHUNK_SIZE,
    ensures
        a1 != a2,
{
    let cs = global::CHUNK_SIZE as int;
    if i1 < i2 {
        assert(i1 * cs + cs <= i2 * cs) by (nonlinear_arith)
            requires
                i1 < i2,
                cs > 0,
        ;
    } else {
        assert(i2 * cs + cs <= i1 * cs) by (nonlinear_arith)
            requires
                i2 < i1,
                cs > 0,
        ;
    }
}

/// The dispatcher's shared state: the arena over the backing region, and
/// the modelled system allocator over the addresses above it.
pub struct XrossAlloc {
    /// The chunk manager.
    pub global: global::XrossGlobalAllocator,
    /// The fallback allocator.
    pub system: heap::SystemHeap,
}

impl XrossAlloc {
    /// Well-formedness: both halves sound, and the system range strictly
    /// beyond the backing region, so no address serves two regimes.
    pub open spec fn wf(self) -> bool {
        &&& self.global.wf()
        &&& self.system.wf()
        &&& self.global.base + self.global.size <= self.system.start
    }

    /// The inbox of the chunk a local allocator owns.
    pub open spec fn spec_inbox_of(self, l: XrossLocalAllocator) -> Seq<usize> {
        self.global.headers@[l.spec_chunk_index(self.global)].remote_free_list@
    }

    /// A chunk-resident block the calling thread may free directly: a live
    /// block of its own chunk, with no pending free aimed at it.
    pub open spec fn spec_own_block(self, ctx: XrossThreadContext, a: usize) -> bool {
        match ctx.local {
            Some(l) => local::spec_drain_entry_ok(l, a) && !self.spec_inbox_of(l).contains(a),
            None => false,
        }
    }

    /// Coupling of one thread's context with the shared state: the bound
    /// chunk is a handed-out chunk owned under this thread's token whose
    /// inbox is replayable, and the batch aims at someone else's chunk.
    pub open spec fn ctx_wf(self, ctx: XrossThreadContext) -> bool {
        &&& ctx.token != 0
        &&& match ctx.local {
            Some(l) => {
                &&& l.wf()
                &&& self.global.spec_valid_chunk(l.chunk_ptr)
                &&& self.global.headers@[l.spec_chunk_index(self.global)].owner_id == ctx.token
                &&& local::spec_drain_ok(l, self.spec_inbox_of(l))
            },
            None => true,
        }
        &&& spec_batch_ok(self.global, ctx.batch)
        &&& ctx.batch.addrs@.len() > 0 ==> self.global.headers@[self.global.spec_chunk_index(
            ctx.batch.chunk,
        )].owner_id != ctx.token
    }

    /// A fresh allocator over the backing region `[base, base + size)`; the
    /// modelled system allocator serves from the addresses above it.
    pub fn new(base: usize, size: usize) -> (r: Self)
        requires
            0 < base,
            base as int % (global::CHUNK_SIZE as int) == 0,
            size as int % (global::CHUNK_SIZE as int) == 0,
            base + size < usize::MAX,
        ensures
            r.wf(),
            r.global.base == base,
            r.global.size == size,
            r.global.next == 0,
            r.global.acquired == 0,
            r.global.free_chunks@.len() == 0,
            r.system.start == base + size,
            r.system.next == base + size,
            r.system.limit == usize::MAX,
            r.system.live@.len() == 0,
    {
        let g = global::XrossGlobalAllocator::new(base, size);
        let s = heap::SystemHeap::new(base + size, usize::MAX);
        XrossAlloc { global: g, system: s }
    }

    /// Serve one request: sizes within the slab threshold go to the calling
    /// thread's sub-allocator (binding a chunk on first use, draining the
    /// inbox periodically and once more on a miss), middle sizes to its
    /// segregated-fit region, large sizes straight to the system allocator;
    /// every failure falls through to the next tier. Returns zero only on
    /// exhaustion of every tier.
    #[verifier::rlimit(100)]
    pub fn allocate(&mut self, ctx: &mut XrossThreadContext, size: usize, align: usize) -> (r: usize)
        requires
            old(self).wf(),
            old(self).ctx_wf(*old(ctx)),
            0 < size,
            0 < align,
            size <= slab::SLAB_THRESHOLD ==> 256int % align as int == 0 && slab::spec_slab_size(
                slab::spec_class_for_size(size as int),
            ) % align as int == 0,
        ensures
            final(self).wf(),
            final(self).ctx_wf(*final(ctx)),
            final(ctx).token == old(ctx).token,
            final(ctx).batch == old(ctx).batch,
            final(self).global.base == old(self).global.base,
            final(self).global.size == old(self).global.size,
            final(self).global.headers@.len() == old(self).global.headers@.len(),
            final(self).global.next >= old(self).global.next,
            final(self).system.start == old(self).system.start,
            final(self).system.limit == old(self).system.limit,
            // chunks other than the caller's own are untouched
            forall|j: int|
                0 <= j < old(self).global.headers@.len() && (final(ctx).local is Some ==> j
                    != final(ctx).local->Some_0.spec_chunk_index(final(self).global)) ==> final(self).global.headers@[j] == old(self).global.headers@[j],
            // an existing sub-allocator means no chunk traffic at all
            old(ctx).local is Some ==> final(ctx).local is Some && final(ctx).local->Some_0.chunk_ptr == old(ctx).local->Some_0.chunk_ptr && final(self).global.next == old(self).global.next && final(self).global.free_chunks@ == old(self).global.free_chunks@ && final(self).global.acquired == old(self).global.acquired,
            // a freshly bound chunk was unowned beforehand
            old(ctx).local is None && final(ctx).local is Some ==> old(self).global.headers@[final(ctx).local->Some_0.spec_chunk_index(old(self).global)].owner_id == 0,
            // large objects bypass the chunk machinery entirely
            size > LARGE_THRESHOLD && r != 0 ==> !final(self).global.spec_is_own(r) && final(self).system.spec_has_live(r),
            // success is owed while the fallback has room
            tlsf::spec_align_up(old(self).system.next as int, align as int) + size <= old(self).system.limit ==> r != 0,
            // whatever came back is aligned and lies in exactly one regime
            r != 0 ==> r as int % align as int == 0,
            r != 0 ==> (final(self).system.spec_has_live(r) <==> !final(self).global.spec_is_own(r)),
            // a chunk-resident result lies in the caller's own chunk and is
            // at once a block the caller holds and may free
            r != 0 && final(self).global.spec_is_own(r) ==> final(ctx).local is Some && final(ctx).local->Some_0.chunk_ptr + slab::CHUNK_HEADER_SIZE <= r && r + size <= final(ctx).local->Some_0.chunk_ptr + global::CHUNK_SIZE && final(self).spec_own_block(*final(ctx), r) && final(self).spec_free_target_ok(*final(ctx), r),
            // a system result is fresh against every earlier system block
            r != 0 && !final(self).global.spec_is_own(r) ==> forall|k: int|
                0 <= k < old(self).system.live@.len() ==> tlsf::span_disjoint(
                    tlsf::Span { addr: r, len: size },
                    #[trigger] old(self).system.live@[k],
                ),
            forall|b: usize|
                old(self).system.spec_has_live(b) ==> #[trigger] final(self).system.spec_has_live(
                    b,
                ),
            // blocks the caller already owns stay intact and are never
            // handed out again
            forall|a: usize|
                #[trigger] old(self).spec_own_block(*old(ctx), a) ==> final(self).spec_own_block(
                    *final(ctx),
                    a,
                ) && a != r,
            // a stocked free list guarantees slab service from the chunk
            size <= slab::SLAB_THRESHOLD && old(ctx).local is Some && old(ctx).local->Some_0.slabs@[slab::spec_class_for_size(size as int)]@.free.len() > 0 ==> r
                != 0 && final(self).global.spec_is_own(r),
            // and, short of a drain tick, it serves the most recent free
            size <= slab::SLAB_THRESHOLD && old(ctx).local is Some && old(ctx).local->Some_0.slabs@[slab::spec_class_for_size(size as int)]@.free.len() > 0
                && vstd::wrapping::u32_specs::wrapping_add(
                old(ctx).local->Some_0.alloc_count,
                1,
            ) as int % 128 != 0 ==> {
                let cls = slab::spec_class_for_size(size as int);
                let l0 = old(ctx).local->Some_0;
                &&& r == l0.slabs@[cls]@.free.last()
                &&& final(ctx).local->Some_0.slabs@[cls]@.bump == l0.slabs@[cls]@.bump
                &&& final(ctx).local->Some_0.slabs@[cls]@.free == l0.slabs@[cls]@.free.drop_last()
            },
            // an empty free stack with slots left serves the cursor's slot
            // and advances the cursor by one
            size <= slab::SLAB_THRESHOLD && old(ctx).local is Some && old(ctx).local->Some_0.slabs@[slab::spec_class_for_size(size as int)]@.free.len() == 0
                && old(ctx).local->Some_0.slabs@[slab::spec_class_for_size(size as int)]@.bump < slab::spec_slab_len(slab::spec_class_for_size(size as int))
                && vstd::wrapping::u32_specs::wrapping_add(
                old(ctx).local->Some_0.alloc_count,
                1,
            ) as int % 128 != 0 ==> {
                let cls = slab::spec_class_for_size(size as int);
                let l0 = old(ctx).local->Some_0;
                &&& r != 0
                &&& final(self).global.spec_is_own(r)
                &&& r == l0.slabs@[cls]@.base + l0.slabs@[cls]@.bump * slab::spec_slab_size(cls)
                &&& final(ctx).local->Some_0.slabs@[cls]@.bump == l0.slabs@[cls]@.bump + 1
                &&& final(ctx).local->Some_0.slabs@[cls]@.free == l0.slabs@[cls]@.free
            },
    {
        if size <= slab::SLAB_THRESHOLD {
            if ctx.local.is_none() {
                let got = self.global.alloc_chunk();
                match got {
                    Some(chunk) => {
                        proof {
                            global::lemma_chunk_index_bounds(self.global, chunk);
                        }
                        let l = XrossLocalAllocator::new(&mut self.global, chunk, ctx.token);
                        proof {
                            lemma_mod_sum_zero(
                                chunk - self.global.base,
                                self.global.base as int,
                                global::CHUNK_SIZE as int,
                            );
                            if ctx.batch.addrs@.len() > 0 {
                                global::lemma_chunk_index_bounds(old(self).global, ctx.batch.chunk);
                            }
                        }
                        ctx.local = Some(l);
                    },
                    None => {
                        let sys = self.system.allocate(size, align);
                        match sys {
                            Some(a) => {
                                proof {
                                    lemma_sys_result_outside(*self, a);
                                }
                                return a;
                            },
                            None => {
                                return 0;
                            },
                        }
                    },
                }
            }
            self.small_path(ctx, size, align)
        } else if size > LARGE_THRESHOLD {
            let sys = self.system.allocate(size, align);
            match sys {
                Some(a) => {
                    proof {
                        lemma_sys_result_outside(*old(self), a);
                    }
                    a
                },
                None => 0,
            }
        } else {
            let mut lopt: Option<XrossLocalAllocator> = None;
            core::mem::swap(&mut lopt, &mut ctx.local);
            match lopt {
                Some(mut lstate) => {
                    let ghost sd = lstate;
                    let ghost mid = *self;
                    let ghost l1 = lstate;
                    let ghost inbox0 = mid.spec_inbox_of(l1);
                    let ghost mi = l1.spec_chunk_index(mid.global);
                    proof {
                        global::lemma_chunk_index_bounds(mid.global, l1.chunk_ptr);
                    }
                    let t = lstate.tlsf.allocate(size, align);
                    let r = match t {
                        Some(a) => {
                            proof {
                                assert(a != 0);
                                assert(self.global.spec_is_own(a));
                                lemma_no_sys_live_in_region(*self, a);
                                assert forall|x: usize|
                                    local::spec_drain_entry_ok(l1, x) && !inbox0.contains(
                                        x,
                                    ) implies x != a && local::spec_drain_entry_ok(lstate, x) by {
                                    local::lemma_entry_ok_preserved(
                                        l1,
                                        lstate,
                                        Seq::<usize>::empty(),
                                        x,
                                    );
                                    if x - l1.chunk_ptr < slab::SLAB_TOTAL_CAPACITY {
                                        let cx = slab::spec_class_of_offset(x - l1.chunk_ptr);
                                        slab::lemma_class_of_offset_in_range(x - l1.chunk_ptr);
                                        slab::lemma_slot_in_class(l1.slabs@[cx]@, cx, x);
                                        assert((cx + 1) * 32768 <= 9 * 32768);
                                    } else {
                                        let kb = choose|kb: int|
                                            0 <= kb < l1.tlsf.live@.len() && (
                                            #[trigger] l1.tlsf.live@[kb]).addr == x;
                                        assert(l1.tlsf.span_ok(l1.tlsf.live@[kb]));
                                        assert(tlsf::span_disjoint(
                                            tlsf::Span { addr: a, len: size },
                                            l1.tlsf.live@[kb],
                                        ));
                                    }
                                }
                                assert(local::spec_drain_ok(
                                    lstate,
                                    self.global.headers@[mi].remote_free_list@,
                                )) by {
                                    assert forall|k: int|
                                        0 <= k < inbox0.len() implies local::spec_drain_entry_ok(
                                        lstate,
                                        #[trigger] inbox0[k],
                                    ) by {
                                        assert(local::spec_drain_entry_ok(l1, inbox0[k]));
                                        local::lemma_entry_ok_preserved(
                                            l1,
                                            lstate,
                                            Seq::<usize>::empty(),
                                            inbox0[k],
                                        );
                                    }
                                }
                                assert(lstate.wf());
                                global::lemma_index_of_inner_addr(self.global, mi, a);
                                assert(self.global.spec_chunk_base(mi) == lstate.chunk_ptr);
                                assert(self.global.spec_chunk_index(a) == mi);
                            }
                            a
                        },
                        None => {
                            let sys = self.system.allocate(size, align);
                            match sys {
                                Some(a) => {
                                    proof {
                                        lemma_no_own_entry_is_sys(*self, l1, a);
                                    }
                                    a
                                },
                                None => 0,
                            }
                        },
                    };
                    ctx.local = Some(lstate);
                    r
                },
                None => {
                    let sys = self.system.allocate(size, align);
                    match sys {
                        Some(a) => a,
                        None => 0,
                    }
                },
            }
        }
    }

    /// Whether a chunk-resident address may be freed now, by this thread:
    /// it lies beyond the chunk's header area, inside a handed-out chunk; a
    /// chunk of the caller's own is its bound chunk and the block is one it
    /// holds; a foreign chunk is owned by someone, and no free of this very
    /// block is already pending in its inbox or in the caller's batch.
    pub open spec fn spec_free_target_ok(
        self,
        ctx: XrossThreadContext,
        addr: usize,
    ) -> bool {
        let ci = self.global.spec_chunk_index(addr);
        let cb = self.global.spec_chunk_base(ci);
        &&& cb + slab::CHUNK_HEADER_SIZE <= addr
        &&& self.global.spec_valid_chunk(cb as usize)
        &&& if self.global.headers@[ci].owner_id == ctx.token {
            &&& ctx.local is Some
            &&& ctx.local->Some_0.chunk_ptr == cb
            &&& self.spec_own_block(ctx, addr)
        } else {
            &&& self.global.headers@[ci].owner_id != 0
            &&& !self.global.headers@[ci].remote_free_list@.contains(addr)
            &&& (ctx.batch.chunk == cb ==> !ctx.batch.addrs@.contains(addr))
        }
    }

    /// Free one block. A null address is a no-op; an address outside the
    /// backing region goes back to the system allocator; a block of the
    /// caller's own chunk returns straight to its slab class or to the
    /// segregated fit; a block of a foreign chunk is buffered towards that
    /// chunk's inbox.
    #[verifier::rlimit(100)]
    pub fn deallocate(
        &mut self,
        ctx: &mut XrossThreadContext,
        addr: usize,
        size: usize,
        align: usize,
    )
        requires
            old(self).wf(),
            old(self).ctx_wf(*old(ctx)),
            addr != 0 && !old(self).global.spec_is_own(addr) ==> old(self).system.spec_has_live(
                addr,
            ),
            addr != 0 && old(self).global.spec_is_own(addr) ==> old(self).spec_free_target_ok(
                *old(ctx),
                addr,
            ),
        ensures
            final(self).wf(),
            final(self).ctx_wf(*final(ctx)),
            final(ctx).token == old(ctx).token,
            final(self).global.base == old(self).global.base,
            final(self).global.size == old(self).global.size,
            final(self).global.next == old(self).global.next,
            final(self).global.free_chunks@ == old(self).global.free_chunks@,
            final(self).global.acquired == old(self).global.acquired,
            final(self).system.start == old(self).system.start,
            final(self).system.next == old(self).system.next,
            final(self).system.limit == old(self).system.limit,
            // freeing nothing does nothing
            addr == 0 ==> final(self).global.headers@ == old(self).global.headers@ && final(self).system.live@ == old(self).system.live@ && *final(ctx) == *old(ctx),
            // a foreign-regime block leaves the system allocator for good
            addr != 0 && !old(self).global.spec_is_own(addr) ==> !final(self).system.spec_has_live(addr) && final(self).global.headers@ == old(self).global.headers@ && *final(ctx) == *old(ctx),
            // the system allocator loses only this block
            forall|b: usize|
                b != addr && old(self).system.spec_has_live(b) ==> #[trigger] final(self).system.spec_has_live(b),
            forall|b: usize|
                #[trigger] final(self).system.spec_has_live(b) ==> old(self).system.spec_has_live(
                    b,
                ),
            // a block of the caller's own chunk is at once reusable: a slab
            // slot sits on top of its class's free stack, a residual block
            // stops being live
            addr != 0 && old(self).global.spec_is_own(addr) && old(self).global.headers@[old(self).global.spec_chunk_index(addr)].owner_id == old(ctx).token ==> {
                let l0 = old(ctx).local->Some_0;
                let off = addr - l0.chunk_ptr;
                &&& final(ctx).local is Some
                &&& final(ctx).local->Some_0.chunk_ptr == l0.chunk_ptr
                &&& final(self).global.headers@ == old(self).global.headers@
                &&& final(ctx).batch == old(ctx).batch
                &&& (off < slab::SLAB_TOTAL_CAPACITY ==> final(ctx).local->Some_0.slabs@[slab::spec_class_of_offset(off)]@.free == l0.slabs@[
                    slab::spec_class_of_offset(off)
                ]@.free.push(addr))
                &&& (off >= slab::SLAB_TOTAL_CAPACITY ==> !final(ctx).local->Some_0.tlsf.spec_has_live(addr))
            },
            // a block of a foreign chunk is buffered for its inbox
            addr != 0 && old(self).global.spec_is_own(addr) && old(self).global.headers@[old(self).global.spec_chunk_index(addr)].owner_id != old(ctx).token ==> final(ctx).batch.addrs@.contains(addr) && final(ctx).local == old(ctx).local,
            // every other block the caller holds stays intact
            forall|a: usize|
                a != addr && #[trigger] old(self).spec_own_block(*old(ctx), a) ==> final(self).spec_own_block(*final(ctx), a),
    {
        if addr == 0 {
            return ;
        }
        let own = self.global.is_own(addr);
        if !own {
            self.system.deallocate(addr);
            return ;
        }
        proof {
            global::lemma_addr_chunk_index(self.global, addr);
        }
        let off_in_region = addr - self.global.base;
        let ci = off_in_region / global::CHUNK_SIZE;
        proof {
            let g = self.global;
            let cs = global::CHUNK_SIZE as int;
            vstd::arithmetic::div_mod::lemma_fundamental_div_mod(off_in_region as int, cs);
            vstd::arithmetic::div_mod::lemma_mod_bound(off_in_region as int, cs);
            assert(ci as int == g.spec_chunk_index(addr));
            assert((ci as int) * cs == off_in_region - (off_in_region as int % cs));
            assert(0 <= (ci as int) * cs <= off_in_region);
        }
        let chunk_base = self.global.base + ci * global::CHUNK_SIZE;
        proof {
            let cs = global::CHUNK_SIZE as int;
            assert(chunk_base as int == self.global.spec_chunk_base(ci as int));
            assert(((ci as int) * cs) / cs == ci as int) by (nonlinear_arith)
                requires
                    cs > 0,
                    0 <= ci as int,
            ;
            assert(self.global.spec_chunk_index(chunk_base) == ci as int);
        }
        let owner = self.global.headers[ci].owner_id;
        if owner == local::current_thread_token(ctx) {
            let ghost g0 = *self;
            let ghost ctx0 = *old(ctx);
            let mut lopt: Option<XrossLocalAllocator> = None;
            core::mem::swap(&mut lopt, &mut ctx.local);
            match lopt {
                Some(mut lstate) => {
                    let ghost l1 = lstate;
                    let ghost mi = l1.spec_chunk_index(g0.global);
                    proof {
                        assert(l1.chunk_ptr == chunk_base);
                        assert(mi == ci as int);
                        assert(local::spec_drain_entry_ok(l1, addr));
                    }
                    let off = addr - chunk_base;
                    if off < slab::SLAB_TOTAL_CAPACITY {
                        let idx2 = XrossLocalAllocator::get_slab_idx_from_offset(off);
                        let sl = &mut lstate.slabs[idx2];
                        sl.deallocate(addr);
                        proof {
                            let cls = idx2 as int;
                            slab::lemma_slab_dealloc_wf(l1.slabs@[cls]@, cls, addr);
                            assert(lstate.slabs@ =~= l1.slabs@.update(
                                cls,
                                lstate.slabs@[cls],
                            ));
                            assert forall|i: int| 0 <= i < slab::LAYOUT_LEN implies (
                            #[trigger] lstate.slabs@[i])@.wf(i) by {
                                if i != cls {
                                    assert(lstate.slabs@[i] == l1.slabs@[i]);
                                }
                            }
                            assert(lstate.wf());
                            // the inbox stays replayable and other blocks
                            // stay intact: the free stack grew only by the
                            // freed slot itself
                            assert forall|e: usize|
                                local::spec_drain_entry_ok(l1, e) && e != addr implies
                            local::spec_drain_entry_ok(lstate, e) by {
                                if e - l1.chunk_ptr < slab::SLAB_TOTAL_CAPACITY {
                                    let c2 = slab::spec_class_of_offset(e - l1.chunk_ptr);
                                    if c2 == cls {
                                        assert(lstate.slabs@[cls]@.free == l1.slabs@[
                                            cls
                                        ]@.free.push(addr));
                                        if lstate.slabs@[c2]@.free.contains(e) {
                                            let k = choose|k: int|
                                                0 <= k < lstate.slabs@[c2]@.free.len()
                                                    && lstate.slabs@[c2]@.free[k] == e;
                                            if k < l1.slabs@[c2]@.free.len() {
                                                assert(l1.slabs@[c2]@.free.contains(e));
                                            }
                                            assert(false);
                                        }
                                    } else {
                                        assert(lstate.slabs@[c2] == l1.slabs@[c2]);
                                    }
                                }
                            }
                            assert(local::spec_drain_ok(
                                lstate,
                                g0.global.headers@[mi].remote_free_list@,
                            )) by {
                                assert forall|k: int|
                                    0 <= k < g0.global.headers@[mi].remote_free_list@.len() implies
                                local::spec_drain_entry_ok(
                                    lstate,
                                    #[trigger] g0.global.headers@[mi].remote_free_list@[k],
                                ) by {
                                    let e = g0.global.headers@[mi].remote_free_list@[k];
                                    assert(local::spec_drain_entry_ok(l1, e));
                                    assert(e != addr);
                                }
                            }
                        }
                    } else {
                        lstate.tlsf.deallocate(addr);
                        proof {
                            assert(lstate.wf());
                            assert forall|e: usize|
                                local::spec_drain_entry_ok(l1, e) && e != addr implies
                            local::spec_drain_entry_ok(lstate, e) by {
                                if e - l1.chunk_ptr >= slab::SLAB_TOTAL_CAPACITY {
                                    assert(l1.tlsf.spec_has_live(e));
                                }
                            }
                            assert(local::spec_drain_ok(
                                lstate,
                                g0.global.headers@[mi].remote_free_list@,
                            )) by {
                                assert forall|k: int|
                                    0 <= k < g0.global.headers@[mi].remote_free_list@.len() implies
                                local::spec_drain_entry_ok(
                                    lstate,
                                    #[trigger] g0.global.headers@[mi].remote_free_list@[k],
                                ) by {
                                    let e = g0.global.headers@[mi].remote_free_list@[k];
                                    assert(local::spec_drain_entry_ok(l1, e));
                                    assert(e != addr);
                                }
                            }
                        }
                    }
                    ctx.local = Some(lstate);
                },
                None => {
                    proof {
                        assert(false);
                    }
                },
            }
        } else {
            proof {
                global::lemma_chunk_index_bounds(self.global, chunk_base);
            }
            ctx.batch.add(&mut self.global, addr, chunk_base);
            proof {
                let g0 = *old(self);
                let ci0 = ci as int;
                // the caller's own chunk was untouched: the batch cannot
                // have been aimed at it
                if old(ctx).local is Some {
                    let l0 = old(ctx).local->Some_0;
                    let mi = l0.spec_chunk_index(g0.global);
                    global::lemma_chunk_index_bounds(g0.global, l0.chunk_ptr);
                    assert(g0.global.headers@[mi].owner_id == ctx.token);
                    assert(ci0 != mi);
                    if old(ctx).batch.addrs@.len() > 0 {
                        let ti = g0.global.spec_chunk_index(old(ctx).batch.chunk);
                        assert(g0.global.headers@[ti].owner_id != ctx.token);
                        assert(ti != mi);
                    }
                    assert(self.global.headers@[mi] == g0.global.headers@[mi]);
                    assert(local::spec_drain_ok(l0, self.spec_inbox_of(l0)));
                }
                assert(self.global.headers@[ci0].owner_id != ctx.token);
            }
        }
    }

    /// Whether two sizes resolve to the same slab class, so that a resize
    /// between them can reuse the block in place.
    pub open spec fn spec_same_class(size: int, new_size: int) -> bool {
        &&& size <= slab::SLAB_THRESHOLD
        &&& new_size <= slab::SLAB_THRESHOLD
        &&& slab::spec_class_for_size(size) == slab::spec_class_for_size(new_size)
    }

    /// Resize one block. A null address degenerates to a plain allocation
    /// and a zero new size to a plain free. A chunk-resident block resized
    /// within its own slab class is reused in place; every other resize
    /// allocates anew and frees the old block, which therefore comes back
    /// under a different address.
    #[verifier::rlimit(100)]
    pub fn reallocate(
        &mut self,
        ctx: &mut XrossThreadContext,
        addr: usize,
        size: usize,
        align: usize,
        new_size: usize,
    ) -> (r: usize)
        requires
            old(self).wf(),
            old(self).ctx_wf(*old(ctx)),
            0 < align,
            addr == 0 || new_size != 0 ==> 0 < new_size,
            new_size <= slab::SLAB_THRESHOLD ==> 256int % align as int == 0
                && slab::spec_slab_size(slab::spec_class_for_size(new_size as int)) % align as int
                == 0,
            addr != 0 ==> 0 < size && addr as int % align as int == 0,
            addr != 0 && !old(self).global.spec_is_own(addr) ==> old(self).system.spec_has_live(
                addr,
            ),
            addr != 0 && old(self).global.spec_is_own(addr) ==> old(self).spec_free_target_ok(
                *old(ctx),
                addr,
            ),
        ensures
            final(self).wf(),
            final(self).ctx_wf(*final(ctx)),
            final(ctx).token == old(ctx).token,
            final(self).global.base == old(self).global.base,
            final(self).global.size == old(self).global.size,
            final(self).system.start == old(self).system.start,
            final(self).system.limit == old(self).system.limit,
            // resizing within the same slab class reuses the block in place
            addr != 0 && new_size != 0 && old(self).global.spec_is_own(addr)
                && Self::spec_same_class(size as int, new_size as int) ==> r == addr && final(self).global.headers@ == old(self).global.headers@ && final(self).system.live@ == old(self).system.live@ && *final(ctx) == *old(ctx),
            // a zero new size frees the block and returns null
            addr != 0 && new_size == 0 ==> r == 0,
            // everything that moves comes back under a fresh address
            addr != 0 && new_size != 0 && r != 0 && !(old(self).global.spec_is_own(addr)
                && Self::spec_same_class(size as int, new_size as int)) ==> r != addr,
            r != 0 ==> r as int % align as int == 0,
            // whatever came back lies in exactly one regime
            r != 0 ==> (final(self).system.spec_has_live(r) <==> !final(self).global.spec_is_own(r)),
            // success is owed while the fallback has room, whenever a block
            // is asked for at all
            new_size != 0 && tlsf::spec_align_up(old(self).system.next as int, align as int) + new_size <= old(self).system.limit ==> r != 0,
            // a move and a zero new size both free the old block: a system
            // block stops being live
            addr != 0 && !old(self).global.spec_is_own(addr) && (new_size == 0 || r != 0) ==> !final(self).system.spec_has_live(addr),
            // ... and a chunk block lands exactly where a direct free puts
            // it: on top of its class's free stack, out of the residual live
            // set, or buffered for the foreign chunk's inbox
            addr != 0 && old(self).global.spec_is_own(addr) && (new_size == 0 || (r != 0
                && !Self::spec_same_class(size as int, new_size as int))) ==> ({
                let ci = old(self).global.spec_chunk_index(addr);
                if old(self).global.headers@[ci].owner_id == old(ctx).token {
                    let off = addr - old(ctx).local->Some_0.chunk_ptr;
                    &&& final(ctx).local is Some
                    &&& (off < slab::SLAB_TOTAL_CAPACITY ==> final(ctx).local->Some_0.slabs@[slab::spec_class_of_offset(off)]@.free.len() > 0 && final(ctx).local->Some_0.slabs@[slab::spec_class_of_offset(off)]@.free.last() == addr)
                    &&& (off >= slab::SLAB_TOTAL_CAPACITY ==> !final(ctx).local->Some_0.tlsf.spec_has_live(addr))
                } else {
                    final(ctx).batch.addrs@.contains(addr)
                }
            }),
            // a failed move leaves the old block untouched and still the
            // caller's to free
            addr != 0 && new_size != 0 && r == 0 ==> (!old(self).global.spec_is_own(addr)
                ==> final(self).system.spec_has_live(addr)) && (old(self).global.spec_is_own(addr)
                ==> final(self).spec_free_target_ok(*final(ctx), addr)),
            // resizing a foreign-regime block never touches the chunk
            // machinery or the context
            addr != 0 && new_size != 0 && !old(self).global.spec_is_own(addr) ==> final(self).global.headers@ == old(self).global.headers@ && final(self).global.next == old(self).global.next && final(self).global.free_chunks@ == old(self).global.free_chunks@ && final(self).global.acquired == old(self).global.acquired && *final(ctx) == *old(ctx),
    {
        if addr == 0 {
            return self.allocate(ctx, new_size, align);
        }
        if new_size == 0 {
            self.deallocate(ctx, addr, size, align);
            return 0;
        }
        let own = self.global.is_own(addr);
        if !own {
            // the system allocator moves the block: fresh storage on
            // success, the old block untouched on failure
            let sys = self.system.allocate(new_size, align);
            match sys {
                Some(np) => {
                    proof {
                        let k = choose|k: int|
                            0 <= k < old(self).system.live@.len() && (#[trigger] old(self).system.live@[k]).addr == addr;
                        assert(tlsf::span_disjoint(
                            tlsf::Span { addr: np, len: new_size },
                            old(self).system.live@[k],
                        ));
                        assert(np != addr);
                        assert(self.system.spec_has_live(addr));
                    }
                    self.system.deallocate(addr);
                    proof {
                        assert(self.system.spec_has_live(np));
                        lemma_sys_result_outside(*self, np);
                    }
                    np
                },
                None => 0,
            }
        } else {
            if size <= slab::SLAB_THRESHOLD && new_size <= slab::SLAB_THRESHOLD {
                let oi = slab::get_slab_idx(size);
                let ni = slab::get_slab_idx(new_size);
                if oi == ni {
                    proof {
                        lemma_no_sys_live_in_region(*self, addr);
                    }
                    return addr;
                }
            }
            let ghost g0 = *self;
            let ghost ctx0 = *old(ctx);
            let ghost ci = g0.global.spec_chunk_index(addr);
            let np = self.allocate(ctx, new_size, align);
            proof {
                // whether or not the move found room, the old block is
                // still the caller's to free: chunks other than the
                // caller's own were untouched, and a block of the caller's
                // own chunk was preserved
                let cs = global::CHUNK_SIZE as int;
                global::lemma_addr_chunk_index(g0.global, addr);
                let cb = g0.global.spec_chunk_base(ci);
                global::lemma_chunk_index_bounds(g0.global, (cb as usize));
                assert(self.global.spec_is_own(addr));
                if g0.global.headers@[ci].owner_id == ctx0.token {
                    let l0 = ctx0.local->Some_0;
                    assert(g0.spec_own_block(ctx0, addr));
                    assert(self.spec_own_block(*ctx, addr) && addr != np);
                    assert(ctx.local->Some_0.chunk_ptr == l0.chunk_ptr);
                    global::lemma_chunk_index_bounds(g0.global, l0.chunk_ptr);
                    assert(g0.global.spec_chunk_base(l0.spec_chunk_index(g0.global))
                        == l0.chunk_ptr);
                    assert(l0.chunk_ptr == cb);
                    assert(ci * cs == l0.spec_chunk_index(g0.global) * cs);
                    assert(ci == l0.spec_chunk_index(g0.global)) by (nonlinear_arith)
                        requires
                            ci * cs == l0.spec_chunk_index(g0.global) * cs,
                            cs > 0,
                    ;
                    assert(ctx.local->Some_0.spec_chunk_index(self.global) == ci);
                    assert(self.global.headers@[ci].owner_id == ctx.token);
                    assert(self.spec_free_target_ok(*ctx, addr));
                } else {
                    // whichever chunk the caller is bound to now, it is
                    // not this foreign one
                    if ctx.local is Some {
                        let lf = ctx.local->Some_0;
                        let fi = lf.spec_chunk_index(self.global);
                        global::lemma_chunk_index_bounds(self.global, lf.chunk_ptr);
                        if ctx0.local is Some {
                            assert(lf.chunk_ptr == ctx0.local->Some_0.chunk_ptr);
                            let i0 = ctx0.local->Some_0.spec_chunk_index(g0.global);
                            assert(g0.global.headers@[i0].owner_id == ctx0.token);
                            assert(fi == i0);
                            assert(fi != ci);
                        } else {
                            assert(g0.global.headers@[fi].owner_id == 0);
                            assert(fi != ci);
                        }
                        assert(self.global.headers@[ci] == g0.global.headers@[ci]);
                    } else {
                        assert(self.global.headers@[ci] == g0.global.headers@[ci]);
                    }
                    assert(ctx.batch == ctx0.batch);
                    assert(self.spec_free_target_ok(*ctx, addr));
                    // and the freshly served block cannot be the old one:
                    // it lies in the caller's chunk or in the system range,
                    // never in this foreign chunk
                    if np != 0 {
                        if self.global.spec_is_own(np) {
                            let lf = ctx.local->Some_0;
                            let fi = lf.spec_chunk_index(self.global);
                            global::lemma_chunk_index_bounds(self.global, lf.chunk_ptr);
                            assert(self.global.spec_chunk_base(fi) <= np < self.global
                                .spec_chunk_base(fi) + global::CHUNK_SIZE);
                            assert(self.global.spec_chunk_base(ci) <= addr < self.global
                                .spec_chunk_base(ci) + global::CHUNK_SIZE);
                            lemma_chunks_distinct_addrs(self.global, fi, ci, np, addr);
                        } else {
                            assert(self.system.spec_has_live(np));
                            assert(np != addr);
                        }
                    }
                }
            }
            if np != 0 {
                let ghost mid2 = *self;
                let ghost ctx2 = *ctx;
                self.deallocate(ctx, addr, size, align);
                proof {
                    // the moved-to block keeps its regime
                    assert(np != addr);
                    if self.global.spec_is_own(np) {
                        lemma_no_sys_live_in_region(*self, np);
                    } else {
                        assert(mid2.system.spec_has_live(np));
                        assert(self.system.spec_has_live(np));
                    }
                    // the freeing landed exactly as a direct free does:
                    // the dispatch on the owner is the same before and
                    // after the move
                    assert(mid2.global.headers@[ci].owner_id == g0.global.headers@[ci].owner_id);
                    if g0.global.headers@[ci].owner_id == ctx0.token {
                        assert(ctx2.local->Some_0.chunk_ptr == ctx0.local->Some_0.chunk_ptr);
                    }
                }
            }
            np
        }
    }

    /// Tear down one thread's context at thread exit: push any buffered
    /// remote frees, then drain the bound chunk one final time and hand it
    /// back to the arena's free stack.
    pub fn teardown(&mut self, ctx: &mut XrossThreadContext)
        requires
            old(self).wf(),
            old(self).ctx_wf(*old(ctx)),
        ensures
            final(self).wf(),
            final(self).ctx_wf(*final(ctx)),
            final(ctx).token == old(ctx).token,
            final(ctx).local is None,
            final(ctx).batch.addrs@.len() == 0,
            final(self).global.base == old(self).global.base,
            final(self).global.size == old(self).global.size,
            final(self).global.next == old(self).global.next,
            final(self).system == old(self).system,
            old(ctx).local is Some ==> final(self).global.free_chunks@ == old(self).global.free_chunks@.push(old(ctx).local->Some_0.chunk_ptr),
            old(ctx).local is None ==> final(self).global.free_chunks@ == old(self).global.free_chunks@,
    {
        proof {
            if old(ctx).local is Some {
                let l0 = old(ctx).local->Some_0;
                global::lemma_chunk_index_bounds(old(self).global, l0.chunk_ptr);
            }
        }
        ctx.batch.flush(&mut self.global);
        proof {
            if old(ctx).local is Some {
                let l0 = old(ctx).local->Some_0;
                let mi = l0.spec_chunk_index(old(self).global);
                if old(ctx).batch.addrs@.len() > 0 {
                    let ti = old(self).global.spec_chunk_index(old(ctx).batch.chunk);
                    assert(old(self).global.headers@[ti].owner_id != ctx.token);
                    assert(old(self).global.headers@[mi].owner_id == ctx.token);
                    assert(ti != mi);
                }
                assert(self.global.headers@[mi] == old(self).global.headers@[mi]);
                assert(local::spec_drain_ok(l0, self.spec_inbox_of(l0)));
            }
        }
        let mut lopt: Option<XrossLocalAllocator> = None;
        core::mem::swap(&mut lopt, &mut ctx.local);
        match lopt {
            Some(lstate) => {
                lstate.release(&mut self.global);
            },
            None => {},
        }
    }

    /// The slab tier for a thread that already holds a chunk: count the
    /// allocation, drain the inbox every so often, serve from the class's
    /// slab, force one drain and retry on a miss, then fall through to the
    /// segregated fit and finally the system allocator.
    #[verifier::rlimit(100)]
    fn small_path(&mut self, ctx: &mut XrossThreadContext, size: usize, align: usize) -> (r: usize)
        requires
            old(self).wf(),
            old(self).ctx_wf(*old(ctx)),
            old(ctx).local is Some,
            0 < size <= slab::SLAB_THRESHOLD,
            0 < align,
            256int % align as int == 0,
            slab::spec_slab_size(slab::spec_class_for_size(size as int)) % align as int == 0,
        ensures
            final(self).wf(),
            final(self).ctx_wf(*final(ctx)),
            final(ctx).token == old(ctx).token,
            final(ctx).batch == old(ctx).batch,
            final(self).global.base == old(self).global.base,
            final(self).global.size == old(self).global.size,
            final(self).system.start == old(self).system.start,
            final(self).system.limit == old(self).system.limit,
            final(ctx).local is Some,
            final(ctx).local->Some_0.chunk_ptr == old(ctx).local->Some_0.chunk_ptr,
            final(self).global.headers@.len() == old(self).global.headers@.len(),
            forall|j: int|
                0 <= j < old(self).global.headers@.len() && j != old(ctx).local->Some_0.spec_chunk_index(old(self).global) ==> final(self).global.headers@[j] == old(self).global.headers@[j],
            final(self).global.next == old(self).global.next,
            final(self).global.free_chunks@ == old(self).global.free_chunks@,
            final(self).global.acquired == old(self).global.acquired,
            tlsf::spec_align_up(old(self).system.next as int, align as int) + size <= old(self).system.limit ==> r != 0,
            r != 0 ==> r as int % align as int == 0,
            r != 0 ==> (final(self).system.spec_has_live(r) <==> !final(self).global.spec_is_own(r)),
            r != 0 && final(self).global.spec_is_own(r) ==> final(ctx).local is Some && final(ctx).local->Some_0.chunk_ptr + slab::CHUNK_HEADER_SIZE <= r && r + size <= final(ctx).local->Some_0.chunk_ptr + global::CHUNK_SIZE && final(self).spec_own_block(*final(ctx), r) && final(self).spec_free_target_ok(*final(ctx), r),
            r != 0 && !final(self).global.spec_is_own(r) ==> forall|k: int|
                0 <= k < old(self).system.live@.len() ==> tlsf::span_disjoint(
                    tlsf::Span { addr: r, len: size },
                    #[trigger] old(self).system.live@[k],
                ),
            forall|b: usize|
                old(self).system.spec_has_live(b) ==> #[trigger] final(self).system.spec_has_live(b),
            forall|a: usize|
                #[trigger] old(self).spec_own_block(*old(ctx), a) ==> final(self).spec_own_block(*final(ctx), a) && a != r,
            old(ctx).local->Some_0.slabs@[slab::spec_class_for_size(size as int)]@.free.len() > 0
                ==> r != 0 && final(self).global.spec_is_own(r),
            old(ctx).local->Some_0.slabs@[slab::spec_class_for_size(size as int)]@.free.len() > 0
                && vstd::wrapping::u32_specs::wrapping_add(old(ctx).local->Some_0.alloc_count, 1) as int % 128 != 0 ==> ({
                let cls = slab::spec_class_for_size(size as int);
                let l0 = old(ctx).local->Some_0;
                &&& r == l0.slabs@[cls]@.free.last()
                &&& final(ctx).local->Some_0.slabs@[cls]@.bump == l0.slabs@[cls]@.bump
                &&& final(ctx).local->Some_0.slabs@[cls]@.free == l0.slabs@[cls]@.free.drop_last()
            }),
            // an empty free stack with slots left serves the cursor's slot
            // and advances the cursor by one
            old(ctx).local->Some_0.slabs@[slab::spec_class_for_size(size as int)]@.free.len() == 0
                && old(ctx).local->Some_0.slabs@[slab::spec_class_for_size(size as int)]@.bump < slab::spec_slab_len(slab::spec_class_for_size(size as int))
                && vstd::wrapping::u32_specs::wrapping_add(old(ctx).local->Some_0.alloc_count, 1) as int % 128 != 0 ==> ({
                let cls = slab::spec_class_for_size(size as int);
                let l0 = old(ctx).local->Some_0;
                &&& r != 0
                &&& final(self).global.spec_is_own(r)
                &&& r == l0.slabs@[cls]@.base + l0.slabs@[cls]@.bump * slab::spec_slab_size(cls)
                &&& final(ctx).local->Some_0.slabs@[cls]@.bump == l0.slabs@[cls]@.bump + 1
                &&& final(ctx).local->Some_0.slabs@[cls]@.free == l0.slabs@[cls]@.free
            }),
    {
        let mut lopt: Option<XrossLocalAllocator> = None;
        core::mem::swap(&mut lopt, &mut ctx.local);
        match lopt {
            None => {
                proof {
                    assert(false);
                }
                0
            },
            Some(mut lstate) => {
                let ghost mid = *self;
                let ghost l1 = lstate;
                let ghost inbox0 = mid.spec_inbox_of(l1);
                let ghost mi = l1.spec_chunk_index(mid.global);
                proof {
                    // the coupling facts hold here whichever way in: by
                    // the caller's obligation, or by the fresh binding
                    assert(l1.wf());
                    assert(mid.global.spec_valid_chunk(l1.chunk_ptr));
                    assert(mid.global.headers@[mi].owner_id == ctx.token);
                    assert(local::spec_drain_ok(l1, inbox0));
                    assert(spec_batch_ok(mid.global, ctx.batch));
                    global::lemma_chunk_index_bounds(mid.global, l1.chunk_ptr);
                    if old(ctx).local is Some {
                        assert(mid.global == old(self).global);
                    }
                }
                lstate.alloc_count = lstate.alloc_count.wrapping_add(1);
                let drained1 = lstate.alloc_count % 128 == 0;
                if drained1 {
                    lstate.process_remote_frees(&mut self.global);
                }
                let ghost sb = lstate;
                let idx = slab::get_slab_idx(size);
                let ghost cls = idx as int;
                proof {
                    slab::lemma_class_for_size_minimal(size as int);
                    assert(sb.slabs@[cls]@.bump == l1.slabs@[cls]@.bump);
                    assert(sb.slabs@[cls]@.base == l1.slabs@[cls]@.base);
                }
                let sl = &mut lstate.slabs[idx];
                let p1 = sl.allocate(idx);
                let drained2 = p1.is_none();
                proof {
                    if p1 is Some {
                        let a = p1->Some_0;
                        let pv = sb.slabs@[cls]@;
                        if pv.free.len() > 0 {
                            assert(a == pv.free.last());
                            assert(pv.free.contains(a));
                            if !drained1 {
                                assert(l1.slabs@[cls]@.free.contains(a));
                            }
                        } else {
                            lemma_bump_slot_index(pv.base, pv.bump, slab::spec_slab_size(cls));
                        }
                        assert(spec_fresh_slab_result(l1, inbox0, cls, a));
                    }
                }
                let ghost sc = lstate;
                let mut p = p1;
                if p.is_none() {
                    proof {
                        assert(sc.slabs@[cls]@.free.len() == 0);
                    }
                    lstate.process_remote_frees(&mut self.global);
                    let ghost se = lstate;
                    let sl2 = &mut lstate.slabs[idx];
                    p = sl2.allocate(idx);
                    proof {
                        if p is Some {
                            let a = p->Some_0;
                            let pv = se.slabs@[cls]@;
                            if pv.free.len() > 0 {
                                assert(a == pv.free.last());
                                assert(pv.free.contains(a));
                                // the free stack was empty before this
                                // drain, so the slot was a claimed entry
                                assert(sc.slabs@[cls]@.free.contains(a) || mid.spec_inbox_of(
                                    sb,
                                ).contains(a) || inbox0.contains(a));
                                if !drained1 {
                                    assert(mid.spec_inbox_of(sb) == inbox0);
                                }
                            } else {
                                lemma_bump_slot_index(
                                    pv.base,
                                    pv.bump,
                                    slab::spec_slab_size(cls),
                                );
                                assert(pv.bump == l1.slabs@[cls]@.bump);
                            }
                            assert(spec_fresh_slab_result(l1, inbox0, cls, a));
                        }
                    }
                }
                let ghost sd = lstate;
                let ghost anydrain = drained1 || drained2;
                proof {
                    assert(sd.chunk_ptr == l1.chunk_ptr);
                    assert forall|i: int| 0 <= i < slab::LAYOUT_LEN implies (
                    #[trigger] sd.slabs@[i])@.wf(i) && sd.slabs@[i]@.base == l1.slabs@[i]@.base
                        && sd.slabs@[i]@.bump >= l1.slabs@[i]@.bump by {}
                    assert(sd.wf());
                    // the free lists hold old elements and claimed
                    // entries only
                    assert forall|i: int, k: int|
                        0 <= i < slab::LAYOUT_LEN && 0 <= k < sd.slabs@[i]@.free.len() implies
                    l1.slabs@[i]@.free.contains(#[trigger] sd.slabs@[i]@.free[k])
                        || inbox0.contains(sd.slabs@[i]@.free[k]) by {
                        let x = sd.slabs@[i]@.free[k];
                        if drained2 {
                            assert(sc.slabs@[i]@.free.contains(x) || mid.spec_inbox_of(
                                sb,
                            ).contains(x));
                            if !drained1 {
                                assert(mid.spec_inbox_of(sb) == inbox0);
                            }
                        }
                        if sc.slabs@[i]@.free.contains(x) || (!drained2 && sd.slabs@[
                            i
                        ]@.free.contains(x)) {
                            assert(sb.slabs@[i]@.free.contains(x));
                        }
                        if sb.slabs@[i]@.free.contains(x) && !drained1 {
                            assert(sb.slabs@[i]@.free == l1.slabs@[i]@.free);
                        }
                    }
                    // a drain-free run only consumed free slots
                    if !anydrain {
                        assert forall|i: int, k: int|
                            0 <= i < slab::LAYOUT_LEN && 0 <= k
                                < sd.slabs@[i]@.free.len() implies l1.slabs@[i]@.free.contains(
                            #[trigger] sd.slabs@[i]@.free[k],
                        ) by {
                            assert(sb.slabs@[i]@.free == l1.slabs@[i]@.free);
                        }
                    }
                    // residual blocks not claimed stayed live
                    assert forall|b: usize|
                        l1.tlsf.spec_has_live(b) && !inbox0.contains(b) implies
                    #[trigger] sd.tlsf.spec_has_live(b) by {
                        if drained1 {
                            assert(sb.tlsf.spec_has_live(b));
                        } else {
                            assert(sb.tlsf == l1.tlsf);
                        }
                        if drained2 {
                            if !drained1 {
                                assert(mid.spec_inbox_of(sb) == inbox0);
                            }
                        } else {
                            assert(sd.tlsf == sb.tlsf);
                        }
                    }
                    // the inbox is empty after a drain, untouched else
                    if anydrain {
                        assert(self.global.headers@[mi].remote_free_list@.len() == 0);
                    } else {
                        assert(self.global.headers@[mi].remote_free_list@ == inbox0);
                    }
                    // arena frame: only this chunk's inbox was touched
                    assert(self.global.wf());
                    assert(self.global.base == mid.global.base && self.global.size
                        == mid.global.size && self.global.next == mid.global.next
                        && self.global.free_chunks@ == mid.global.free_chunks@
                        && self.global.acquired == mid.global.acquired);
                    assert(self.global.headers@.len() == mid.global.headers@.len());
                    assert(self.global.headers@[mi].owner_id == mid.global.headers@[
                        mi
                    ].owner_id);
                    assert(forall|j: int|
                        0 <= j < mid.global.headers@.len() && j != mi
                            ==> self.global.headers@[j] == mid.global.headers@[j]);
                    assert(self.system == mid.system);
                    // the context keeps its batch; its target chunk is
                    // someone else's, so the batch stays flushable
                    if ctx.batch.addrs@.len() > 0 {
                        let ghost ti = mid.global.spec_chunk_index(ctx.batch.chunk);
                        global::lemma_chunk_index_bounds(mid.global, ctx.batch.chunk);
                        assert(mid.global.headers@[ti].owner_id != ctx.token);
                        assert(mid.global.headers@[mi].owner_id == ctx.token);
                        assert(ti != mi);
                        assert(self.global.headers@[ti] == mid.global.headers@[ti]);
                        assert(self.global.headers@[ti].owner_id != ctx.token);
                    }
                    assert(spec_batch_ok(self.global, ctx.batch));
                    // every block the caller held is still intact
                    assert forall|x: usize|
                        local::spec_drain_entry_ok(l1, x) && !inbox0.contains(x) implies
                    local::spec_drain_entry_ok(sd, x) && !self.global.headers@[
                        mi
                    ].remote_free_list@.contains(x) by {
                        local::lemma_entry_ok_preserved(l1, sd, inbox0, x);
                    }
                    // the inbox stays replayable
                    assert(local::spec_drain_ok(
                        sd,
                        self.global.headers@[mi].remote_free_list@,
                    )) by {
                        if !anydrain {
                            assert forall|k: int|
                                0 <= k < inbox0.len() implies local::spec_drain_entry_ok(
                                sd,
                                #[trigger] inbox0[k],
                            ) by {
                                assert(local::spec_drain_entry_ok(l1, inbox0[k]));
                                local::lemma_entry_ok_preserved(
                                    l1,
                                    sd,
                                    Seq::<usize>::empty(),
                                    inbox0[k],
                                );
                            }
                        }
                    }
                }
                match p {
                    Some(a) => {
                        proof {
                            let sv = lstate.slabs@[cls]@;
                            assert(sv.slot_valid(cls, a));
                            lemma_mod_sum_zero(
                                lstate.chunk_ptr - mid.global.base,
                                mid.global.base as int,
                                global::CHUNK_SIZE as int,
                            );
                            lemma_slab_slot_props(
                                lstate.chunk_ptr as int,
                                cls,
                                a as int,
                                align as int,
                            );
                            slab::lemma_slot_in_class(sv, cls, a);
                            assert(a != 0);
                            assert(self.global.spec_is_own(a));
                            lemma_no_sys_live_in_region(*self, a);
                            // the served slot differs from every block
                            // the caller already held
                            assert forall|x: usize|
                                local::spec_drain_entry_ok(l1, x) && !inbox0.contains(
                                    x,
                                ) implies x != a by {
                                local::lemma_entry_ok_preserved(l1, sd, inbox0, x);
                                if x - sd.chunk_ptr < slab::SLAB_TOTAL_CAPACITY
                                    && slab::spec_class_of_offset(x - sd.chunk_ptr) == cls {
                                    if l1.slabs@[cls]@.free.contains(a) || inbox0.contains(a) {
                                    } else {
                                        lemma_bump_slot_index(
                                            l1.slabs@[cls]@.base,
                                            (a - l1.slabs@[cls]@.base) / slab::spec_slab_size(
                                                cls,
                                            ),
                                            slab::spec_slab_size(cls),
                                        );
                                    }
                                } else {
                                    sd.lemma_blocks_distinct(cls, a, x);
                                }
                            }
                            // the slab fast path clauses
                            if old(ctx).local is Some && l1.slabs@[cls]@.free.len() > 0
                                && !drained1 {
                                assert(sb.slabs@[cls]@.free == l1.slabs@[cls]@.free);
                                assert(p1 == Some(l1.slabs@[cls]@.free.last()));
                                assert(!drained2);
                                assert(sd.slabs@[cls]@.free == l1.slabs@[cls]@.free.drop_last());
                                assert(sd.slabs@[cls]@.bump == l1.slabs@[cls]@.bump);
                            }
                            if old(ctx).local is Some && l1.slabs@[cls]@.free.len() == 0
                                && l1.slabs@[cls]@.bump < slab::spec_slab_len(cls) && !drained1 {
                                assert(sb.slabs@[cls]@.free == l1.slabs@[cls]@.free);
                                assert(sb.slabs@[cls]@.bump == l1.slabs@[cls]@.bump);
                                assert(p1 == Some(
                                    (sb.slabs@[cls]@.base + sb.slabs@[cls]@.bump
                                        * slab::spec_slab_size(cls)) as usize,
                                ));
                                assert(!drained2);
                                assert(sd.slabs@[cls]@.bump == l1.slabs@[cls]@.bump + 1);
                                assert(sd.slabs@[cls]@.free == l1.slabs@[cls]@.free);
                            }
                        }
                        ctx.local = Some(lstate);
                        proof {
                            global::lemma_index_of_inner_addr(self.global, mi, a);
                            assert(self.global.spec_chunk_base(mi) == sd.chunk_ptr);
                            assert(self.global.spec_chunk_index(a) == mi);
                            assert(self.spec_free_target_ok(*ctx, a));
                        }
                        a
                    },
                    None => {
                        proof {
                            // the slab tier is exhausted: in particular
                            // the free stack cannot have been stocked
                            if l1.slabs@[cls]@.free.len() > 0 {
                                if !drained1 {
                                    assert(sb.slabs@[cls]@.free == l1.slabs@[cls]@.free);
                                }
                                assert(sb.slabs@[cls]@.free.len() > 0);
                                assert(!(p1 is None)) by {
                                    assert(slab::spec_slab_alloc(sb.slabs@[cls]@, cls).1 is Some);
                                }
                                assert(false);
                            }
                            if l1.slabs@[cls]@.free.len() == 0 && l1.slabs@[cls]@.bump
                                < slab::spec_slab_len(cls) && !drained1 {
                                assert(sb.slabs@[cls]@.free == l1.slabs@[cls]@.free);
                                assert(sb.slabs@[cls]@.bump == l1.slabs@[cls]@.bump);
                                assert(!(p1 is None)) by {
                                    assert(slab::spec_slab_alloc(sb.slabs@[cls]@, cls).1 is Some);
                                }
                                assert(false);
                            }
                        }
                        let t = lstate.tlsf.allocate(size, align);
                        match t {
                            Some(a) => {
                                proof {
                                    assert(lstate.tlsf.base == sd.chunk_ptr
                                        + slab::SLAB_TOTAL_CAPACITY);
                                    assert(a != 0);
                                    assert(self.global.spec_is_own(a));
                                    lemma_no_sys_live_in_region(*self, a);
                                    assert forall|x: usize|
                                        local::spec_drain_entry_ok(l1, x) && !inbox0.contains(
                                            x,
                                        ) implies x != a && local::spec_drain_entry_ok(
                                        lstate,
                                        x,
                                    ) by {
                                        local::lemma_entry_ok_preserved(l1, sd, inbox0, x);
                                        local::lemma_entry_ok_preserved(
                                            sd,
                                            lstate,
                                            Seq::<usize>::empty(),
                                            x,
                                        );
                                        if x - sd.chunk_ptr < slab::SLAB_TOTAL_CAPACITY {
                                            let cx = slab::spec_class_of_offset(
                                                x - sd.chunk_ptr,
                                            );
                                            slab::lemma_class_of_offset_in_range(
                                                x - sd.chunk_ptr,
                                            );
                                            slab::lemma_slot_in_class(sd.slabs@[cx]@, cx, x);
                                            assert((cx + 1) * 32768 <= 9 * 32768);
                                        } else {
                                            let kb = choose|kb: int|
                                                0 <= kb < sd.tlsf.live@.len() && (
                                                #[trigger] sd.tlsf.live@[kb]).addr == x;
                                            assert(sd.tlsf.span_ok(sd.tlsf.live@[kb]));
                                            assert(tlsf::span_disjoint(
                                                tlsf::Span { addr: a, len: size },
                                                sd.tlsf.live@[kb],
                                            ));
                                        }
                                    }
                                    // the inbox is empty here, so the
                                    // local state stays replayable
                                    assert(local::spec_drain_ok(
                                        lstate,
                                        self.global.headers@[mi].remote_free_list@,
                                    ));
                                    assert(lstate.wf());
                                }
                                ctx.local = Some(lstate);
                                proof {
                                    global::lemma_index_of_inner_addr(self.global, mi, a);
                                    assert(self.global.spec_chunk_base(mi) == sd.chunk_ptr);
                                    assert(self.global.spec_chunk_index(a) == mi);
                                    assert(self.spec_free_target_ok(*ctx, a));
                                }
                                a
                            },
                            None => {
                                proof {
                                    assert(lstate.slabs == sd.slabs && lstate.chunk_ptr
                                        == sd.chunk_ptr);
                                    assert(lstate.wf());
                                    assert forall|k: int|
                                        0 <= k < self.global.headers@[
                                        mi
                                    ].remote_free_list@.len() implies local::spec_drain_entry_ok(
                                        lstate,
                                        #[trigger] self.global.headers@[
                                            mi
                                        ].remote_free_list@[k],
                                    ) by {
                                        let e = self.global.headers@[mi].remote_free_list@[k];
                                        assert(local::spec_drain_entry_ok(sd, e));
                                        local::lemma_entry_ok_preserved(
                                            sd,
                                            lstate,
                                            Seq::<usize>::empty(),
                                            e,
                                        );
                                    }
                                }
                                ctx.local = Some(lstate);
                                let sys = self.system.allocate(size, align);
                                match sys {
                                    Some(a) => {
                                        proof {
                                            lemma_no_own_entry_is_sys(*self, sd, a);
                                            lemma_sys_result_outside(*self, a);
                                        }
                                        a
                                    },
                                    None => 0,
                                }
                            },
                        }
                    },
                }
            },
        }
    }
}

} // verus!
