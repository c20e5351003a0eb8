//! The thread-local sub-allocator: one chunk bound to one thread, one slab
//! per class over the chunk's slab area, and a segregated-fit allocator over
//! the residual bytes. Only the owning thread ever mutates this state; other
//! threads reach the chunk solely through its inbox, which `process_remote_frees`
//! claims and replays here.

use vstd::prelude::*;

use crate::global::{XrossGlobalAllocator, CHUNK_SIZE};
use crate::slab::{
    spec_class_of_offset, spec_slab_offset, LocalSlab, SlabLayout, CHUNK_HEADER_SIZE, LAYOUT_LEN,
    SLAB_TOTAL_CAPACITY,
};
use crate::tlsf::Tlsf;

verus! {

/// Bytes of a chunk covered by the segregated-fit allocator.
pub const TLSF_CAPACITY: usize = CHUNK_SIZE - SLAB_TOTAL_CAPACITY;

/// A thread's identity: its context's non-zero token.
pub fn current_thread_token(ctx: &crate::XrossThreadContext) -> (r: usize)
    ensures
        r == ctx.token,
{
    ctx.token
}

/// The per-thread allocator over one owned chunk.
pub struct XrossLocalAllocator {
    /// One slab per class, in class order.
    pub slabs: Vec<LocalSlab>,
    /// The segregated-fit allocator over the residual region.
    pub tlsf: Tlsf,
    /// Base address of the owned chunk.
    pub chunk_ptr: usize,
    /// Allocations served so far; drives the periodic inbox drain.
    pub alloc_count: u32,
}

/// Whether one inbox entry can be replayed against this local state: a slab
/// entry must be a bumped, not currently free slot of its class; a residual
/// entry must be a live segregated-fit block.
pub open spec fn spec_drain_entry_ok(l: XrossLocalAllocator, e: usize) -> bool {
    &&& l.chunk_ptr + CHUNK_HEADER_SIZE <= e < l.chunk_ptr + CHUNK_SIZE
    &&& if e - l.chunk_ptr < SLAB_TOTAL_CAPACITY {
        let c = spec_class_of_offset(e - l.chunk_ptr);
        &&& l.slabs@[c]@.slot_valid(c, e)
        &&& !l.slabs@[c]@.free.contains(e)
    } else {
        l.tlsf.spec_has_live(e)
    }
}

/// Whether a whole inbox can be replayed.
pub open spec fn spec_drain_ok(l: XrossLocalAllocator, inbox: Seq<usize>) -> bool {
    forall|k: int| 0 <= k < inbox.len() ==> spec_drain_entry_ok(l, #[trigger] inbox[k])
}

/// An allocated block of the chunk survives any run of slab service, inbox
/// drains and segregated-fit allocation, as long as no free aimed at it was
/// among the claimed entries: the cursors only advance, the free lists grow
/// only by claimed entries, and residual blocks stay live.
pub proof fn lemma_entry_ok_preserved(
    l1: XrossLocalAllocator,
    l2: XrossLocalAllocator,
    inbox0: Seq<usize>,
    e: usize,
)
    requires
        l1.wf(),
        l2.wf(),
        spec_drain_entry_ok(l1, e),
        !inbox0.contains(e),
        l2.chunk_ptr == l1.chunk_ptr,
        forall|i: int|
            0 <= i < LAYOUT_LEN ==> (#[trigger] l2.slabs@[i])@.bump >= l1.slabs@[i]@.bump,
        forall|i: int, k: int|
            0 <= i < LAYOUT_LEN && 0 <= k < l2.slabs@[i]@.free.len()
                ==> l1.slabs@[i]@.free.contains(#[trigger] l2.slabs@[i]@.free[k])
                || inbox0.contains(l2.slabs@[i]@.free[k]),
        forall|b: usize|
            l1.tlsf.spec_has_live(b) && !inbox0.contains(b) ==> #[trigger] l2.tlsf.spec_has_live(
                b,
            ),
    ensures
        spec_drain_entry_ok(l2, e),
{
    if e - l1.chunk_ptr < SLAB_TOTAL_CAPACITY {
        let c = spec_class_of_offset(e - l1.chunk_ptr);
        crate::slab::lemma_class_of_offset_in_range(e - l1.chunk_ptr);
        assert(l2.slabs@[c]@.base == l1.slabs@[c]@.base);
        if l2.slabs@[c]@.free.contains(e) {
            let k = choose|k: int|
                0 <= k < l2.slabs@[c]@.free.len() && l2.slabs@[c]@.free[k] == e;
            assert(l1.slabs@[c]@.free.contains(l2.slabs@[c]@.free[k]) || inbox0.contains(
                l2.slabs@[c]@.free[k],
            ));
            assert(false);
        }
    }
}

impl XrossLocalAllocator {
    /// Well-formedness: nine slabs at their static offsets inside the chunk,
    /// and the segregated-fit allocator over exactly the residual bytes.
    pub open spec fn wf(self) -> bool {
        &&& 0 < self.chunk_ptr
        &&& self.chunk_ptr + CHUNK_SIZE <= usize::MAX
        &&& self.slabs@.len() == LAYOUT_LEN
        &&& forall|i: int| 0 <= i < LAYOUT_LEN ==> (#[trigger] self.slabs@[i])@.wf(i)
        &&& forall|i: int|
            0 <= i < LAYOUT_LEN ==> (#[trigger] self.slabs@[i])@.base == self.chunk_ptr
                + spec_slab_offset(i)
        &&& self.tlsf.base == self.chunk_ptr + SLAB_TOTAL_CAPACITY
        &&& self.tlsf.capacity == TLSF_CAPACITY
        &&& self.tlsf.wf()
    }

    /// The chunk this allocator owns, as the arena numbers it.
    pub open spec fn spec_chunk_index(self, g: XrossGlobalAllocator) -> int {
        g.spec_chunk_index(self.chunk_ptr)
    }

    /// Bind a freshly acquired, unowned chunk to the calling thread: record
    /// the owner token in the chunk's header, point one empty slab at each
    /// class's offset, and hand the residual bytes to the segregated fit.
    pub fn new(arena: &mut XrossGlobalAllocator, chunk: usize, token: usize) -> (r: Self)
        requires
            old(arena).wf(),
            old(arena).spec_valid_chunk(chunk),
            !old(arena).free_chunks@.contains(chunk),
            old(arena).headers@[old(arena).spec_chunk_index(chunk)].owner_id == 0,
            token != 0,
        ensures
            final(arena).wf(),
            r.wf(),
            r.chunk_ptr == chunk,
            r.alloc_count == 0,
            forall|i: int|
                0 <= i < LAYOUT_LEN ==> (#[trigger] r.slabs@[i])@ == (crate::slab::SlabView {
                    base: chunk + spec_slab_offset(i),
                    bump: 0,
                    free: Seq::<usize>::empty(),
                }),
            r.tlsf.live@.len() == 0,
            r.tlsf.free@.len() == 1,
            r.tlsf.free@[0] == (crate::tlsf::Span {
                addr: (chunk + SLAB_TOTAL_CAPACITY) as usize,
                len: TLSF_CAPACITY,
            }),
            final(arena).base == old(arena).base,
            final(arena).size == old(arena).size,
            final(arena).next == old(arena).next,
            final(arena).acquired == old(arena).acquired,
            final(arena).free_chunks@ == old(arena).free_chunks@,
            final(arena).headers@.len() == old(arena).headers@.len(),
            final(arena).headers@[old(arena).spec_chunk_index(chunk)].owner_id == token,
            final(arena).headers@[old(arena).spec_chunk_index(chunk)].remote_free_list@ == old(arena).headers@[old(arena).spec_chunk_index(chunk)].remote_free_list@,
            forall|j: int|
                0 <= j < old(arena).headers@.len() && j != old(arena).spec_chunk_index(chunk)
                    ==> final(arena).headers@[j] == old(arena).headers@[j],
    {
        proof {
            crate::global::lemma_chunk_index_bounds(*old(arena), chunk);
            crate::global::lemma_valid_chunk_below_cursor(*old(arena), chunk);
        }
        let ci = (chunk - arena.base) / CHUNK_SIZE;
        let header = &mut arena.headers[ci];
        header.owner_id = token;
        proof {
            let g = *old(arena);
            let gi = g.spec_chunk_index(chunk);
            assert forall|k: int| 0 <= k < arena.free_chunks@.len() implies {
                let i = arena.spec_chunk_index(#[trigger] arena.free_chunks@[k]);
                arena.headers@[i].owner_id == 0 && arena.headers@[i].remote_free_list@.len() == 0
            } by {
                let c2 = arena.free_chunks@[k];
                let i = arena.spec_chunk_index(c2);
                assert(g.free_chunks@[k] == c2);
                assert(g.spec_valid_chunk(c2));
                crate::global::lemma_chunk_index_bounds(g, c2);
                assert(g.headers@[i].owner_id == 0 && g.headers@[i].remote_free_list@.len() == 0);
                if i == gi {
                    assert(c2 == g.spec_chunk_base(i) && chunk == g.spec_chunk_base(gi));
                    assert(c2 == chunk);
                    assert(false);
                } else {
                    assert(arena.headers@[i] == g.headers@[i]);
                }
            }
        }
        let mut slabs: Vec<LocalSlab> = Vec::new();
        let mut i: usize = 0;
        while i < LAYOUT_LEN
            invariant
                i <= LAYOUT_LEN,
                slabs@.len() == i,
                chunk + CHUNK_SIZE <= usize::MAX,
                forall|j: int|
                    0 <= j < i ==> (#[trigger] slabs@[j])@ == (crate::slab::SlabView {
                        base: chunk + spec_slab_offset(j),
                        bump: 0,
                        free: Seq::<usize>::empty(),
                    }),
            decreases LAYOUT_LEN - i,
        {
            let off = SlabLayout::offsets(i);
            slabs.push(LocalSlab::new(chunk + off));
            i = i + 1;
        }
        let tlsf = Tlsf::new(chunk + SLAB_TOTAL_CAPACITY, TLSF_CAPACITY);
        let r = XrossLocalAllocator { slabs, tlsf, chunk_ptr: chunk, alloc_count: 0 };
        proof {
            assert forall|j: int| 0 <= j < LAYOUT_LEN implies (#[trigger] r.slabs@[j])@.wf(j) by {
                crate::slab::lemma_slab_class_full(j);
                assert(r.slabs@[j]@.base == chunk + spec_slab_offset(j));
            }
        }
        r
    }

    /// The slab class that owns a byte offset inside the chunk's slab area.
    pub fn get_slab_idx_from_offset(offset: usize) -> (r: usize)
        requires
            CHUNK_HEADER_SIZE <= offset < SLAB_TOTAL_CAPACITY,
        ensures
            r == spec_class_of_offset(offset as int),
            r < LAYOUT_LEN,
    {
        proof {
            crate::slab::lemma_class_of_offset_in_range(offset as int);
        }
        (offset - CHUNK_HEADER_SIZE) / crate::slab::SLAB_CLASS_SIZE
    }

    /// Claim the chunk's whole inbox in one step and replay every entry:
    /// slab-area addresses go back to their class's free list, residual
    /// addresses back to the segregated fit. Entries are replayed most
    /// recently pushed first.
    pub fn process_remote_frees(&mut self, arena: &mut XrossGlobalAllocator)
        requires
            old(self).wf(),
            old(arena).wf(),
            old(arena).spec_valid_chunk(old(self).chunk_ptr),
            spec_drain_ok(
                *old(self),
                old(arena).headers@[old(self).spec_chunk_index(*old(arena))].remote_free_list@,
            ),
        ensures
            final(self).wf(),
            final(arena).wf(),
            // the arena is untouched but for this chunk's emptied inbox
            final(arena).base == old(arena).base,
            final(arena).size == old(arena).size,
            final(arena).next == old(arena).next,
            final(arena).acquired == old(arena).acquired,
            final(arena).free_chunks@ == old(arena).free_chunks@,
            final(arena).headers@.len() == old(arena).headers@.len(),
            final(arena).headers@[old(self).spec_chunk_index(*old(arena))].owner_id == old(arena).headers@[old(self).spec_chunk_index(*old(arena))].owner_id,
            final(arena).headers@[old(self).spec_chunk_index(
                *old(arena),
            )].remote_free_list@.len() == 0,
            forall|j: int|
                0 <= j < old(arena).headers@.len() && j != old(self).spec_chunk_index(*old(arena))
                    ==> final(arena).headers@[j] == old(arena).headers@[j],
            // the local allocator keeps its shape; free lists only grow
            final(self).chunk_ptr == old(self).chunk_ptr,
            final(self).alloc_count == old(self).alloc_count,
            final(self).tlsf.base == old(self).tlsf.base,
            final(self).tlsf.capacity == old(self).tlsf.capacity,
            forall|i: int|
                0 <= i < LAYOUT_LEN ==> (#[trigger] final(self).slabs@[i])@.base == old(self).slabs@[i]@.base && final(self).slabs@[i]@.bump == old(self).slabs@[i]@.bump,
            forall|i: int, k: int|
                0 <= i < LAYOUT_LEN && 0 <= k < old(self).slabs@[i]@.free.len() ==> final(self).slabs@[i]@.free[k] == old(self).slabs@[i]@.free[k] && old(self).slabs@[i]@.free.len() <= final(self).slabs@[i]@.free.len(),
            // every claimed entry has been replayed
            forall|k: int|
                0 <= k < old(arena).headers@[old(self).spec_chunk_index(
                    *old(arena),
                )].remote_free_list@.len() ==> {
                    let e = #[trigger] old(arena).headers@[old(self).spec_chunk_index(
                        *old(arena),
                    )].remote_free_list@[k];
                    if e - old(self).chunk_ptr < SLAB_TOTAL_CAPACITY {
                        final(self).slabs@[spec_class_of_offset(e - old(self).chunk_ptr)]@.free
                            .contains(e)
                    } else {
                        !final(self).tlsf.spec_has_live(e)
                    }
                },
            forall|i: int|
                0 <= i < LAYOUT_LEN ==> old(self).slabs@[i]@.free.len() <= (
                #[trigger] final(self).slabs@[i]@.free).len(),
            // free lists grew only by claimed entries
            forall|i: int, k: int|
                0 <= i < LAYOUT_LEN && 0 <= k < final(self).slabs@[i]@.free.len() ==> old(self).slabs@[i]@.free.contains(#[trigger] final(self).slabs@[i]@.free[k]) || old(arena).headers@[old(self).spec_chunk_index(*old(arena))].remote_free_list@.contains(
                    final(self).slabs@[i]@.free[k],
                ),
            // residual blocks that were not claimed stay live
            forall|b: usize|
                old(self).tlsf.spec_has_live(b) && !old(arena).headers@[old(self).spec_chunk_index(*old(arena))].remote_free_list@.contains(b)
                    ==> #[trigger] final(self).tlsf.spec_has_live(b),
    {
        proof {
            crate::global::lemma_chunk_index_bounds(*old(arena), old(self).chunk_ptr);
            crate::global::lemma_valid_chunk_below_cursor(*old(arena), old(self).chunk_ptr);
        }
        let ci = (self.chunk_ptr - arena.base) / CHUNK_SIZE;
        let mut pending: Vec<usize> = Vec::new();
        let header = &mut arena.headers[ci];
        core::mem::swap(&mut pending, &mut header.remote_free_list);
        let ghost inbox = old(arena).headers@[ci as int].remote_free_list@;
        let ghost cidx = ci as int;
        proof {
            assert(pending@ == inbox);
            assert forall|k: int| 0 <= k < inbox.len() implies old(self).chunk_ptr
                + CHUNK_HEADER_SIZE <= #[trigger] inbox[k] < old(self).chunk_ptr + CHUNK_SIZE by {
                let g = *old(arena);
                assert(g.spec_in_chunk(cidx, g.headers@[cidx].remote_free_list@[k]));
            }
            assert forall|k1: int, k2: int| 0 <= k1 < k2 < inbox.len() implies inbox[k1]
                != inbox[k2] by {
                let g = *old(arena);
                assert(g.headers@[cidx].remote_free_list@[k1]
                    != g.headers@[cidx].remote_free_list@[k2]);
            }
            assert forall|k: int| 0 <= k < arena.free_chunks@.len() implies {
                let i = arena.spec_chunk_index(#[trigger] arena.free_chunks@[k]);
                arena.headers@[i].owner_id == 0 && arena.headers@[i].remote_free_list@.len() == 0
            } by {
                let g = *old(arena);
                let c2 = arena.free_chunks@[k];
                let i = arena.spec_chunk_index(c2);
                assert(g.free_chunks@[k] == c2);
                assert(g.spec_valid_chunk(c2));
                crate::global::lemma_chunk_index_bounds(g, c2);
                assert(g.headers@[i].owner_id == 0 && g.headers@[i].remote_free_list@.len() == 0);
                if i != cidx {
                    assert(arena.headers@[i] == g.headers@[i]);
                }
            }
        }
        while pending.len() > 0
            invariant
                self.wf(),
                self.chunk_ptr == old(self).chunk_ptr,
                self.alloc_count == old(self).alloc_count,
                self.tlsf.base == old(self).tlsf.base,
                self.tlsf.capacity == old(self).tlsf.capacity,
                pending@.len() <= inbox.len(),
                pending@ == inbox.take(pending@.len() as int),
                spec_drain_ok(*self, pending@),
                // inbox entries are pairwise distinct and inside the chunk
                forall|k1: int, k2: int|
                    0 <= k1 < k2 < inbox.len() ==> inbox[k1] != inbox[k2],
                forall|k: int|
                    0 <= k < inbox.len() ==> old(self).chunk_ptr + CHUNK_HEADER_SIZE
                        <= #[trigger] inbox[k] < old(self).chunk_ptr + CHUNK_SIZE,
                // frame on the slabs
                forall|i: int|
                    0 <= i < LAYOUT_LEN ==> (#[trigger] self.slabs@[i])@.base == old(self).slabs@[i]@.base && self.slabs@[i]@.bump == old(self).slabs@[i]@.bump,
                forall|i: int, k: int|
                    0 <= i < LAYOUT_LEN && 0 <= k < old(self).slabs@[i]@.free.len()
                        ==> self.slabs@[i]@.free[k] == old(self).slabs@[i]@.free[k] && old(self).slabs@[i]@.free.len() <= self.slabs@[i]@.free.len(),
                forall|i: int|
                    0 <= i < LAYOUT_LEN ==> old(self).slabs@[i]@.free.len() <= (
                    #[trigger] self.slabs@[i]@.free).len(),
                // free lists grew only by claimed entries
                forall|i: int, k: int|
                    0 <= i < LAYOUT_LEN && 0 <= k < self.slabs@[i]@.free.len() ==> old(self).slabs@[i]@.free.contains(#[trigger] self.slabs@[i]@.free[k])
                        || inbox.contains(self.slabs@[i]@.free[k]),
                // residual blocks that were not claimed stay live
                forall|b: usize|
                    old(self).tlsf.spec_has_live(b) && !inbox.contains(b)
                        ==> #[trigger] self.tlsf.spec_has_live(b),
                // what was already replayed has landed
                forall|k: int|
                    pending@.len() <= k < inbox.len() ==> {
                        let e = #[trigger] inbox[k];
                        if e - old(self).chunk_ptr < SLAB_TOTAL_CAPACITY {
                            self.slabs@[spec_class_of_offset(e - old(self).chunk_ptr)]@.free
                                .contains(e)
                        } else {
                            !self.tlsf.spec_has_live(e)
                        }
                    },
            decreases pending@.len(),
        {
            let eo = pending.pop();
            let e = eo.unwrap();
            proof {
                assert(inbox.take(pending@.len() as int + 1).last() == inbox[pending@.len() as int]);
                assert(e == inbox[pending@.len() as int]);
                assert(pending@ =~= inbox.take(pending@.len() as int));
                assert(spec_drain_entry_ok(*self, e));
            }
            let off = e - self.chunk_ptr;
            if off < SLAB_TOTAL_CAPACITY {
                let idx = Self::get_slab_idx_from_offset(off);
                let ghost before = *self;
                let sl = &mut self.slabs[idx];
                sl.deallocate(e);
                proof {
                    crate::slab::lemma_slab_dealloc_wf(before.slabs@[idx as int]@, idx as int, e);
                    assert(self.slabs@ =~= before.slabs@.update(idx as int, self.slabs@[idx as int]));
                    assert forall|i: int| 0 <= i < LAYOUT_LEN implies (
                    #[trigger] self.slabs@[i])@.wf(i) by {
                        if i != idx as int {
                            assert(self.slabs@[i] == before.slabs@[i]);
                        }
                    }
                    // remaining entries stay replayable: they differ from `e`
                    assert forall|k: int| 0 <= k < pending@.len() implies spec_drain_entry_ok(
                        *self,
                        #[trigger] pending@[k],
                    ) by {
                        let e2 = pending@[k];
                        assert(e2 == inbox[k]);
                        assert(e2 != e);
                        assert(spec_drain_entry_ok(before, e2));
                        if e2 - before.chunk_ptr < SLAB_TOTAL_CAPACITY {
                            let c2 = spec_class_of_offset(e2 - before.chunk_ptr);
                            crate::slab::lemma_class_of_offset_in_range(
                                e2 - before.chunk_ptr,
                            );
                            if c2 == idx as int {
                                assert(!before.slabs@[c2]@.free.contains(e2));
                                assert(self.slabs@[c2]@.free
                                    == before.slabs@[c2]@.free.push(e));
                                assert(!self.slabs@[c2]@.free.contains(e2));
                            } else {
                                assert(self.slabs@[c2] == before.slabs@[c2]);
                            }
                        }
                    }
                    // everything already replayed stays replayed
                    assert forall|k: int| pending@.len() < k < inbox.len() implies {
                        let e3 = #[trigger] inbox[k];
                        if e3 - old(self).chunk_ptr < SLAB_TOTAL_CAPACITY {
                            self.slabs@[spec_class_of_offset(e3 - old(self).chunk_ptr)]@.free
                                .contains(e3)
                        } else {
                            !self.tlsf.spec_has_live(e3)
                        }
                    } by {
                        let e3 = inbox[k];
                        if e3 - old(self).chunk_ptr < SLAB_TOTAL_CAPACITY {
                            let c3 = spec_class_of_offset(e3 - old(self).chunk_ptr);
                            crate::slab::lemma_class_of_offset_in_range(
                                e3 - old(self).chunk_ptr,
                            );
                            if c3 == idx as int {
                                let w = choose|w: int|
                                    0 <= w < before.slabs@[c3]@.free.len()
                                        && before.slabs@[c3]@.free[w] == e3;
                                assert(self.slabs@[c3]@.free[w] == e3);
                            } else {
                                assert(self.slabs@[c3] == before.slabs@[c3]);
                            }
                        }
                    }
                    assert(self.slabs@[idx as int]@.free.last() == e);
                }
            } else {
                let ghost before = *self;
                self.tlsf.deallocate(e);
                proof {
                    assert forall|k: int| 0 <= k < pending@.len() implies spec_drain_entry_ok(
                        *self,
                        #[trigger] pending@[k],
                    ) by {
                        let e2 = pending@[k];
                        assert(e2 == inbox[k]);
                        assert(e2 != e);
                        assert(spec_drain_entry_ok(before, e2));
                    }
                    assert forall|k: int| pending@.len() < k < inbox.len() implies {
                        let e3 = #[trigger] inbox[k];
                        if e3 - old(self).chunk_ptr < SLAB_TOTAL_CAPACITY {
                            self.slabs@[spec_class_of_offset(e3 - old(self).chunk_ptr)]@.free
                                .contains(e3)
                        } else {
                            !self.tlsf.spec_has_live(e3)
                        }
                    } by {
                        let e3 = inbox[k];
                        if e3 - old(self).chunk_ptr >= SLAB_TOTAL_CAPACITY {
                            assert(e3 != e);
                            assert(!before.tlsf.spec_has_live(e3));
                            if self.tlsf.spec_has_live(e3) {
                                assert(before.tlsf.spec_has_live(e3));
                            }
                        }
                    }
                }
            }
        }
        proof {
            assert(pending@ =~= inbox.take(0));
        }
    }

    /// Two allocated blocks of the chunk with distinct addresses: a slab
    /// slot and any block of a different class, or of the residual region,
    /// never coincide.
    pub proof fn lemma_blocks_distinct(self, c1: int, a: usize, e: usize)
        requires
            self.wf(),
            0 <= c1 < LAYOUT_LEN,
            self.slabs@[c1]@.slot_valid(c1, a),
            spec_drain_entry_ok(self, e),
            e - self.chunk_ptr < SLAB_TOTAL_CAPACITY ==> spec_class_of_offset(e - self.chunk_ptr)
                != c1,
        ensures
            a != e,
    {
        crate::slab::lemma_slot_in_class(self.slabs@[c1]@, c1, a);
        if e - self.chunk_ptr < SLAB_TOTAL_CAPACITY {
            let c2 = spec_class_of_offset(e - self.chunk_ptr);
            crate::slab::lemma_class_of_offset_in_range(e - self.chunk_ptr);
            crate::slab::lemma_slot_in_class(self.slabs@[c2]@, c2, e);
            if c1 < c2 {
                assert((c1 + 1) * 32768 <= c2 * 32768);
            } else {
                assert((c2 + 1) * 32768 <= c1 * 32768);
            }
        } else {
            let kb = choose|kb: int|
                0 <= kb < self.tlsf.live@.len() && (#[trigger] self.tlsf.live@[kb]).addr == e;
            assert(self.tlsf.span_ok(self.tlsf.live@[kb]));
            assert((c1 + 1) * 32768 <= LAYOUT_LEN * 32768);
        }
    }

    /// Give the chunk back: drain any late-arriving remote frees, clear the
    /// ownership metadata and push the chunk on the arena's free stack.
    pub fn release(self, arena: &mut XrossGlobalAllocator)
        requires
            self.wf(),
            old(arena).wf(),
            old(arena).spec_valid_chunk(self.chunk_ptr),
            old(arena).headers@[self.spec_chunk_index(*old(arena))].owner_id != 0,
            spec_drain_ok(
                self,
                old(arena).headers@[self.spec_chunk_index(*old(arena))].remote_free_list@,
            ),
        ensures
            final(arena).wf(),
            final(arena).base == old(arena).base,
            final(arena).size == old(arena).size,
            final(arena).next == old(arena).next,
            final(arena).acquired == old(arena).acquired,
            final(arena).free_chunks@ == old(arena).free_chunks@.push(self.chunk_ptr),
            final(arena).headers@.len() == old(arena).headers@.len(),
            final(arena).headers@[self.spec_chunk_index(*old(arena))].owner_id == 0,
            final(arena).headers@[self.spec_chunk_index(*old(arena))].remote_free_list@.len()
                == 0,
            forall|j: int|
                0 <= j < old(arena).headers@.len() && j != self.spec_chunk_index(*old(arena))
                    ==> final(arena).headers@[j] == old(arena).headers@[j],
    {
        let mut this = self;
        let chunk = this.chunk_ptr;
        let ghost mid_idx = self.spec_chunk_index(*old(arena));
        this.process_remote_frees(arena);
        proof {
            crate::global::lemma_chunk_index_bounds(*old(arena), chunk);
            if arena.free_chunks@.contains(chunk) {
                let k = choose|k: int|
                    0 <= k < arena.free_chunks@.len() && arena.free_chunks@[k] == chunk;
                assert(arena.spec_chunk_index(arena.free_chunks@[k]) == mid_idx);
                assert(arena.headers@[mid_idx].owner_id == 0);
                assert(false);
            }
        }
        arena.push_free_chunk(chunk);
    }
}

} // verus!
