//! Slab class layout inside a chunk, and the per-class slab allocator state.
//!
//! A chunk starts with a fixed header region; after it the slab classes lie
//! contiguously, each occupying the same number of bytes (block size times
//! slot count is constant), so both direction mappings (size to class, byte
//! offset to class) are closed-form and are proved consistent below.

use vstd::prelude::*;

verus! {

/// Bytes reserved at the start of every chunk for its header.
pub const CHUNK_HEADER_SIZE: usize = 256;

/// Bytes that each slab class occupies inside a chunk.
pub const SLAB_CLASS_SIZE: usize = 32768;

/// Number of slab classes.
pub const LAYOUT_LEN: usize = 9;

/// Byte offset where the segregated-fit region of a chunk begins.
pub const SLAB_TOTAL_CAPACITY: usize = 256 + 9 * 32768;

/// Largest block size served by a slab class.
pub const SLAB_THRESHOLD: usize = 2048;

/// One slab class: fixed block size and number of slots.
pub struct SlabConfig {
    pub size: usize,
    pub len: usize,
}

/// Block size of slab class `i`: 8, 16, ..., 2048.
pub open spec fn spec_slab_size(i: int) -> int {
    if i <= 0 {
        8
    } else if i == 1 {
        16
    } else if i == 2 {
        32
    } else if i == 3 {
        64
    } else if i == 4 {
        128
    } else if i == 5 {
        256
    } else if i == 6 {
        512
    } else if i == 7 {
        1024
    } else {
        2048
    }
}

/// Slot count of slab class `i`: 4096, 2048, ..., 16.
pub open spec fn spec_slab_len(i: int) -> int {
    if i <= 0 {
        4096
    } else if i == 1 {
        2048
    } else if i == 2 {
        1024
    } else if i == 3 {
        512
    } else if i == 4 {
        256
    } else if i == 5 {
        128
    } else if i == 6 {
        64
    } else if i == 7 {
        32
    } else {
        16
    }
}

/// Every class fills exactly `SLAB_CLASS_SIZE` bytes of storage.
pub proof fn lemma_slab_class_full(i: int)
    ensures
        spec_slab_len(i) * spec_slab_size(i) == SLAB_CLASS_SIZE,
{
    if i <= 0 {
        assert(4096 * 8 == 32768);
    } else if i == 1 {
        assert(2048 * 16 == 32768);
    } else if i == 2 {
        assert(1024 * 32 == 32768);
    } else if i == 3 {
        assert(512 * 64 == 32768);
    } else if i == 4 {
        assert(256 * 128 == 32768);
    } else if i == 5 {
        assert(128 * 256 == 32768);
    } else if i == 6 {
        assert(64 * 512 == 32768);
    } else if i == 7 {
        assert(32 * 1024 == 32768);
    } else {
        assert(16 * 2048 == 32768);
    }
}

/// Byte offset inside a chunk where the storage of class `i` begins.
pub open spec fn spec_slab_offset(i: int) -> int {
    CHUNK_HEADER_SIZE + i * (SLAB_CLASS_SIZE as int)
}

/// The class that serves a request of `size` bytes: the smallest class whose
/// block size is at least `size`.
pub open spec fn spec_class_for_size(size: int) -> int {
    if size <= 8 {
        0
    } else if size <= 16 {
        1
    } else if size <= 32 {
        2
    } else if size <= 64 {
        3
    } else if size <= 128 {
        4
    } else if size <= 256 {
        5
    } else if size <= 512 {
        6
    } else if size <= 1024 {
        7
    } else {
        8
    }
}

/// The class that owns the byte at offset `off` inside a chunk's slab area.
pub open spec fn spec_class_of_offset(off: int) -> int {
    (off - CHUNK_HEADER_SIZE) / (SLAB_CLASS_SIZE as int)
}

/// The class chosen for a size is the smallest whose blocks fit it.
pub proof fn lemma_class_for_size_minimal(size: int)
    requires
        1 <= size <= SLAB_THRESHOLD,
    ensures
        0 <= spec_class_for_size(size) < LAYOUT_LEN,
        spec_slab_size(spec_class_for_size(size)) >= size,
        forall|j: int| 0 <= j < spec_class_for_size(size) ==> spec_slab_size(j) < size,
{
}

/// Consistency of the two mappings: every byte of the region that class
/// `spec_class_for_size(size)` occupies maps back to that same class.
pub proof fn lemma_class_maps_consistent(size: int, off: int)
    requires
        1 <= size <= SLAB_THRESHOLD,
        spec_slab_offset(spec_class_for_size(size)) <= off < spec_slab_offset(
            spec_class_for_size(size),
        ) + SLAB_CLASS_SIZE,
    ensures
        spec_class_of_offset(off) == spec_class_for_size(size),
{
    let i = spec_class_for_size(size);
    assert(CHUNK_HEADER_SIZE + i * (SLAB_CLASS_SIZE as int) <= off < CHUNK_HEADER_SIZE + (i + 1) * (
    SLAB_CLASS_SIZE as int)) by (nonlinear_arith)
        requires
            spec_slab_offset(i) <= off < spec_slab_offset(i) + SLAB_CLASS_SIZE,
    ;
    assert((off - CHUNK_HEADER_SIZE) / (SLAB_CLASS_SIZE as int) == i) by (nonlinear_arith)
        requires
            CHUNK_HEADER_SIZE + i * (SLAB_CLASS_SIZE as int) <= off < CHUNK_HEADER_SIZE + (i + 1) * (
            SLAB_CLASS_SIZE as int),
    ;
}

/// Any offset in the slab area maps to a class whose storage contains it.
pub proof fn lemma_class_of_offset_in_range(off: int)
    requires
        CHUNK_HEADER_SIZE <= off < SLAB_TOTAL_CAPACITY,
    ensures
        0 <= spec_class_of_offset(off) < LAYOUT_LEN,
        spec_slab_offset(spec_class_of_offset(off)) <= off,
        off < spec_slab_offset(spec_class_of_offset(off)) + SLAB_CLASS_SIZE,
{
    let i = spec_class_of_offset(off);
    assert(0 <= i < LAYOUT_LEN && i * (SLAB_CLASS_SIZE as int) <= off - CHUNK_HEADER_SIZE < (i + 1)
        * (SLAB_CLASS_SIZE as int)) by (nonlinear_arith)
        requires
            i == (off - CHUNK_HEADER_SIZE) / (SLAB_CLASS_SIZE as int),
            CHUNK_HEADER_SIZE <= off < SLAB_TOTAL_CAPACITY,
    ;
}

/// The table of classes, one row per class index.
pub fn slab_config(i: usize) -> (c: SlabConfig)
    requires
        i < LAYOUT_LEN,
    ensures
        c.size == spec_slab_size(i as int),
        c.len == spec_slab_len(i as int),
{
    if i == 0 {
        SlabConfig { size: 8, len: 4096 }
    } else if i == 1 {
        SlabConfig { size: 16, len: 2048 }
    } else if i == 2 {
        SlabConfig { size: 32, len: 1024 }
    } else if i == 3 {
        SlabConfig { size: 64, len: 512 }
    } else if i == 4 {
        SlabConfig { size: 128, len: 256 }
    } else if i == 5 {
        SlabConfig { size: 256, len: 128 }
    } else if i == 6 {
        SlabConfig { size: 512, len: 64 }
    } else if i == 7 {
        SlabConfig { size: 1024, len: 32 }
    } else {
        SlabConfig { size: 2048, len: 16 }
    }
}

/// The static layout calculator: offsets and bounds of the slab area.
pub struct SlabLayout;

impl SlabLayout {
    /// Byte offset where class `i` begins; `offsets(LAYOUT_LEN)` is the end
    /// of the slab area.
    pub fn offsets(i: usize) -> (r: usize)
        requires
            i <= LAYOUT_LEN,
        ensures
            r == spec_slab_offset(i as int),
    {
        CHUNK_HEADER_SIZE + i * SLAB_CLASS_SIZE
    }

    /// Byte offset where the segregated-fit region begins.
    pub fn total_capacity() -> (r: usize)
        ensures
            r == SLAB_TOTAL_CAPACITY,
            r == spec_slab_offset(LAYOUT_LEN as int),
    {
        SLAB_TOTAL_CAPACITY
    }

    /// Largest request size that the slab classes serve.
    pub fn chunk_threshold() -> (r: usize)
        ensures
            r == SLAB_THRESHOLD,
    {
        SLAB_THRESHOLD
    }
}

/// The class that serves a request of `size` bytes.
pub fn get_slab_idx(size: usize) -> (i: usize)
    requires
        size <= SLAB_THRESHOLD,
    ensures
        i == spec_class_for_size(size as int),
        i < LAYOUT_LEN,
{
    if size <= 8 {
        0
    } else if size <= 16 {
        1
    } else if size <= 32 {
        2
    } else if size <= 64 {
        3
    } else if size <= 128 {
        4
    } else if size <= 256 {
        5
    } else if size <= 512 {
        6
    } else if size <= 1024 {
        7
    } else {
        8
    }
}

/// An intrusive free-list link as it would sit in a freed slot: the address
/// of the next free slot, zero for the end of the list.
pub struct FreeNode {
    pub next: usize,
}

/// Mathematical state of one slab class: start address of its storage, bump
/// cursor, and the stack of freed slot addresses (last element is the top).
#[verifier::ext_equal]
pub struct SlabView {
    pub base: int,
    pub bump: int,
    pub free: Seq<usize>,
}

impl SlabView {
    /// A slot address of this class that the bump cursor has already passed.
    pub open spec fn slot_valid(self, idx: int, a: usize) -> bool {
        &&& self.base <= a
        &&& (a - self.base) % spec_slab_size(idx) == 0
        &&& (a - self.base) / spec_slab_size(idx) < self.bump
    }

    /// Well-formedness relative to the class index the slab serves.
    pub open spec fn wf(self, idx: int) -> bool {
        &&& 0 <= idx < LAYOUT_LEN
        &&& 0 <= self.bump <= spec_slab_len(idx)
        &&& 0 < self.base
        &&& self.base + SLAB_CLASS_SIZE <= usize::MAX
        &&& forall|k: int|
            0 <= k < self.free.len() ==> self.slot_valid(idx, #[trigger] self.free[k])
        &&& forall|k1: int, k2: int|
            0 <= k1 < k2 < self.free.len() ==> self.free[k1] != self.free[k2]
    }
}

/// One slab class of the chunk bound to the current thread: a bump cursor
/// plus a LIFO free list of slot addresses.
pub struct LocalSlab {
    pub base: usize,
    pub bump_idx: u32,
    pub free_list: Vec<usize>,
}

impl View for LocalSlab {
    type V = SlabView;

    open spec fn view(&self) -> SlabView {
        SlabView { base: self.base as int, bump: self.bump_idx as int, free: self.free_list@ }
    }
}

/// What allocating from a class does: pop the most recently freed slot if
/// one exists, else advance the bump cursor, else fail.
pub open spec fn spec_slab_alloc(v: SlabView, idx: int) -> (SlabView, Option<usize>) {
    if v.free.len() > 0 {
        (SlabView { free: v.free.drop_last(), ..v }, Some(v.free.last()))
    } else if v.bump < spec_slab_len(idx) {
        (
            SlabView { bump: v.bump + 1, ..v },
            Some((v.base + v.bump * spec_slab_size(idx)) as usize),
        )
    } else {
        (v, None)
    }
}

/// What freeing a slot does: push its address on the free stack.
pub open spec fn spec_slab_dealloc(v: SlabView, a: usize) -> SlabView {
    SlabView { free: v.free.push(a), ..v }
}

impl LocalSlab {
    /// A fresh slab over the class storage that starts at `base`.
    pub fn new(base: usize) -> (s: Self)
        ensures
            s@ == (SlabView { base: base as int, bump: 0, free: Seq::<usize>::empty() }),
    {
        let s = LocalSlab { base, bump_idx: 0, free_list: Vec::new() };
        proof {
            assert(s@ =~= SlabView { base: base as int, bump: 0, free: Seq::<usize>::empty() });
        }
        s
    }

    /// Serve one block of class `idx`, favouring recently freed slots.
    pub fn allocate(&mut self, idx: usize) -> (r: Option<usize>)
        requires
            old(self)@.wf(idx as int),
        ensures
            final(self)@.wf(idx as int),
            (final(self)@, r) == spec_slab_alloc(old(self)@, idx as int),
            r is Some ==> old(self)@.slot_valid(idx as int, r->Some_0)
                || final(self)@.slot_valid(idx as int, r->Some_0),
    {
        proof {
            lemma_slab_class_full(idx as int);
        }
        match self.free_list.pop() {
            Some(a) => {
                proof {
                    let v = old(self)@;
                    assert(self@ =~= spec_slab_alloc(v, idx as int).0);
                    assert forall|k: int| 0 <= k < self@.free.len() implies self@.slot_valid(
                        idx as int,
                        #[trigger] self@.free[k],
                    ) by {
                        assert(v.slot_valid(idx as int, v.free[k]));
                    }
                    assert(v.slot_valid(idx as int, a));
                }
                Some(a)
            },
            None => {
                let cfg = slab_config(idx);
                if (self.bump_idx as usize) < cfg.len {
                    proof {
                        assert((self.bump_idx as int) * spec_slab_size(idx as int) + spec_slab_size(
                            idx as int,
                        ) <= spec_slab_len(idx as int) * spec_slab_size(idx as int))
                            by (nonlinear_arith)
                            requires
                                (self.bump_idx as int) < spec_slab_len(idx as int),
                                0 < spec_slab_size(idx as int),
                        ;
                    }
                    let a = self.base + (self.bump_idx as usize) * cfg.size;
                    self.bump_idx = self.bump_idx + 1;
                    proof {
                        let v = old(self)@;
                        let sz = spec_slab_size(idx as int);
                        assert((a - v.base) == v.bump * sz);
                        assert((v.bump * sz) % sz == 0 && (v.bump * sz) / sz == v.bump)
                            by (nonlinear_arith)
                            requires
                                0 < sz,
                                0 <= v.bump,
                        ;
                        assert forall|k: int| 0 <= k < self@.free.len() implies self@.slot_valid(
                            idx as int,
                            #[trigger] self@.free[k],
                        ) by {
                            assert(v.slot_valid(idx as int, v.free[k]));
                        }
                        assert(self@ =~= spec_slab_alloc(v, idx as int).0);
                    }
                    Some(a)
                } else {
                    None
                }
            },
        }
    }

    /// Return a freed slot of this class to the top of the free stack.
    pub fn deallocate(&mut self, addr: usize)
        ensures
            final(self)@ == spec_slab_dealloc(old(self)@, addr),
    {
        self.free_list.push(addr);
        proof {
            assert(self@ =~= spec_slab_dealloc(old(self)@, addr));
        }
    }
}

/// A valid slot lies inside its class's storage bytes.
pub proof fn lemma_slot_in_class(v: SlabView, idx: int, a: usize)
    requires
        v.wf(idx),
        v.slot_valid(idx, a),
    ensures
        v.base <= a < v.base + SLAB_CLASS_SIZE,
{
    let sz = spec_slab_size(idx);
    let q = (a - v.base) / sz;
    vstd::arithmetic::div_mod::lemma_fundamental_div_mod(a - v.base, sz);
    lemma_slab_class_full(idx);
    assert(q * sz + sz <= spec_slab_len(idx) * sz) by (nonlinear_arith)
        requires
            q < spec_slab_len(idx),
            0 < sz,
    ;
}

/// Freeing keeps the slab well formed when the slot is a valid one that is
/// not already free.
pub proof fn lemma_slab_dealloc_wf(v: SlabView, idx: int, a: usize)
    requires
        v.wf(idx),
        v.slot_valid(idx, a),
        !v.free.contains(a),
    ensures
        spec_slab_dealloc(v, a).wf(idx),
        spec_slab_dealloc(v, a).free.contains(a),
{
    let w = spec_slab_dealloc(v, a);
    assert forall|k: int| 0 <= k < w.free.len() implies w.slot_valid(idx, #[trigger] w.free[k]) by {
        if k < v.free.len() {
            assert(v.slot_valid(idx, v.free[k]));
        }
    }
    assert(w.free[w.free.len() - 1] == a);
}

/// Freed slots are reused before the bump cursor moves: with a non-empty
/// free stack, allocation returns its top and leaves the cursor alone.
pub proof fn lemma_slab_reuse_before_bump(v: SlabView, idx: int)
    requires
        v.wf(idx),
        v.free.len() > 0,
    ensures
        spec_slab_alloc(v, idx).1 == Some(v.free.last()),
        spec_slab_alloc(v, idx).0.bump == v.bump,
{
}

/// A remotely freed slot, once the owner's drain has pushed it onto its
/// class's free stack, is handed out again by the very next allocation from
/// that class, with the cursor untouched.
pub proof fn lemma_drained_slot_reused(v: SlabView, idx: int, a: usize)
    requires
        v.wf(idx),
        v.free.len() > 0,
        v.free.last() == a,
    ensures
        spec_slab_alloc(v, idx) == (SlabView { free: v.free.drop_last(), ..v }, Some(a)),
{
}

/// Round trip: freeing a live slot and then allocating from the same class
/// yields that very slot back and restores the exact prior state.
pub proof fn lemma_slab_round_trip(v: SlabView, idx: int, a: usize)
    requires
        v.wf(idx),
        v.slot_valid(idx, a),
        !v.free.contains(a),
    ensures
        spec_slab_alloc(spec_slab_dealloc(v, a), idx) == (v, Some(a)),
{
    let w = spec_slab_dealloc(v, a);
    assert(w.free.len() > 0);
    assert(w.free.last() == a);
    assert(w.free.drop_last() =~= v.free);
    assert(spec_slab_alloc(w, idx).0 =~= v);
}

} // verus!
