//! The arena: partitions the backing region into fixed-size chunks, hands
//! them to threads on demand, and recycles fully freed chunks over a free
//! stack. It also owns one header per chunk, holding the owner token and the
//! inbox of addresses that foreign threads have freed.

use vstd::prelude::*;

verus! {

/// Bytes of one chunk.
pub const CHUNK_SIZE: usize = 2 * 1024 * 1024;

/// Largest number of chunks the backing region is sized for.
pub const MAX_CHUNKS: usize = 256;

/// An intrusive link of the lock-free free-chunk stack, as it would sit in
/// the first word of a free chunk: the address of the next free chunk, zero
/// for the end of the stack.
pub struct FreeNode {
    pub next: usize,
}

/// Per-chunk metadata: the owning thread's token (zero while unowned) and
/// the stack of addresses that foreign threads freed into this chunk (the
/// last element is the most recently pushed).
pub struct ChunkHeader {
    pub owner_id: usize,
    pub remote_free_list: Vec<usize>,
}

/// The global chunk manager over one contiguous backing region.
pub struct XrossGlobalAllocator {
    /// First address of the backing region.
    pub base: usize,
    /// Byte length of the backing region.
    pub size: usize,
    /// Bump cursor: bytes of the region already carved into chunks.
    pub next: usize,
    /// Stack of fully freed chunk base addresses (last element is the top).
    pub free_chunks: Vec<usize>,
    /// One header per chunk of the region, indexed by chunk number.
    pub headers: Vec<ChunkHeader>,
    /// How many times a chunk was handed out (saturating).
    pub acquired: u64,
}

impl XrossGlobalAllocator {
    /// Number of chunks the region holds.
    pub open spec fn chunk_count(self) -> int {
        self.size as int / CHUNK_SIZE as int
    }

    /// Whether an address lies inside the backing region.
    pub open spec fn spec_is_own(self, addr: usize) -> bool {
        self.base <= addr < self.base + self.size
    }

    /// The chunk number that an in-region address belongs to.
    pub open spec fn spec_chunk_index(self, addr: usize) -> int {
        (addr - self.base) / (CHUNK_SIZE as int)
    }

    /// Base address of chunk number `i`.
    pub open spec fn spec_chunk_base(self, i: int) -> int {
        self.base + i * (CHUNK_SIZE as int)
    }

    /// A chunk base address that the bump cursor has already passed, i.e.
    /// one that has been handed out at least once.
    pub open spec fn spec_valid_chunk(self, c: usize) -> bool {
        &&& self.base <= c
        &&& c + CHUNK_SIZE <= self.base + self.next
        &&& (c - self.base) % (CHUNK_SIZE as int) == 0
    }

    /// An address that a block inside chunk number `i` may have: beyond the
    /// header region, before the chunk's end.
    pub open spec fn spec_in_chunk(self, i: int, a: usize) -> bool {
        &&& self.spec_chunk_base(i) + crate::slab::CHUNK_HEADER_SIZE <= a
        &&& a < self.spec_chunk_base(i) + CHUNK_SIZE
    }

    /// Well-formedness of the arena.
    pub open spec fn wf(self) -> bool {
        &&& 0 < self.base
        &&& self.base as int % (CHUNK_SIZE as int) == 0
        &&& self.size as int % (CHUNK_SIZE as int) == 0
        &&& self.base + self.size <= usize::MAX
        &&& self.next <= self.size
        &&& self.next as int % (CHUNK_SIZE as int) == 0
        &&& self.headers.len() == self.chunk_count()
        &&& forall|k: int|
            0 <= k < self.free_chunks@.len() ==> self.spec_valid_chunk(
                #[trigger] self.free_chunks@[k],
            )
        &&& forall|k1: int, k2: int|
            0 <= k1 < k2 < self.free_chunks@.len() ==> self.free_chunks@[k1]
                != self.free_chunks@[k2]
        &&& forall|k: int|
            0 <= k < self.free_chunks@.len() ==> {
                let i = self.spec_chunk_index(#[trigger] self.free_chunks@[k]);
                &&& self.headers@[i].owner_id == 0
                &&& self.headers@[i].remote_free_list@.len() == 0
            }
        &&& forall|i: int|
            self.next as int / (CHUNK_SIZE as int) <= i < self.headers@.len() ==> (
            #[trigger] self.headers@[i]).owner_id == 0
                && self.headers@[i].remote_free_list@.len() == 0
        &&& forall|i: int, k: int|
            0 <= i < self.headers@.len() && 0 <= k < self.headers@[i].remote_free_list@.len()
                ==> self.spec_in_chunk(i, #[trigger] self.headers@[i].remote_free_list@[k])
        &&& forall|i: int, k1: int, k2: int|
            0 <= i < self.headers@.len() && 0 <= k1 < k2
                < self.headers@[i].remote_free_list@.len()
                ==> #[trigger] self.headers@[i].remote_free_list@[k1]
                != #[trigger] self.headers@[i].remote_free_list@[k2]
    }

    /// A fresh arena over the region `[base, base + size)`.
    pub fn new(base: usize, size: usize) -> (r: Self)
        requires
            0 < base,
            base as int % (CHUNK_SIZE as int) == 0,
            size as int % (CHUNK_SIZE as int) == 0,
            base + size <= usize::MAX,
        ensures
            r.wf(),
            r.base == base,
            r.size == size,
            r.next == 0,
            r.acquired == 0,
            r.free_chunks@.len() == 0,
            r.headers@.len() == r.chunk_count(),
            forall|i: int|
                0 <= i < r.headers@.len() ==> (#[trigger] r.headers@[i]).owner_id == 0
                    && r.headers@[i].remote_free_list@.len() == 0,
    {
        let count = size / CHUNK_SIZE;
        let mut headers: Vec<ChunkHeader> = Vec::new();
        let mut j: usize = 0;
        while j < count
            invariant
                j <= count,
                headers@.len() == j,
                forall|i: int|
                    0 <= i < j ==> (#[trigger] headers@[i]).owner_id == 0
                        && headers@[i].remote_free_list@.len() == 0,
            decreases count - j,
        {
            headers.push(ChunkHeader { owner_id: 0, remote_free_list: Vec::new() });
            j = j + 1;
        }
        XrossGlobalAllocator { base, size, next: 0, free_chunks: Vec::new(), headers, acquired: 0 }
    }

    /// Pop the most recently freed chunk, if any.
    fn pop_free_chunk(&mut self) -> (r: Option<usize>)
        requires
            old(self).wf(),
        ensures
            final(self).wf(),
            final(self).base == old(self).base,
            final(self).size == old(self).size,
            final(self).next == old(self).next,
            final(self).headers == old(self).headers,
            final(self).acquired == old(self).acquired,
            old(self).free_chunks@.len() > 0 ==> r == Some(old(self).free_chunks@.last())
                && final(self).free_chunks@ == old(self).free_chunks@.drop_last(),
            old(self).free_chunks@.len() == 0 ==> r is None && final(self).free_chunks@ == old(self).free_chunks@,
    {
        let r = self.free_chunks.pop();
        proof {
            if old(self).free_chunks@.len() > 0 {
                assert forall|k: int| 0 <= k < self.free_chunks@.len() implies self.spec_valid_chunk(
                    #[trigger] self.free_chunks@[k],
                ) by {
                    assert(old(self).spec_valid_chunk(old(self).free_chunks@[k]));
                }
            }
        }
        r
    }

    /// Hand out a chunk: reuse a freed one if the stack is non-empty, else
    /// advance the bump cursor if the region still has room. Never blocks
    /// and never asks the operating system for memory.
    pub fn alloc_chunk(&mut self) -> (r: Option<usize>)
        requires
            old(self).wf(),
        ensures
            final(self).wf(),
            final(self).base == old(self).base,
            final(self).size == old(self).size,
            final(self).headers == old(self).headers,
            // reuse is preferred over carving a new chunk
            old(self).free_chunks@.len() > 0 ==> {
                &&& r == Some(old(self).free_chunks@.last())
                &&& final(self).free_chunks@ == old(self).free_chunks@.drop_last()
                &&& final(self).next == old(self).next
            },
            old(self).free_chunks@.len() == 0 && old(self).next + CHUNK_SIZE <= old(self).size
                ==> {
                &&& r == Some((old(self).base + old(self).next) as usize)
                &&& final(self).next == old(self).next + CHUNK_SIZE
                &&& final(self).free_chunks@ == old(self).free_chunks@
            },
            old(self).free_chunks@.len() == 0 && old(self).next + CHUNK_SIZE > old(self).size
                ==> r is None && final(self).free_chunks@ == old(self).free_chunks@
                && final(self).next == old(self).next,
            // whatever came back is a cleared, unowned, handed-out chunk
            r matches Some(c) ==> {
                &&& final(self).spec_valid_chunk(c)
                &&& !final(self).free_chunks@.contains(c)
                &&& final(self).headers@[final(self).spec_chunk_index(c)].owner_id == 0
                &&& final(self).headers@[final(self).spec_chunk_index(
                    c,
                )].remote_free_list@.len() == 0
            },
            r is Some ==> final(self).acquired == (if old(self).acquired < u64::MAX {
                old(self).acquired + 1
            } else {
                old(self).acquired as int
            }),
            r is None ==> final(self).acquired == old(self).acquired,
    {
        let reused = self.pop_free_chunk();
        match reused {
            Some(c) => {
                if self.acquired < u64::MAX {
                    self.acquired = self.acquired + 1;
                }
                proof {
                    let g = *old(self);
                    assert(g.free_chunks@[g.free_chunks@.len() - 1] == c);
                    assert(g.spec_valid_chunk(c));
                    lemma_chunk_index_bounds(*self, c);
                    if self.free_chunks@.contains(c) {
                        let k = choose|k: int|
                            0 <= k < self.free_chunks@.len() && self.free_chunks@[k] == c;
                        assert(g.free_chunks@[k] == g.free_chunks@[g.free_chunks@.len() - 1]);
                        assert(false);
                    }
                }
                Some(c)
            },
            None => {
                proof {
                    assert(self.base >= CHUNK_SIZE) by (nonlinear_arith)
                        requires
                            self.base as int % (CHUNK_SIZE as int) == 0,
                            self.base > 0,
                    ;
                }
                if self.next + CHUNK_SIZE <= self.size {
                    let c = self.base + self.next;
                    self.next = self.next + CHUNK_SIZE;
                    if self.acquired < u64::MAX {
                        self.acquired = self.acquired + 1;
                    }
                    proof {
                        let g = *old(self);
                        let cs = CHUNK_SIZE as int;
                        assert((c - g.base) % cs == 0) by (nonlinear_arith)
                            requires
                                c == g.base + g.next,
                                g.next as int % cs == 0,
                                cs > 0,
                        ;
                        assert((g.next + cs) % cs == 0 && (g.next + cs) / cs == g.next as int / cs
                            + 1) by (nonlinear_arith)
                            requires
                                g.next as int % cs == 0,
                                cs > 0,
                                g.next >= 0,
                        ;
                        assert(self.spec_valid_chunk(c));
                        let i = self.spec_chunk_index(c);
                        assert(i == g.next as int / cs) by (nonlinear_arith)
                            requires
                                i == (c - g.base) / cs,
                                c == g.base + g.next,
                                cs > 0,
                        ;
                        vstd::arithmetic::div_mod::lemma_fundamental_div_mod(g.next as int, cs);
                        assert(g.next as int == (g.next as int / cs) * cs);
                        assert(i * cs + CHUNK_SIZE <= g.size as int);
                        assert(i < g.size as int / cs) by (nonlinear_arith)
                            requires
                                i * cs + (CHUNK_SIZE as int) <= g.size as int,
                                0 <= i,
                                cs == CHUNK_SIZE as int,
                                cs > 0,
                        ;
                        assert(0 <= i < g.chunk_count());
                        assert(g.headers@[i].owner_id == 0
                            && g.headers@[i].remote_free_list@.len() == 0);
                    }
                    Some(c)
                } else {
                    None
                }
            },
        }
    }

    /// Return a fully reclaimed chunk to the free stack. The caller must
    /// have drained every pending cross-thread free of this chunk first;
    /// ownership metadata is cleared here.
    pub fn push_free_chunk(&mut self, chunk_ptr: usize)
        requires
            old(self).wf(),
            old(self).spec_valid_chunk(chunk_ptr),
            !old(self).free_chunks@.contains(chunk_ptr),
            old(self).headers@[old(self).spec_chunk_index(chunk_ptr)].remote_free_list@.len()
                == 0,
        ensures
            final(self).wf(),
            final(self).base == old(self).base,
            final(self).size == old(self).size,
            final(self).next == old(self).next,
            final(self).acquired == old(self).acquired,
            final(self).free_chunks@ == old(self).free_chunks@.push(chunk_ptr),
            final(self).headers@ == old(self).headers@.update(
                old(self).spec_chunk_index(chunk_ptr),
                ChunkHeader {
                    owner_id: 0,
                    remote_free_list: old(self).headers@[old(self).spec_chunk_index(
                        chunk_ptr,
                    )].remote_free_list,
                },
            ),
    {
        proof {
            lemma_chunk_index_bounds(*old(self), chunk_ptr);
        }
        let off = chunk_ptr - self.base;
        let i = off / CHUNK_SIZE;
        proof {
            assert(i == old(self).spec_chunk_index(chunk_ptr));
        }
        let header = &mut self.headers[i];
        header.owner_id = 0;
        self.free_chunks.push(chunk_ptr);
        proof {
            let g = *old(self);
            let gi = g.spec_chunk_index(chunk_ptr);
            lemma_valid_chunk_below_cursor(g, chunk_ptr);
            assert(self.headers@ =~= g.headers@.update(
                gi,
                ChunkHeader {
                    owner_id: 0,
                    remote_free_list: g.headers@[gi].remote_free_list,
                },
            ));
            assert forall|k: int| 0 <= k < self.free_chunks@.len() implies self.spec_valid_chunk(
                #[trigger] self.free_chunks@[k],
            ) by {
                if k < g.free_chunks@.len() {
                    assert(g.spec_valid_chunk(g.free_chunks@[k]));
                }
            }
            assert forall|k: int| 0 <= k < self.free_chunks@.len() implies {
                let ci = self.spec_chunk_index(#[trigger] self.free_chunks@[k]);
                self.headers@[ci].owner_id == 0 && self.headers@[ci].remote_free_list@.len() == 0
            } by {
                let c = self.free_chunks@[k];
                let ci = self.spec_chunk_index(c);
                if k < g.free_chunks@.len() {
                    assert(g.spec_valid_chunk(c));
                    lemma_chunk_index_bounds(g, c);
                    assert(g.headers@[ci].owner_id == 0
                        && g.headers@[ci].remote_free_list@.len() == 0);
                    if ci == gi {
                        assert(self.headers@[ci].owner_id == 0);
                        assert(self.headers@[ci].remote_free_list@.len() == 0);
                    } else {
                        assert(self.headers@[ci] == g.headers@[ci]);
                    }
                } else {
                    assert(c == chunk_ptr);
                    assert(ci == gi);
                    assert(self.headers@[gi].owner_id == 0);
                    assert(self.headers@[gi].remote_free_list@.len() == 0);
                }
            }
        }
    }

    /// The hard boundary between this allocator and the system allocator:
    /// whether the address lies in the backing region.
    pub fn is_own(&self, addr: usize) -> (r: bool)
        ensures
            r == self.spec_is_own(addr),
    {
        addr >= self.base && addr - self.base < self.size
    }
}

/// A valid chunk base address maps to a chunk number inside the header
/// table, and its chunk starts at that very address.
pub proof fn lemma_chunk_index_bounds(g: XrossGlobalAllocator, c: usize)
    requires
        g.wf(),
        g.spec_valid_chunk(c),
    ensures
        0 <= g.spec_chunk_index(c) < g.headers@.len(),
        g.spec_chunk_base(g.spec_chunk_index(c)) == c,
{
    let i = g.spec_chunk_index(c);
    let cs = CHUNK_SIZE as int;
    assert(i == (c - g.base) / cs);
    assert((c - g.base) == ((c - g.base) / cs) * cs) by (nonlinear_arith)
        requires
            (c - g.base) % cs == 0,
            cs > 0,
    ;
    assert(0 <= i && i * cs + cs <= g.size) by (nonlinear_arith)
        requires
            i == (c - g.base) / cs,
            (c - g.base) == i * cs,
            0 <= c - g.base,
            c + cs <= g.base + g.next,
            g.next <= g.size,
            cs > 0,
    ;
    assert(i < g.size as int / cs) by (nonlinear_arith)
        requires
            i * cs + cs <= g.size,
            0 <= i,
            cs > 0,
    ;
}

/// A handed-out chunk's number lies below the chunk count of the bump
/// cursor, so the cursor can only ever meet cleared headers.
pub proof fn lemma_valid_chunk_below_cursor(g: XrossGlobalAllocator, c: usize)
    requires
        g.wf(),
        g.spec_valid_chunk(c),
    ensures
        g.spec_chunk_index(c) < g.next as int / (CHUNK_SIZE as int),
{
    let cs = CHUNK_SIZE as int;
    let i = g.spec_chunk_index(c);
    lemma_chunk_index_bounds(g, c);
    assert(i * cs + cs <= g.next);
    assert(i < g.next as int / cs) by (nonlinear_arith)
        requires
            i * cs + cs <= g.next,
            0 <= i,
            cs > 0,
            g.next as int % cs == 0,
    ;
}

/// An address inside chunk number `i` maps back to chunk number `i`.
pub proof fn lemma_index_of_inner_addr(g: XrossGlobalAllocator, i: int, a: usize)
    requires
        0 <= i,
        g.spec_chunk_base(i) <= a < g.spec_chunk_base(i) + CHUNK_SIZE,
    ensures
        g.spec_chunk_index(a) == i,
{
    let cs = CHUNK_SIZE as int;
    assert((a - g.base) / cs == i) by (nonlinear_arith)
        requires
            g.base + i * cs <= a < g.base + i * cs + cs,
            cs > 0,
            0 <= i,
    ;
}

/// An address of chunk number `i` is inside the region, and chunk numbers
/// of distinct chunks never collide: the chunk found from an address is the
/// chunk that contains it.
pub proof fn lemma_addr_chunk_index(g: XrossGlobalAllocator, a: usize)
    requires
        g.wf(),
        g.spec_is_own(a),
    ensures
        0 <= g.spec_chunk_index(a) < g.chunk_count(),
        g.spec_chunk_base(g.spec_chunk_index(a)) <= a,
        a < g.spec_chunk_base(g.spec_chunk_index(a)) + CHUNK_SIZE,
{
    let i = g.spec_chunk_index(a);
    let cs = CHUNK_SIZE as int;
    assert(0 <= i && i * cs <= a - g.base < (i + 1) * cs) by (nonlinear_arith)
        requires
            i == (a - g.base) / cs,
            0 <= a - g.base,
            cs > 0,
    ;
    assert((i + 1) * cs == i * cs + cs) by (nonlinear_arith);
    assert(i < g.size as int / cs) by (nonlinear_arith)
        requires
            i * cs < g.size,
            0 <= i,
            cs > 0,
            g.size as int % cs == 0,
    ;
}

} // verus!
