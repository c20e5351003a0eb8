//! The memory source and the fallback allocator, as plain-address models.
//!
//! `RawMemory` describes the one backing region that the process obtains
//! once and keeps for its lifetime. `SystemHeap` stands for the system
//! allocator that serves everything the chunk machinery declines; it hands
//! out addresses from a range that lies entirely outside the backing
//! region, so the two regimes can never alias.

use vstd::prelude::*;

use crate::tlsf::{span_disjoint, spec_align_up, Span};

verus! {

/// The backing region handed in by the memory source: base address, byte
/// length, and the alignment it was requested with.
#[derive(Clone, Copy)]
pub struct RawMemory {
    pub base: usize,
    pub size: usize,
    pub align: usize,
}

impl RawMemory {
    /// Whether an address lies inside the backing region.
    pub fn is_own(&self, ptr: usize) -> (r: bool)
        ensures
            r == (self.base <= ptr < self.base + self.size),
    {
        ptr >= self.base && ptr - self.base < self.size
    }
}

/// The system allocator, modelled as a bump allocator over an address range
/// disjoint from the backing region, with a record of its live blocks.
pub struct SystemHeap {
    /// First address this heap may use.
    pub start: usize,
    /// Next address to place a block at.
    pub next: usize,
    /// One past the last usable address.
    pub limit: usize,
    /// The blocks handed out and not yet freed.
    pub live: Vec<Span>,
}

impl SystemHeap {
    /// Well-formedness: the cursor stays in range and every live block lies
    /// below it; live blocks are pairwise disjoint.
    pub open spec fn wf(self) -> bool {
        &&& 0 < self.start
        &&& self.start <= self.next <= self.limit
        &&& forall|k: int|
            0 <= k < self.live@.len() ==> {
                let s = #[trigger] self.live@[k];
                self.start <= s.addr && s.addr + s.len <= self.next && s.len > 0
            }
        &&& forall|k1: int, k2: int|
            0 <= k1 < self.live@.len() && 0 <= k2 < self.live@.len() && k1 != k2 ==> span_disjoint(
                #[trigger] self.live@[k1],
                #[trigger] self.live@[k2],
            )
    }

    /// Whether a live block starts at `addr`.
    pub open spec fn spec_has_live(self, addr: usize) -> bool {
        exists|k: int| 0 <= k < self.live@.len() && (#[trigger] self.live@[k]).addr == addr
    }

    /// A fresh heap over `[start, limit)`.
    pub fn new(start: usize, limit: usize) -> (h: Self)
        requires
            0 < start <= limit,
        ensures
            h.wf(),
            h.start == start,
            h.next == start,
            h.limit == limit,
            h.live@.len() == 0,
    {
        SystemHeap { start, next: start, limit, live: Vec::new() }
    }

    /// Hand out a fresh aligned block, or report exhaustion. A block is
    /// never reused, so every address handed out is distinct from every
    /// earlier one.
    pub fn allocate(&mut self, size: usize, align: usize) -> (r: Option<usize>)
        requires
            old(self).wf(),
            0 < size,
            0 < align,
        ensures
            final(self).wf(),
            final(self).start == old(self).start,
            final(self).limit == old(self).limit,
            r matches Some(a) ==> {
                &&& a as int % align as int == 0
                &&& old(self).next <= a
                &&& a + size <= old(self).limit
                &&& final(self).next == a + size
                &&& final(self).live@ == old(self).live@.push(Span { addr: a, len: size })
                &&& forall|k: int|
                    0 <= k < old(self).live@.len() ==> span_disjoint(
                        Span { addr: a, len: size },
                        #[trigger] old(self).live@[k],
                    )
                &&& final(self).spec_has_live(a)
                &&& forall|b: usize|
                    old(self).spec_has_live(b) ==> #[trigger] final(self).spec_has_live(b)
            },
            r is None ==> *final(self) == *old(self) && spec_align_up(
                old(self).next as int,
                align as int,
            ) + size > old(self).limit,
            spec_align_up(old(self).next as int, align as int) + size <= old(self).limit
                ==> r is Some,
    {
        proof {
            crate::tlsf::lemma_align_up(self.next as int, align as int);
        }
        let rem = self.next % align;
        let a: usize;
        if rem == 0 {
            a = self.next;
        } else {
            let need = align - rem;
            if need > self.limit - self.next {
                proof {
                    assert(spec_align_up(self.next as int, align as int) == self.next + need);
                }
                return None;
            }
            a = self.next + need;
        }
        if size > self.limit - a {
            return None;
        }
        self.next = a + size;
        self.live.push(Span { addr: a, len: size });
        proof {
            let g = *old(self);
            assert(self.live@[self.live@.len() - 1].addr == a);
            assert forall|k: int|
                0 <= k < g.live@.len() implies span_disjoint(
                Span { addr: a, len: size },
                #[trigger] g.live@[k],
            ) by {
                assert(g.live@[k].addr + g.live@[k].len <= g.next);
            }
            assert forall|b: usize| g.spec_has_live(b) implies self.spec_has_live(b) by {
                let k = choose|k: int| 0 <= k < g.live@.len() && (#[trigger] g.live@[k]).addr == b;
                assert(self.live@[k].addr == b);
            }
        }
        Some(a)
    }

    /// Free the live block that starts at `addr`. The model's cursor never
    /// moves back; the block merely stops being live.
    pub fn deallocate(&mut self, addr: usize)
        requires
            old(self).wf(),
            old(self).spec_has_live(addr),
        ensures
            final(self).wf(),
            final(self).start == old(self).start,
            final(self).next == old(self).next,
            final(self).limit == old(self).limit,
            final(self).live@.len() == old(self).live@.len() - 1,
            !final(self).spec_has_live(addr),
            forall|b: usize|
                b != addr && old(self).spec_has_live(b) ==> #[trigger] final(self).spec_has_live(
                    b,
                ),
            forall|b: usize|
                #[trigger] final(self).spec_has_live(b) ==> old(self).spec_has_live(b),
    {
        let n = self.live.len();
        let mut j: usize = 0;
        let mut found_j: usize = n;
        while j < n
            invariant
                self.live@.len() == n,
                j <= n,
                found_j <= n,
                found_j == n ==> forall|k: int| 0 <= k < j ==> (#[trigger] self.live@[k]).addr
                    != addr,
                found_j < n ==> self.live@[found_j as int].addr == addr,
                self == old(self),
            decreases n - j,
        {
            if found_j == n && self.live[j].addr == addr {
                found_j = j;
            }
            j = j + 1;
        }
        proof {
            if found_j == n {
                let k = choose|k: int|
                    0 <= k < self.live@.len() && (#[trigger] self.live@[k]).addr == addr;
                assert(self.live@[k].addr != addr);
            }
        }
        let j = found_j;
        let ghost g = *old(self);
        let ghost lidx = j as int;
        self.live.remove(j);
        proof {
            assert forall|k: int| 0 <= k < self.live@.len() implies {
                let s = #[trigger] self.live@[k];
                self.start <= s.addr && s.addr + s.len <= self.next && s.len > 0
            } by {
                if k < lidx {
                    assert(self.live@[k] == g.live@[k]);
                } else {
                    assert(self.live@[k] == g.live@[k + 1]);
                }
            }
            assert forall|k1: int, k2: int|
                0 <= k1 < self.live@.len() && 0 <= k2 < self.live@.len() && k1
                    != k2 implies span_disjoint(
                #[trigger] self.live@[k1],
                #[trigger] self.live@[k2],
            ) by {
                let m1 = if k1 < lidx {
                    k1
                } else {
                    k1 + 1
                };
                let m2 = if k2 < lidx {
                    k2
                } else {
                    k2 + 1
                };
                assert(self.live@[k1] == g.live@[m1]);
                assert(self.live@[k2] == g.live@[m2]);
                assert(span_disjoint(g.live@[m1], g.live@[m2]));
            }
            assert forall|m: int| 0 <= m < self.live@.len() implies (
            #[trigger] self.live@[m]).addr != addr by {
                let mm = if m < lidx {
                    m
                } else {
                    m + 1
                };
                assert(self.live@[m] == g.live@[mm]);
                if g.live@[mm].addr == addr {
                    assert(span_disjoint(g.live@[mm], g.live@[lidx]));
                    assert(g.live@[mm].len > 0 && g.live@[lidx].len > 0);
                    assert(false);
                }
            }
            assert forall|b: usize| b != addr && g.spec_has_live(b) implies self.spec_has_live(
                b,
            ) by {
                let k = choose|k: int| 0 <= k < g.live@.len() && (#[trigger] g.live@[k]).addr == b;
                assert(k != lidx);
                let m = if k < lidx {
                    k
                } else {
                    k - 1
                };
                assert(self.live@[m].addr == b);
            }
            assert forall|b: usize| self.spec_has_live(b) implies g.spec_has_live(b) by {
                let m = choose|m: int|
                    0 <= m < self.live@.len() && (#[trigger] self.live@[m]).addr == b;
                let mm = if m < lidx {
                    m
                } else {
                    m + 1
                };
                assert(g.live@[mm].addr == b);
            }
        }
    }
}

} // verus!
