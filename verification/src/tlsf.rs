//! Segregated-fit allocator over the residual region of a chunk: the bytes
//! between the slab area and the chunk's end. It serves requests too large
//! for any slab class but still small enough to stay chunk-resident.
//!
//! The state is a list of free spans and a list of live spans, all inside
//! the region and pairwise disjoint. Allocation is first fit with splitting;
//! freeing returns the span to the free list.

use vstd::prelude::*;

verus! {

/// A contiguous byte range `[addr, addr + len)`.
#[derive(Clone, Copy)]
pub struct Span {
    pub addr: usize,
    pub len: usize,
}

/// Two spans that share no byte.
pub open spec fn span_disjoint(a: Span, b: Span) -> bool {
    a.addr + a.len <= b.addr || b.addr + b.len <= a.addr
}

/// `inner` lies fully inside `outer`.
pub open spec fn span_within(inner: Span, outer: Span) -> bool {
    outer.addr <= inner.addr && inner.addr + inner.len <= outer.addr + outer.len
}

/// The smallest address at or above `x` that is a multiple of `a`.
pub open spec fn spec_align_up(x: int, a: int) -> int {
    if x % a == 0 {
        x
    } else {
        x + a - x % a
    }
}

/// Whether a request of `size` bytes aligned to `align` fits inside `s`.
pub open spec fn span_fits(s: Span, size: int, align: int) -> bool {
    spec_align_up(s.addr as int, align) + size <= s.addr + s.len
}

/// `spec_align_up` lands on a multiple of the alignment, at or above the
/// start, and less than one alignment above it.
pub proof fn lemma_align_up(x: int, a: int)
    requires
        0 <= x,
        0 < a,
    ensures
        x <= spec_align_up(x, a) < x + a,
        spec_align_up(x, a) % a == 0,
{
    vstd::arithmetic::div_mod::lemma_fundamental_div_mod(x, a);
    vstd::arithmetic::div_mod::lemma_mod_bound(x, a);
    if x % a != 0 {
        let q = x / a;
        assert(spec_align_up(x, a) == a * q + a);
        assert(a * q + a == a * (q + 1)) by (nonlinear_arith);
        vstd::arithmetic::div_mod::lemma_mod_multiples_basic(q + 1, a);
        assert((a * (q + 1)) % a == 0) by {
            assert(a * (q + 1) == (q + 1) * a) by (nonlinear_arith);
        }
    }
}

/// Anything inside `outer` stays clear of whatever `outer` is clear of.
pub proof fn lemma_subspan_disjoint(inner: Span, outer: Span, other: Span)
    requires
        span_within(inner, outer),
        span_disjoint(outer, other),
    ensures
        span_disjoint(inner, other),
{
}

/// The segregated-fit allocator state over `[base, base + capacity)`.
pub struct Tlsf {
    pub base: usize,
    pub capacity: usize,
    pub free: Vec<Span>,
    pub live: Vec<Span>,
}

impl Tlsf {
    /// A span this allocator may hand out or hold free.
    pub open spec fn span_ok(self, s: Span) -> bool {
        &&& self.base <= s.addr
        &&& s.addr + s.len <= self.base + self.capacity
        &&& s.len > 0
    }

    /// Well-formedness: every span inside the region, all spans pairwise
    /// disjoint (free against free, live against live, and across).
    pub open spec fn wf(self) -> bool {
        &&& self.base + self.capacity <= usize::MAX
        &&& forall|k: int| 0 <= k < self.free@.len() ==> self.span_ok(#[trigger] self.free@[k])
        &&& forall|k: int| 0 <= k < self.live@.len() ==> self.span_ok(#[trigger] self.live@[k])
        &&& forall|k1: int, k2: int|
            0 <= k1 < self.free@.len() && 0 <= k2 < self.free@.len() && k1 != k2 ==> span_disjoint(
                #[trigger] self.free@[k1],
                #[trigger] self.free@[k2],
            )
        &&& forall|k1: int, k2: int|
            0 <= k1 < self.live@.len() && 0 <= k2 < self.live@.len() && k1 != k2 ==> span_disjoint(
                #[trigger] self.live@[k1],
                #[trigger] self.live@[k2],
            )
        &&& forall|k1: int, k2: int|
            0 <= k1 < self.free@.len() && 0 <= k2 < self.live@.len() ==> span_disjoint(
                #[trigger] self.free@[k1],
                #[trigger] self.live@[k2],
            )
    }

    /// Whether a live block starts at `addr`.
    pub open spec fn spec_has_live(self, addr: usize) -> bool {
        exists|k: int| 0 <= k < self.live@.len() && (#[trigger] self.live@[k]).addr == addr
    }

    /// A fresh allocator whose whole region is one free span.
    pub fn new(base: usize, capacity: usize) -> (t: Self)
        requires
            base + capacity <= usize::MAX,
            capacity > 0,
        ensures
            t.wf(),
            t.base == base,
            t.capacity == capacity,
            t.live@.len() == 0,
            t.free@.len() == 1,
            t.free@[0] == (Span { addr: base, len: capacity }),
    {
        let mut free: Vec<Span> = Vec::new();
        free.push(Span { addr: base, len: capacity });
        let t = Tlsf { base, capacity, free, live: Vec::new() };
        t
    }

    /// First-fit allocation of `size` bytes at alignment `align`: scan the
    /// free spans, place the block at the lowest aligned address of the
    /// first span it fits in, and split off what remains. Returns `None`,
    /// with the state untouched, exactly when no free span fits the request.
    pub fn allocate(&mut self, size: usize, align: usize) -> (r: Option<usize>)
        requires
            old(self).wf(),
            0 < size,
            0 < align,
        ensures
            final(self).wf(),
            final(self).base == old(self).base,
            final(self).capacity == old(self).capacity,
            r matches Some(a) ==> {
                &&& a as int % align as int == 0
                &&& old(self).base <= a
                &&& a + size <= old(self).base + old(self).capacity
                &&& final(self).live@.len() == old(self).live@.len() + 1
                &&& final(self).live@.last() == (Span { addr: a, len: size })
                &&& forall|k: int|
                    0 <= k < old(self).live@.len() ==> final(self).live@[k] == old(self).live@[k]
                &&& forall|k: int|
                    0 <= k < old(self).live@.len() ==> span_disjoint(
                        Span { addr: a, len: size },
                        #[trigger] old(self).live@[k],
                    )
                &&& final(self).spec_has_live(a)
                &&& forall|b: usize|
                    old(self).spec_has_live(b) ==> #[trigger] final(self).spec_has_live(b)
            },
            r is None ==> {
                &&& final(self).free@ == old(self).free@
                &&& final(self).live@ == old(self).live@
                &&& forall|k: int|
                    0 <= k < old(self).free@.len() ==> !span_fits(
                        #[trigger] old(self).free@[k],
                        size as int,
                        align as int,
                    )
            },
    {
        let n = self.free.len();
        let mut idx: usize = 0;
        let mut found: Option<(usize, usize)> = None;
        while idx < n
            invariant
                self.free@.len() == n,
                idx <= n,
                self.wf(),
                0 < size,
                0 < align,
                found is None ==> forall|j: int|
                    0 <= j < idx ==> !span_fits(#[trigger] self.free@[j], size as int, align as int),
                found matches Some((i, start)) ==> {
                    &&& i < n
                    &&& start as int == spec_align_up(self.free@[i as int].addr as int, align as int)
                    &&& start + size <= self.free@[i as int].addr + self.free@[i as int].len
                },
            decreases n - idx,
        {
            if found.is_none() {
                let s = self.free[idx];
                let rem = s.addr % align;
                if rem == 0 {
                    if size <= s.len {
                        found = Some((idx, s.addr));
                    }
                } else {
                    let need = align - rem;
                    if need <= s.len && size <= s.len - need {
                        found = Some((idx, s.addr + need));
                    }
                }
                proof {
                    let sp = self.free@[idx as int];
                    if found is None {
                        assert(!span_fits(sp, size as int, align as int));
                    }
                }
            }
            idx = idx + 1;
        }
        match found {
            None => {
                None
            },
            Some((i, start)) => {
                let s = self.free[i];
                let ghost g = *old(self);
                let ghost fidx = i as int;
                self.free.remove(i);
                let ghost removed = self.free@;
                if start > s.addr {
                    self.free.push(Span { addr: s.addr, len: start - s.addr });
                }
                let ghost after_left = self.free@;
                if (s.addr + s.len) - (start + size) > 0 {
                    self.free.push(
                        Span { addr: start + size, len: (s.addr + s.len) - (start + size) },
                    );
                }
                self.live.push(Span { addr: start, len: size });
                proof {
                    let block = Span { addr: start, len: size };
                    lemma_align_up(s.addr as int, align as int);
                    assert(start as int % align as int == 0);
                    assert(span_within(block, s));
                    // every span now in the free list is either an old span
                    // other than the one split, or a remainder inside it
                    assert forall|k: int| 0 <= k < self.free@.len() implies self.span_ok(
                        #[trigger] self.free@[k],
                    ) && (span_within(self.free@[k], s) || exists|j: int|
                        0 <= j < g.free@.len() && j != fidx && g.free@[j] == self.free@[k]) by {
                        if k < removed.len() {
                            assert(self.free@[k] == g.free@.remove(fidx)[k]);
                            if k < fidx {
                                assert(g.free@[k] == self.free@[k]);
                            } else {
                                assert(g.free@[k + 1] == self.free@[k]);
                            }
                        } else {
                            assert(span_within(self.free@[k], s));
                            assert(self.span_ok(g.free@[fidx]));
                        }
                    }
                    assert forall|k1: int, k2: int|
                        0 <= k1 < self.free@.len() && 0 <= k2 < self.free@.len() && k1
                            != k2 implies span_disjoint(
                        #[trigger] self.free@[k1],
                        #[trigger] self.free@[k2],
                    ) by {
                        lemma_disjoint_after_split(g, s, fidx, self.free@, start as int, size as int, k1, k2);
                    }
                    assert forall|k1: int, k2: int|
                        0 <= k1 < self.free@.len() && 0 <= k2 < self.live@.len() implies span_disjoint(
                        #[trigger] self.free@[k1],
                        #[trigger] self.live@[k2],
                    ) by {
                        lemma_free_live_after_split(g, s, fidx, self.free@, self.live@, start as int, size as int, k1, k2);
                    }
                    assert forall|k1: int, k2: int|
                        0 <= k1 < self.live@.len() && 0 <= k2 < self.live@.len() && k1
                            != k2 implies span_disjoint(
                        #[trigger] self.live@[k1],
                        #[trigger] self.live@[k2],
                    ) by {
                        if k1 < g.live@.len() && k2 < g.live@.len() {
                            assert(span_disjoint(g.live@[k1], g.live@[k2]));
                        } else if k1 < g.live@.len() {
                            assert(self.live@[k2] == block);
                            assert(span_disjoint(s, g.live@[k1]));
                            lemma_subspan_disjoint(block, s, g.live@[k1]);
                        } else {
                            assert(self.live@[k1] == block);
                            assert(span_disjoint(s, g.live@[k2]));
                            lemma_subspan_disjoint(block, s, g.live@[k2]);
                        }
                    }
                    assert forall|k: int| 0 <= k < g.live@.len() implies span_disjoint(
                        block,
                        #[trigger] g.live@[k],
                    ) by {
                        assert(span_disjoint(s, g.live@[k]));
                        lemma_subspan_disjoint(block, s, g.live@[k]);
                    }
                    assert(self.live@[self.live@.len() - 1].addr == start);
                    assert forall|b: usize| g.spec_has_live(b) implies self.spec_has_live(b) by {
                        let k = choose|k: int|
                            0 <= k < g.live@.len() && (#[trigger] g.live@[k]).addr == b;
                        assert(self.live@[k].addr == b);
                    }
                }
                Some(start)
            },
        }
    }

    /// Free the live block that starts at `addr`, returning its bytes to
    /// the free list as one span.
    pub fn deallocate(&mut self, addr: usize)
        requires
            old(self).wf(),
            old(self).spec_has_live(addr),
        ensures
            final(self).wf(),
            final(self).base == old(self).base,
            final(self).capacity == old(self).capacity,
            exists|k: int|
                {
                    &&& 0 <= k < old(self).live@.len()
                    &&& (#[trigger] old(self).live@[k]).addr == addr
                    &&& final(self).live@ == old(self).live@.remove(k)
                    &&& final(self).free@ == old(self).free@.push(old(self).live@[k])
                },
            !final(self).spec_has_live(addr),
            forall|b: usize|
                b != addr && old(self).spec_has_live(b) ==> #[trigger] final(self).spec_has_live(
                    b,
                ),
    {
        let n = self.live.len();
        let mut j: usize = 0;
        let mut found_j: usize = n;
        while j < n
            invariant
                self.live@.len() == n,
                j <= n,
                found_j <= n,
                found_j == n ==> forall|k: int| 0 <= k < j ==> (#[trigger] self.live@[k]).addr
                    != addr,
                found_j < n ==> self.live@[found_j as int].addr == addr,
                self == old(self),
            decreases n - j,
        {
            if found_j == n && self.live[j].addr == addr {
                found_j = j;
            }
            j = j + 1;
        }
        proof {
            if found_j == n {
                let k = choose|k: int|
                    0 <= k < self.live@.len() && (#[trigger] self.live@[k]).addr == addr;
                assert(self.live@[k].addr != addr);
            }
        }
        let j = found_j;
        let s = self.live[j];
        let ghost g = *old(self);
        let ghost lidx = j as int;
        self.live.remove(j);
        self.free.push(s);
        proof {
            assert forall|k: int| 0 <= k < self.live@.len() implies self.span_ok(
                #[trigger] self.live@[k],
            ) by {
                if k < lidx {
                    assert(g.live@[k] == self.live@[k]);
                } else {
                    assert(g.live@[k + 1] == self.live@[k]);
                }
            }
            assert forall|k1: int, k2: int|
                0 <= k1 < self.live@.len() && 0 <= k2 < self.live@.len() && k1
                    != k2 implies span_disjoint(
                #[trigger] self.live@[k1],
                #[trigger] self.live@[k2],
            ) by {
                let m1 = if k1 < lidx {
                    k1
                } else {
                    k1 + 1
                };
                let m2 = if k2 < lidx {
                    k2
                } else {
                    k2 + 1
                };
                assert(self.live@[k1] == g.live@[m1]);
                assert(self.live@[k2] == g.live@[m2]);
                assert(span_disjoint(g.live@[m1], g.live@[m2]));
            }
            assert forall|k1: int, k2: int|
                0 <= k1 < self.free@.len() && 0 <= k2 < self.free@.len() && k1
                    != k2 implies span_disjoint(
                #[trigger] self.free@[k1],
                #[trigger] self.free@[k2],
            ) by {
                if k1 < g.free@.len() && k2 < g.free@.len() {
                    assert(span_disjoint(g.free@[k1], g.free@[k2]));
                } else if k1 < g.free@.len() {
                    assert(self.free@[k2] == g.live@[lidx]);
                    assert(span_disjoint(g.free@[k1], g.live@[lidx]));
                } else {
                    assert(self.free@[k1] == g.live@[lidx]);
                    assert(span_disjoint(g.free@[k2], g.live@[lidx]));
                }
            }
            assert forall|k1: int, k2: int|
                0 <= k1 < self.free@.len() && 0 <= k2 < self.live@.len() implies span_disjoint(
                #[trigger] self.free@[k1],
                #[trigger] self.live@[k2],
            ) by {
                let m2 = if k2 < lidx {
                    k2
                } else {
                    k2 + 1
                };
                assert(self.live@[k2] == g.live@[m2]);
                if k1 < g.free@.len() {
                    assert(span_disjoint(g.free@[k1], g.live@[m2]));
                } else {
                    assert(self.free@[k1] == g.live@[lidx]);
                    assert(span_disjoint(g.live@[lidx], g.live@[m2]));
                }
            }
            assert(0 <= lidx < g.live@.len() && g.live@[lidx].addr == addr);
            assert(self.live@ == g.live@.remove(lidx));
            assert(self.free@ == g.free@.push(g.live@[lidx]));
            // no other live span starts at the same address: spans are
            // disjoint and non-empty
            assert forall|m: int| 0 <= m < self.live@.len() implies (
            #[trigger] self.live@[m]).addr != addr by {
                let mm = if m < lidx {
                    m
                } else {
                    m + 1
                };
                assert(self.live@[m] == g.live@[mm]);
                if g.live@[mm].addr == addr {
                    assert(span_disjoint(g.live@[mm], g.live@[lidx]));
                    assert(g.span_ok(g.live@[mm]) && g.span_ok(g.live@[lidx]));
                    assert(false);
                }
            }
            assert forall|b: usize| b != addr && g.spec_has_live(b) implies self.spec_has_live(
                b,
            ) by {
                let k = choose|k: int| 0 <= k < g.live@.len() && (#[trigger] g.live@[k]).addr == b;
                assert(k != lidx);
                let m = if k < lidx {
                    k
                } else {
                    k - 1
                };
                assert(self.live@[m].addr == b);
            }
        }
    }
}

/// Disjointness of the free list after one span was split: each element is
/// an untouched old span or a remainder of the split one.
proof fn lemma_disjoint_after_split(
    g: Tlsf,
    s: Span,
    fidx: int,
    free2: Seq<Span>,
    start: int,
    size: int,
    k1: int,
    k2: int,
)
    requires
        g.wf(),
        0 <= fidx < g.free@.len(),
        g.free@[fidx] == s,
        0 <= k1 < free2.len(),
        0 <= k2 < free2.len(),
        k1 != k2,
        s.addr <= start,
        start + size <= s.addr + s.len,
        0 < size,
        // shape of the new list: old list without `fidx`, then remainders
        free2.len() >= g.free@.len() - 1,
        forall|k: int|
            0 <= k < g.free@.len() - 1 ==> free2[k] == (if k < fidx {
                g.free@[k]
            } else {
                g.free@[k + 1]
            }),
        forall|k: int|
            g.free@.len() - 1 <= k < free2.len() ==> span_within(#[trigger] free2[k], s)
                && span_disjoint(free2[k], Span { addr: start as usize, len: size as usize }),
        forall|k1x: int, k2x: int|
            g.free@.len() - 1 <= k1x < free2.len() && g.free@.len() - 1 <= k2x < free2.len() && k1x
                != k2x ==> span_disjoint(#[trigger] free2[k1x], #[trigger] free2[k2x]),
    ensures
        span_disjoint(free2[k1], free2[k2]),
{
    let old_n = g.free@.len();
    if k1 < old_n - 1 && k2 < old_n - 1 {
        let m1 = if k1 < fidx {
            k1
        } else {
            k1 + 1
        };
        let m2 = if k2 < fidx {
            k2
        } else {
            k2 + 1
        };
        assert(span_disjoint(g.free@[m1], g.free@[m2]));
    } else if k1 < old_n - 1 {
        let m1 = if k1 < fidx {
            k1
        } else {
            k1 + 1
        };
        assert(span_disjoint(g.free@[m1], s));
        lemma_subspan_disjoint(free2[k2], s, g.free@[m1]);
    } else if k2 < old_n - 1 {
        let m2 = if k2 < fidx {
            k2
        } else {
            k2 + 1
        };
        assert(span_disjoint(g.free@[m2], s));
        lemma_subspan_disjoint(free2[k1], s, g.free@[m2]);
    }
}

/// Disjointness of free spans against live spans after the split: the new
/// live block and the remainders share no byte, and everything else is
/// carried over.
proof fn lemma_free_live_after_split(
    g: Tlsf,
    s: Span,
    fidx: int,
    free2: Seq<Span>,
    live2: Seq<Span>,
    start: int,
    size: int,
    k1: int,
    k2: int,
)
    requires
        g.wf(),
        0 <= fidx < g.free@.len(),
        g.free@[fidx] == s,
        0 <= k1 < free2.len(),
        0 <= k2 < live2.len(),
        s.addr <= start,
        start + size <= s.addr + s.len,
        0 < size,
        live2.len() == g.live@.len() + 1,
        forall|k: int| 0 <= k < g.live@.len() ==> live2[k] == g.live@[k],
        live2[g.live@.len() as int] == (Span { addr: start as usize, len: size as usize }),
        free2.len() >= g.free@.len() - 1,
        forall|k: int|
            0 <= k < g.free@.len() - 1 ==> free2[k] == (if k < fidx {
                g.free@[k]
            } else {
                g.free@[k + 1]
            }),
        forall|k: int|
            g.free@.len() - 1 <= k < free2.len() ==> span_within(#[trigger] free2[k], s)
                && span_disjoint(free2[k], Span { addr: start as usize, len: size as usize }),
    ensures
        span_disjoint(free2[k1], live2[k2]),
{
    let old_n = g.free@.len();
    let block = Span { addr: start as usize, len: size as usize };
    if k2 < g.live@.len() {
        // an old live span
        if k1 < old_n - 1 {
            let m1 = if k1 < fidx {
                k1
            } else {
                k1 + 1
            };
            assert(span_disjoint(g.free@[m1], g.live@[k2]));
        } else {
            assert(span_disjoint(s, g.live@[k2]));
            lemma_subspan_disjoint(free2[k1], s, g.live@[k2]);
        }
    } else {
        // the freshly allocated block
        assert(live2[k2] == block);
        if k1 < old_n - 1 {
            let m1 = if k1 < fidx {
                k1
            } else {
                k1 + 1
            };
            assert(span_disjoint(g.free@[m1], s));
            lemma_subspan_disjoint(block, s, g.free@[m1]);
        }
    }
}

} // verus!
