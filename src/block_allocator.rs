//! The reuse layer: an address-ordered free list over a bump allocator,
//! merged after every free.
use vstd::prelude::*;
use crate::bump_allocator::{BumpAllocator, StartEnd};
use crate::free_list::{
    Block, addr_index_from, exact_index_from, lemma_grow_at_tip, lemma_merge_live, lemma_scan_indices,
    move_candidate, split_index_from, disjoint, first_fit, first_fit_from, fits, heap_wf, insert_index_from, insert_ordered,
    lemma_bump, lemma_first_fit_from, lemma_gap, lemma_insert, lemma_merge, lemma_take,
    merge_at, merge_from, normalise, normalised, placed, take_block, total,
};
use crate::layout::{
    BLOCK_HEADER_SIZE, GRANULARITY, Layout, is_pow2, lemma_granule_aligned, lemma_mod8_of_multiple, lemma_round_up, lemma_round_up_monotone,
    max_int, round_up,
};

verus! {

/// The layout an allocation grows into: the new size, at the effective
/// alignment of the old layout.
pub open spec fn grown_layout(l: Layout, new_size: usize) -> Layout {
    Layout { size: new_size, align: l.effective_align() as usize }
}

/// Whether the bytes skipped from `t` up to `a` to align a fresh block are
/// kept as a free block: they can host a header and are whole granules.
pub open spec fn gap_kept(t: int, a: int) -> bool {
    a - t >= BLOCK_HEADER_SIZE && (a - t) % GRANULARITY as int == 0
}

/// The free list once the bytes skipped from `t` up to `a` are kept.
pub open spec fn with_gap(f: Seq<Block>, t: int, a: int) -> Seq<Block> {
    if gap_kept(t, a) {
        f.push(Block { addr: t as usize, size: (a - t) as usize })
    } else {
        f
    }
}

/// The skipped bytes that are not kept, and so count as padding.
pub open spec fn lost_gap(t: int, a: int) -> int {
    if gap_kept(t, a) {
        0
    } else {
        a - t
    }
}

pub struct BlockAllocator {
    inner_allocator: BumpAllocator,
    free_blocks: Vec<Block>,
    live: Ghost<Seq<Block>>,
    padding: Ghost<int>,
}

impl BlockAllocator {
    /// The free list, in address order.
    pub closed spec fn free_list(&self) -> Seq<Block> {
        self.free_blocks@
    }

    /// The allocations handed out and not yet released, at their effective sizes.
    pub closed spec fn live(&self) -> Seq<Block> {
        self.live@
    }

    /// Bytes skipped at the tip to align fresh allocations.
    pub closed spec fn padding(&self) -> int {
        self.padding@
    }

    pub closed spec fn start(&self) -> int {
        self.inner_allocator.start()
    }

    pub closed spec fn end(&self) -> int {
        self.inner_allocator.end()
    }

    pub closed spec fn tip(&self) -> int {
        self.inner_allocator.tip()
    }

    pub open spec fn wf(&self) -> bool {
        &&& self.start() <= self.tip() <= self.end() <= usize::MAX
        &&& heap_wf(self.free_list(), self.live(), self.start(), self.tip(), self.padding())
        &&& self.start() % 8 == 0 ==> self.tip() % 8 == 0
        &&& self.start() % 8 == 0 ==> self.padding() == 0
    }

    closed spec fn bump_ok(&self) -> bool {
        self.inner_allocator.wf()
    }

    /// An allocator over `start_end` with nothing handed out yet.
    pub fn new(start_end: StartEnd) -> (r: BlockAllocator)
        requires
            start_end.start <= start_end.end,
        ensures
            r.wf(),
            r.start() == start_end.start,
            r.end() == start_end.end,
            r.tip() == start_end.start,
            r.free_list() == Seq::<Block>::empty(),
            r.live() == Seq::<Block>::empty(),
            r.padding() == 0,
    {
        let r = BlockAllocator {
            inner_allocator: BumpAllocator::new(start_end),
            free_blocks: Vec::new(),
            live: Ghost(Seq::empty()),
            padding: Ghost(0),
        };
        proof {
            assert(total(Seq::<Block>::empty()) == 0);
        }
        r
    }

    /// How many nodes the free list holds.
    pub fn number_of_blocks(&self) -> (r: u32)
        requires
            self.free_list().len() <= u32::MAX,
        ensures
            r == self.free_list().len(),
    {
        self.free_blocks.len() as u32
    }

    /// The current bump tip.
    pub fn current_tip(&self) -> (r: usize)
        ensures
            r == self.tip(),
    {
        self.inner_allocator.current_tip()
    }

    /// Requests a brand new block of the effective layout from the bump
    /// allocator. Bytes skipped at the tip to align it join the free list
    /// when they can host a header.
    fn new_block(&mut self, layout: Layout) -> (r: Option<usize>)
        requires
            old(self).wf(),
            layout.wf(),
            layout.effective_fits(),
        ensures
            final(self).wf(),
            final(self).start() == old(self).start(),
            final(self).end() == old(self).end(),
            ({
                let n = layout.effective_size();
                let t = old(self).tip();
                let a = round_up(t, layout.effective_align());
                if a + n <= old(self).end() {
                    &&& r == Some(a as usize)
                    &&& final(self).free_list() == with_gap(old(self).free_list(), t, a)
                    &&& final(self).tip() == a + n
                    &&& final(self).live() == old(self).live().push(Block { addr: a as usize, size: n as usize })
                    &&& final(self).padding() == old(self).padding() + lost_gap(t, a)
                } else {
                    &&& r is None
                    &&& final(self).free_list() == old(self).free_list()
                    &&& final(self).tip() == t
                    &&& final(self).live() == old(self).live()
                    &&& final(self).padding() == old(self).padding()
                }
            }),
            r matches Some(p) ==> p as int % layout.effective_align() == 0,
    {
        let overall_layout = Block::either_layout(layout);
        let tip = self.inner_allocator.current_tip();
        let ghost f = self.free_blocks@;
        let ghost l0 = self.live@;
        let ghost pad = self.padding@;
        let ghost st = self.start();
        let r = self.inner_allocator.alloc_critical(overall_layout);
        match r {
            Some(a) => {
                let b = Block { addr: a, size: overall_layout.size };
                proof {
                    lemma_round_up(tip as int, overall_layout.align as int);
                    crate::layout::lemma_pow2_ge8_mod8(overall_layout.align as int);
                    lemma_mod8_of_multiple(a as int, overall_layout.align as int);
                }
                let gap = a - tip;
                if gap >= BLOCK_HEADER_SIZE && gap % GRANULARITY == 0 {
                    let g = Block { addr: tip, size: gap };
                    proof {
                        lemma_gap(f, l0, st, tip as int, pad, g);
                        lemma_bump(f.push(g), l0, st, a as int, pad, b);
                    }
                    self.free_blocks.push(g);
                } else {
                    proof {
                        lemma_bump(f, l0, st, tip as int, pad, b);
                    }
                    self.padding = Ghost(pad + gap);
                }
                self.live = Ghost(l0.push(b));
            },
            None => {},
        }
        r
    }

    /// Serves a request from the first free block that fits it (exactly, or
    /// with room for the remainder's header), else from fresh memory.
    pub fn allocate(&mut self, layout: Layout) -> (r: Option<usize>)
        requires
            old(self).wf(),
            layout.wf(),
            layout.effective_fits(),
        ensures
            final(self).wf(),
            final(self).start() == old(self).start(),
            final(self).end() == old(self).end(),
            ({
                let f = old(self).free_list();
                let n = layout.effective_size();
                let i = first_fit(f, n);
                let a = round_up(old(self).tip(), layout.effective_align());
                if i < f.len() {
                    &&& r == Some(f[i].addr)
                    &&& final(self).free_list() == take_block(f, i, n)
                    &&& final(self).live() == old(self).live().push(Block { addr: f[i].addr, size: n as usize })
                    &&& final(self).tip() == old(self).tip()
                    &&& final(self).padding() == old(self).padding()
                } else if a + n <= old(self).end() {
                    &&& r == Some(a as usize)
                    &&& final(self).free_list() == with_gap(f, old(self).tip(), a)
                    &&& final(self).live() == old(self).live().push(Block { addr: a as usize, size: n as usize })
                    &&& final(self).tip() == a + n
                    &&& final(self).padding() == old(self).padding() + lost_gap(old(self).tip(), a)
                } else {
                    &&& r is None
                    &&& final(self).free_list() == f
                    &&& final(self).live() == old(self).live()
                    &&& final(self).tip() == old(self).tip()
                    &&& final(self).padding() == old(self).padding()
                }
            }),
            old(self).start() % 8 == 0 && layout.align <= 8 ==> (r matches Some(p) ==> p % layout.align == 0),
            r matches Some(p) ==> final(self).live().contains(Block { addr: p, size: layout.effective_size() as usize }),
    {
        let full_layout = Block::either_layout(layout);
        let n = full_layout.size;
        let ghost f = self.free_blocks@;
        proof {
            lemma_first_fit_from(f, n as int, 0);
        }
        let mut i: usize = 0;
        while i < self.free_blocks.len()
            invariant
                self.wf(),
                self.free_blocks@ == f,
                self.live@ == old(self).live@,
                self.padding@ == old(self).padding@,
                self.inner_allocator == old(self).inner_allocator,
                f == old(self).free_list(),
                layout.wf(),
                n == layout.effective_size(),
                n % GRANULARITY == 0,
                n >= BLOCK_HEADER_SIZE,
                0 <= i <= f.len(),
                first_fit_from(f, n as int, i as int) == first_fit(f, n as int),
            decreases f.len() - i,
        {
            let b = self.free_blocks[i];
            proof {
                assert(placed(f[i as int], self.start(), self.tip()));
                if self.start() % 8 == 0 && layout.align <= 8 {
                    lemma_granule_aligned(b.addr as int, layout.align as int);
                }
            }
            if b.size == n {
                proof {
                    lemma_take(f, self.live@, self.start(), self.tip(), self.padding@, i as int, n as int);
                }
                self.free_blocks.remove(i);
                self.live = Ghost(self.live@.push(Block { addr: b.addr, size: n }));
                return Some(b.addr);
            } else if b.size > n && b.size - n >= BLOCK_HEADER_SIZE {
                proof {
                    lemma_take(f, self.live@, self.start(), self.tip(), self.padding@, i as int, n as int);
                    assert(f[i as int].end() <= self.tip());
                }
                self.free_blocks.set(i, Block { addr: b.addr + n, size: b.size - n });
                self.live = Ghost(self.live@.push(Block { addr: b.addr, size: n }));
                return Some(b.addr);
            }
            i = i + 1;
        }
        let r = self.new_block(layout);
        proof {
            if r is Some && old(self).start() % 8 == 0 && layout.align <= 8 {
                assert(layout.effective_align() == 8);
                lemma_granule_aligned(r.unwrap() as int, layout.align as int);
            }
        }
        r
    }

    /// Inserts a released block into the free list in address order, without
    /// merging it with its neighbours.
    pub fn dealloc_no_normalise(&mut self, ptr: usize, layout: Layout)
        requires
            old(self).wf(),
            layout.wf(),
            layout.effective_fits(),
            old(self).live().contains(Block { addr: ptr, size: layout.effective_size() as usize }),
        ensures
            final(self).wf(),
            final(self).start() == old(self).start(),
            final(self).end() == old(self).end(),
            final(self).tip() == old(self).tip(),
            final(self).padding() == old(self).padding(),
            ({
                let b = Block { addr: ptr, size: layout.effective_size() as usize };
                &&& final(self).free_list() == insert_ordered(old(self).free_list(), b)
                &&& final(self).live() == old(self).live().remove(old(self).live().index_of(b))
            }),
    {
        let new_layout = Block::either_layout(layout);
        let b = Block { addr: ptr, size: new_layout.size };
        let ghost f = self.free_blocks@;
        let ghost k = self.live@.index_of(b);
        let mut i: usize = 0;
        while i < self.free_blocks.len() && self.free_blocks[i].addr <= ptr
            invariant
                self.free_blocks@ == f,
                0 <= i <= f.len(),
                insert_index_from(f, ptr as int, i as int) == insert_index_from(f, ptr as int, 0),
            decreases f.len() - i,
        {
            i = i + 1;
        }
        proof {
            lemma_insert(f, self.live@, self.start(), self.tip(), self.padding@, k);
        }
        self.free_blocks.insert(i, b);
        self.live = Ghost(self.live@.remove(k));
    }

    /// Merges every run of byte-adjacent free blocks into one block.
    fn normalise(&mut self)
        requires
            old(self).wf(),
        ensures
            final(self).wf(),
            final(self).start() == old(self).start(),
            final(self).end() == old(self).end(),
            final(self).tip() == old(self).tip(),
            final(self).padding() == old(self).padding(),
            final(self).live() == old(self).live(),
            final(self).free_list() == normalise(old(self).free_list()),
            normalised(final(self).free_list()),
            total(final(self).free_list()) == total(old(self).free_list()),
    {
        let mut i: usize = 0;
        while i < self.free_blocks.len() && i + 1 < self.free_blocks.len()
            invariant
                self.wf(),
                i <= self.free_blocks@.len(),
                self.live@ == old(self).live@,
                self.padding@ == old(self).padding@,
                self.inner_allocator == old(self).inner_allocator,
                merge_from(self.free_blocks@, i as int) == normalise(old(self).free_list()),
                forall|j: int|
                    #![trigger self.free_blocks@[j]]
                    0 <= j < i && j + 1 < self.free_blocks@.len() ==> self.free_blocks@[j].end()
                        != self.free_blocks@[j + 1].addr,
            decreases 2 * self.free_blocks@.len() - i,
        {
            let cur = self.free_blocks[i];
            let next = self.free_blocks[i + 1];
            proof {
                assert(cur.end() <= self.tip());
            }
            if cur.addr + cur.size == next.addr {
                let ghost f = self.free_blocks@;
                proof {
                    lemma_merge(f, self.live@, self.start(), self.tip(), self.padding@, i as int);
                    assert(next.end() <= self.tip());
                }
                self.free_blocks.set(i, Block { addr: cur.addr, size: cur.size + next.size });
                self.free_blocks.remove(i + 1);
                proof {
                    assert(self.free_blocks@ =~= merge_at(f, i as int));
                    assert forall|j: int|
                        #![trigger self.free_blocks@[j]]
                        0 <= j < i && j + 1 < self.free_blocks@.len() implies self.free_blocks@[j].end()
                            != self.free_blocks@[j + 1].addr by {
                        assert(self.free_blocks@[j] == f[j]);
                        assert(f[j].end() != f[j + 1].addr);
                    }
                }
            } else {
                i = i + 1;
            }
        }
    }

    /// Releases an allocation and merges the free list.
    pub fn dealloc(&mut self, ptr: usize, layout: Layout)
        requires
            old(self).wf(),
            layout.wf(),
            layout.effective_fits(),
            old(self).live().contains(Block { addr: ptr, size: layout.effective_size() as usize }),
        ensures
            final(self).wf(),
            final(self).start() == old(self).start(),
            final(self).end() == old(self).end(),
            final(self).tip() == old(self).tip(),
            final(self).padding() == old(self).padding(),
            ({
                let b = Block { addr: ptr, size: layout.effective_size() as usize };
                &&& final(self).free_list() == normalise(insert_ordered(old(self).free_list(), b))
                &&& final(self).live() == old(self).live().remove(old(self).live().index_of(b))
            }),
            normalised(final(self).free_list()),
    {
        self.dealloc_no_normalise(ptr, layout);
        self.normalise();
    }

    /// One pass over the free list: the index of the block that starts at
    /// `q`, of the first block of exactly `n` bytes, and of the first block
    /// that can be split to serve `n` bytes (each the length when absent).
    fn growth_scan(&self, q: usize, n: usize) -> (r: (usize, usize, usize))
        ensures
            r.0 == addr_index_from(self.free_list(), q as int, 0),
            r.1 == exact_index_from(self.free_list(), n as int, 0),
            r.2 == split_index_from(self.free_list(), n as int, 0),
    {
        let ghost f = self.free_blocks@;
        let len = self.free_blocks.len();
        let mut at: usize = len;
        let mut exact: usize = len;
        let mut split: usize = len;
        let mut i: usize = 0;
        while i < len
            invariant
                f == self.free_blocks@,
                len == f.len(),
                0 <= i <= len,
                at <= len && exact <= len && split <= len,
                at < len ==> at == addr_index_from(f, q as int, 0),
                at == len ==> addr_index_from(f, q as int, 0) == addr_index_from(f, q as int, i as int),
                exact < len ==> exact == exact_index_from(f, n as int, 0),
                exact == len ==> exact_index_from(f, n as int, 0) == exact_index_from(f, n as int, i as int),
                split < len ==> split == split_index_from(f, n as int, 0),
                split == len ==> split_index_from(f, n as int, 0) == split_index_from(f, n as int, i as int),
            decreases len - i,
        {
            let blk = self.free_blocks[i];
            if blk.addr == q && at == len {
                at = i;
            }
            if blk.size == n && exact == len {
                exact = i;
            }
            if blk.size > n && blk.size - n >= BLOCK_HEADER_SIZE && split == len {
                split = i;
            }
            i = i + 1;
        }
        proof {
            assert(addr_index_from(f, q as int, len as int) == len);
            assert(exact_index_from(f, n as int, len as int) == len);
            assert(split_index_from(f, n as int, len as int) == len);
        }
        (at, exact, split)
    }

    /// Grows the allocation at `ptr` to `new_size` bytes. In order: extend it
    /// at the bump tip; extend it in place into the free block that starts
    /// where it ends (consumed whole when it fits exactly, or split when the
    /// rest can hold a header); move it to the first
    /// free block of exactly the new size, else to the first that can be
    /// split; move it to fresh memory. A moved allocation's old block is
    /// released. The caller copies the old contents when the address changes.
    #[verifier::rlimit(100)]
    pub fn growth(&mut self, ptr: usize, old_layout: Layout, new_size: usize) -> (r: Option<usize>)
        requires
            old(self).wf(),
            old_layout.wf(),
            old_layout.effective_fits(),
            new_size >= old_layout.size,
            grown_layout(old_layout, new_size).wf(),
            grown_layout(old_layout, new_size).effective_fits(),
            old(self).live().contains(Block { addr: ptr, size: old_layout.effective_size() as usize }),
        ensures
            final(self).wf(),
            final(self).start() == old(self).start(),
            final(self).end() == old(self).end(),
            old(self).start() % 8 == 0 && old_layout.align <= 8 ==> (r matches Some(p) ==> p % old_layout.align == 0),
            r matches Some(p) ==> final(self).live().contains(
                Block { addr: p, size: grown_layout(old_layout, new_size).effective_size() as usize },
            ),
            ({
                let f = old(self).free_list();
                let o = old_layout.effective_size();
                let nl = grown_layout(old_layout, new_size);
                let n = nl.effective_size();
                let t = old(self).tip();
                let q = ptr + o;
                let b = Block { addr: ptr, size: o as usize };
                let grown = old(self).live().update(old(self).live().index_of(b), Block { addr: ptr, size: n as usize });
                let j = addr_index_from(f, q, 0);
                let c = move_candidate(f, n);
                let a = round_up(t, nl.effective_align());
                if q == t && t + (n - o) <= old(self).end() {
                    &&& r == Some(ptr)
                    &&& final(self).free_list() == f
                    &&& final(self).tip() == t + (n - o)
                    &&& final(self).live() == grown
                    &&& final(self).padding() == old(self).padding()
                } else if j < f.len() && f[j].size + o == n {
                    &&& r == Some(ptr)
                    &&& final(self).free_list() == f.remove(j)
                    &&& final(self).tip() == t
                    &&& final(self).live() == grown
                    &&& final(self).padding() == old(self).padding()
                } else if j < f.len() && f[j].size + o >= n + BLOCK_HEADER_SIZE {
                    &&& r == Some(ptr)
                    &&& final(self).free_list() == f.update(j, Block { addr: (ptr + n) as usize, size: (f[j].size + o - n) as usize })
                    &&& final(self).tip() == t
                    &&& final(self).live() == grown
                    &&& final(self).padding() == old(self).padding()
                } else if c < f.len() {
                    let moved = old(self).live().push(Block { addr: f[c].addr, size: n as usize });
                    &&& r == Some(f[c].addr)
                    &&& final(self).free_list() == normalise(insert_ordered(take_block(f, c, n), b))
                    &&& final(self).tip() == t
                    &&& final(self).live() == moved.remove(moved.index_of(b))
                    &&& final(self).padding() == old(self).padding()
                } else if a + n <= old(self).end() {
                    let moved = old(self).live().push(Block { addr: a as usize, size: n as usize });
                    &&& r == Some(a as usize)
                    &&& final(self).free_list() == normalise(insert_ordered(with_gap(f, t, a), b))
                    &&& final(self).tip() == a + n
                    &&& final(self).live() == moved.remove(moved.index_of(b))
                    &&& final(self).padding() == old(self).padding() + lost_gap(t, a)
                } else {
                    &&& r is None
                    &&& final(self).free_list() == f
                    &&& final(self).tip() == t
                    &&& final(self).live() == old(self).live()
                    &&& final(self).padding() == old(self).padding()
                }
            }),
    {
        let old_full = Block::either_layout(old_layout);
        let new_layout = Layout { size: new_size, align: old_full.align };
        let new_full = Block::either_layout(new_layout);
        let o = old_full.size;
        let n = new_full.size;
        let ghost b = Block { addr: ptr, size: o };
        let ghost k = self.live@.index_of(b);
        let ghost f = self.free_blocks@;
        let ghost l0 = self.live@;
        let ghost t = self.tip();
        let ghost pad = self.padding@;
        let ghost st = self.start();
        proof {
            lemma_round_up_monotone(
                max_int(old_layout.size as int, BLOCK_HEADER_SIZE as int),
                max_int(new_size as int, BLOCK_HEADER_SIZE as int),
                old_full.align as int,
            );
            assert(l0[k] == b);
            assert(b.end() <= t);
            assert(placed(l0[k], st, t));
            if st % 8 == 0 && old_layout.align <= 8 {
                lemma_granule_aligned(ptr as int, old_layout.align as int);
            }
            assert(is_pow2(1));
        }
        let next_addr = ptr + o;
        let tip = self.inner_allocator.current_tip();
        if next_addr == tip {
            let bumped = self.inner_allocator.alloc_critical(Layout { size: n - o, align: 1 });
            if bumped.is_some() {
                proof {
                    lemma_grow_at_tip(f, l0, st, t, pad, k, n as int);
                }
                self.live = Ghost(l0.update(k, Block { addr: ptr, size: n }));
                assert(self.live@[k] == Block { addr: ptr, size: n });
                return Some(ptr);
            }
        }
        let (j, exact, split) = self.growth_scan(next_addr, n);
        let len = self.free_blocks.len();
        if j < len {
            proof {
                lemma_scan_indices(f, next_addr as int, n as int, 0);
            }
            if self.grow_in_place(ptr, o, n, j) {
                assert(self.live@[k] == Block { addr: ptr, size: n });
                return Some(ptr);
            }
        }
        let c = if exact < len {
            exact
        } else {
            split
        };
        let r = self.grow_by_moving(ptr, old_layout, new_layout, c);
        proof {
            if r is Some && st % 8 == 0 && old_layout.align <= 8 {
                lemma_granule_aligned(r.unwrap() as int, old_layout.align as int);
            }
        }
        r
    }

    /// Grows the allocation `[ptr, ptr + o)` to `n` bytes into free block
    /// `j`, which starts where the allocation ends, when that block fits the
    /// growth exactly or can be split; reports whether it could.
    #[verifier::rlimit(100)]
    fn grow_in_place(&mut self, ptr: usize, o: usize, n: usize, j: usize) -> (done: bool)
        requires
            old(self).wf(),
            old(self).live().contains(Block { addr: ptr, size: o }),
            o <= n,
            n % GRANULARITY == 0,
            j < old(self).free_list().len(),
            old(self).free_list()[j as int].addr == ptr + o,
        ensures
            final(self).wf(),
            final(self).start() == old(self).start(),
            final(self).end() == old(self).end(),
            ({
                let f = old(self).free_list();
                let t = old(self).tip();
                let b = Block { addr: ptr, size: o };
                let grown = old(self).live().update(old(self).live().index_of(b), Block { addr: ptr, size: n });
                if f[j as int].size + o == n {
                    &&& done
                    &&& final(self).free_list() == f.remove(j as int)
                    &&& final(self).tip() == t
                    &&& final(self).live() == grown
                    &&& final(self).padding() == old(self).padding()
                } else if f[j as int].size + o >= n + BLOCK_HEADER_SIZE {
                    &&& done
                    &&& final(self).free_list() == f.update(j as int, Block { addr: (ptr + n) as usize, size: (f[j as int].size + o - n) as usize })
                    &&& final(self).tip() == t
                    &&& final(self).live() == grown
                    &&& final(self).padding() == old(self).padding()
                } else {
                    &&& !done
                    &&& final(self).free_list() == f
                    &&& final(self).tip() == t
                    &&& final(self).live() == old(self).live()
                    &&& final(self).padding() == old(self).padding()
                }
            }),
    {
        let ghost b = Block { addr: ptr, size: o };
        let ghost k = self.live@.index_of(b);
        let ghost f = self.free_blocks@;
        let ghost l0 = self.live@;
        let ghost t = self.tip();
        let ghost pad = self.padding@;
        let ghost st = self.start();
        let blk = self.free_blocks[j];
        proof {
            assert(l0[k] == b);
            assert(blk == f[j as int]);
            assert(disjoint(l0[k], f[j as int]));
            assert(blk.end() <= t);
        }
        if blk.size + o == n {
            proof {
                lemma_take(f, l0, st, t, pad, j as int, blk.size as int);
                assert(take_block(f, j as int, blk.size as int) == f.remove(j as int));
                lemma_merge_live(f.remove(j as int), l0, st, t, pad, k, Block { addr: blk.addr, size: blk.size });
            }
            self.free_blocks.remove(j);
            self.live = Ghost(l0.update(k, Block { addr: ptr, size: n }));
            true
        } else if blk.size + o > n && blk.size + o - n >= BLOCK_HEADER_SIZE {
            let rem = Block { addr: ptr + n, size: blk.size + o - n };
            proof {
                if n > o {
                    let m = (n - o) as int;
                    lemma_take(f, l0, st, t, pad, j as int, m);
                    assert(take_block(f, j as int, m) == f.update(j as int, rem));
                    lemma_merge_live(f.update(j as int, rem), l0, st, t, pad, k, Block { addr: blk.addr, size: m as usize });
                } else {
                    assert(rem == blk);
                    assert(f.update(j as int, rem) =~= f);
                    assert(l0.update(k, Block { addr: ptr, size: n }) =~= l0);
                }
            }
            self.free_blocks.set(j, rem);
            self.live = Ghost(l0.update(k, Block { addr: ptr, size: n }));
            true
        } else {
            false
        }
    }

    /// Moves the allocation at `ptr` to free block `c` when there is one,
    /// else to fresh memory; the old block is released.
    fn grow_by_moving(&mut self, ptr: usize, old_layout: Layout, new_layout: Layout, c: usize) -> (r: Option<usize>)
        requires
            old(self).wf(),
            old_layout.wf(),
            old_layout.effective_fits(),
            new_layout.wf(),
            new_layout.effective_fits(),
            old(self).live().contains(Block { addr: ptr, size: old_layout.effective_size() as usize }),
            c == move_candidate(old(self).free_list(), new_layout.effective_size()),
        ensures
            final(self).wf(),
            final(self).start() == old(self).start(),
            final(self).end() == old(self).end(),
            old(self).start() % 8 == 0 ==> (r matches Some(p) ==> p % 8 == 0),
            r matches Some(p) ==> final(self).live().contains(Block { addr: p, size: new_layout.effective_size() as usize }),
            ({
                let f = old(self).free_list();
                let n = new_layout.effective_size();
                let t = old(self).tip();
                let b = Block { addr: ptr, size: old_layout.effective_size() as usize };
                let a = round_up(t, new_layout.effective_align());
                if c < f.len() {
                    let moved = old(self).live().push(Block { addr: f[c as int].addr, size: n as usize });
                    &&& r == Some(f[c as int].addr)
                    &&& final(self).free_list() == normalise(insert_ordered(take_block(f, c as int, n), b))
                    &&& final(self).tip() == t
                    &&& final(self).live() == moved.remove(moved.index_of(b))
                    &&& final(self).padding() == old(self).padding()
                } else if a + n <= old(self).end() {
                    let moved = old(self).live().push(Block { addr: a as usize, size: n as usize });
                    &&& r == Some(a as usize)
                    &&& final(self).free_list() == normalise(insert_ordered(with_gap(f, t, a), b))
                    &&& final(self).tip() == a + n
                    &&& final(self).live() == moved.remove(moved.index_of(b))
                    &&& final(self).padding() == old(self).padding() + lost_gap(t, a)
                } else {
                    &&& r is None
                    &&& final(self).free_list() == f
                    &&& final(self).tip() == t
                    &&& final(self).live() == old(self).live()
                    &&& final(self).padding() == old(self).padding()
                }
            }),
    {
        let new_full = Block::either_layout(new_layout);
        let n = new_full.size;
        let ghost b = Block { addr: ptr, size: old_layout.effective_size() as usize };
        let ghost k = self.live@.index_of(b);
        let ghost f = self.free_blocks@;
        let ghost l0 = self.live@;
        proof {
            assert(l0[k] == b);
            lemma_scan_indices(f, 0, n as int, 0);
        }
        if c < self.free_blocks.len() {
            let blk = self.free_blocks[c];
            proof {
                lemma_take(f, l0, self.start(), self.tip(), self.padding@, c as int, n as int);
                assert(blk.end() <= self.tip());
                assert(placed(f[c as int], self.start(), self.tip()));
            }
            if blk.size == n {
                self.free_blocks.remove(c);
            } else {
                self.free_blocks.set(c, Block { addr: blk.addr + n, size: blk.size - n });
            }
            self.live = Ghost(l0.push(Block { addr: blk.addr, size: n }));
            proof {
                assert(self.live@[k] == b);
                assert(self.free_blocks@ == take_block(f, c as int, n as int));
            }
            self.dealloc(ptr, old_layout);
            return Some(blk.addr);
        }
        match self.new_block(new_layout) {
            Some(a) => {
                proof {
                    assert(self.live@[k] == b);
                    crate::layout::lemma_pow2_ge8_mod8(new_layout.effective_align());
                    lemma_mod8_of_multiple(a as int, new_layout.effective_align());
                }
                self.dealloc(ptr, old_layout);
                Some(a)
            },
            None => None,
        }
    }
}

} // verus!
