//! The free list as a mathematical object: a sequence of blocks ordered by
//! address, together with the live allocations it must never overlap.
use vstd::prelude::*;
use crate::layout::{
    BLOCK_HEADER_SIZE, GRANULARITY, Layout, is_pow2, lemma_mod8_of_multiple, lemma_pow2_ge8_mod8,
    lemma_round_up, round_up_exec,
};

verus! {

/// A range of the region: a free-list node, or a live allocation.
#[derive(Clone, Copy, Debug, PartialEq, Eq)]
pub struct Block {
    pub addr: usize,
    pub size: usize,
}

impl Block {
    pub open spec fn end(self) -> int {
        self.addr + self.size
    }

    /// The effective layout of a request: at least a free-list header large,
    /// aligned to at least the granularity, and its size rounded up to that
    /// alignment. Any block handed out with it can later host a header.
    pub fn either_layout(layout: Layout) -> (r: Layout)
        requires
            layout.wf(),
            layout.effective_fits(),
        ensures
            r.size == layout.effective_size(),
            r.align == layout.effective_align(),
            is_pow2(r.align as int),
            r.size % GRANULARITY == 0,
            r.size >= BLOCK_HEADER_SIZE,
            r.size >= layout.size,
            r.size < isize::MAX,
    {
        let align = if layout.align >= GRANULARITY {
            layout.align
        } else {
            GRANULARITY
        };
        let min_size = if layout.size >= BLOCK_HEADER_SIZE {
            layout.size
        } else {
            BLOCK_HEADER_SIZE
        };
        let size = round_up_exec(min_size, align);
        proof {
            lemma_round_up(min_size as int, align as int);
            if layout.align >= GRANULARITY {
                lemma_pow2_ge8_mod8(align as int);
            } else {
                assert(is_pow2(1));
                assert(is_pow2(2));
                assert(is_pow2(4));
                assert(is_pow2(8));
            }
            lemma_mod8_of_multiple(size as int, align as int);
        }
        Layout { size, align }
    }
}

/// A block can host a header and is a whole number of granules.
pub open spec fn block_ok(b: Block) -> bool {
    b.size >= BLOCK_HEADER_SIZE && b.size % GRANULARITY == 0
}

pub open spec fn disjoint(a: Block, b: Block) -> bool {
    a.end() <= b.addr || b.end() <= a.addr
}

/// Strictly increasing by address, with no two ranges overlapping.
pub open spec fn sorted(s: Seq<Block>) -> bool {
    forall|i: int, j: int|
        #![trigger s[i], s[j]]
        0 <= i < j < s.len() ==> s[i].end() <= s[j].addr
}

/// No block ends exactly where the next one starts.
pub open spec fn normalised(s: Seq<Block>) -> bool {
    forall|i: int| #![trigger s[i]] 0 <= i && i + 1 < s.len() ==> s[i].end() != s[i + 1].addr
}

/// Sum of the sizes of the blocks.
pub open spec fn total(s: Seq<Block>) -> int
    decreases s.len(),
{
    if s.len() == 0 {
        0
    } else {
        total(s.drop_last()) + s.last().size
    }
}

/// A block lies in `[start, tip)`, can host a header, and starts on the
/// granularity when the region does.
pub open spec fn placed(b: Block, start: int, tip: int) -> bool {
    &&& block_ok(b)
    &&& start <= b.addr
    &&& b.end() <= tip
    &&& start % GRANULARITY as int == 0 ==> b.addr % GRANULARITY == 0
}

/// The state of a heap over `[start, tip)`: free blocks ordered and disjoint,
/// live allocations disjoint from each other and from free blocks, and every
/// byte below the tip accounted for as free, live or alignment padding.
pub open spec fn heap_wf(free: Seq<Block>, live: Seq<Block>, start: int, tip: int, padding: int) -> bool {
    &&& sorted(free)
    &&& forall|i: int|
        #![trigger free[i]]
        0 <= i < free.len() ==> placed(free[i], start, tip)
    &&& forall|i: int|
        #![trigger live[i]]
        0 <= i < live.len() ==> placed(live[i], start, tip)
    &&& forall|i: int, j: int|
        #![trigger live[i], live[j]]
        0 <= i < live.len() && 0 <= j < live.len() && i != j ==> disjoint(live[i], live[j])
    &&& forall|i: int, j: int|
        #![trigger live[i], free[j]]
        0 <= i < live.len() && 0 <= j < free.len() ==> disjoint(live[i], free[j])
    &&& total(free) + total(live) + padding == tip - start
    &&& padding >= 0
    &&& 0 <= start <= tip <= usize::MAX
}

/// Whether a block can serve an effective size `n`: exactly, or with room
/// left for another header.
pub open spec fn fits(b: Block, n: int) -> bool {
    b.size == n || b.size >= n + BLOCK_HEADER_SIZE
}

/// The first index from `i` on whose block fits `n`, or the length.
pub open spec fn first_fit_from(s: Seq<Block>, n: int, i: int) -> int
    decreases s.len() - i,
{
    if i < 0 || i >= s.len() {
        s.len() as int
    } else if fits(s[i], n) {
        i
    } else {
        first_fit_from(s, n, i + 1)
    }
}

pub open spec fn first_fit(s: Seq<Block>, n: int) -> int {
    first_fit_from(s, n, 0)
}

/// The list once `n` bytes are taken from the front of block `i`: the block
/// goes when it fits exactly, else its remainder stays in its place.
pub open spec fn take_block(s: Seq<Block>, i: int, n: int) -> Seq<Block> {
    if s[i].size == n {
        s.remove(i)
    } else {
        s.update(i, Block { addr: (s[i].addr + n) as usize, size: (s[i].size - n) as usize })
    }
}

/// The first index from `i` on whose block starts after `p`, or the length.
pub open spec fn insert_index_from(s: Seq<Block>, p: int, i: int) -> int
    decreases s.len() - i,
{
    if i < 0 || i >= s.len() {
        s.len() as int
    } else if s[i].addr > p {
        i
    } else {
        insert_index_from(s, p, i + 1)
    }
}

/// `b` inserted before the first block that starts after it.
pub open spec fn insert_ordered(s: Seq<Block>, b: Block) -> Seq<Block> {
    s.insert(insert_index_from(s, b.addr as int, 0), b)
}

/// Blocks `i` and `i + 1` joined into one.
pub open spec fn merge_at(s: Seq<Block>, i: int) -> Seq<Block> {
    s.update(i, Block { addr: s[i].addr, size: (s[i].size + s[i + 1].size) as usize }).remove(i + 1)
}

/// From position `i` on, every block absorbs the blocks that follow it
/// without a gap.
pub open spec fn merge_from(s: Seq<Block>, i: int) -> Seq<Block>
    decreases s.len(), s.len() - i,
{
    if i < 0 || i + 1 >= s.len() {
        s
    } else if s[i].end() == s[i + 1].addr {
        merge_from(merge_at(s, i), i)
    } else {
        merge_from(s, i + 1)
    }
}

/// The list with every run of byte-adjacent blocks merged into one block.
pub open spec fn normalise(s: Seq<Block>) -> Seq<Block> {
    merge_from(s, 0)
}

// Sums.

pub proof fn lemma_total_concat(a: Seq<Block>, b: Seq<Block>)
    ensures
        total(a + b) == total(a) + total(b),
    decreases b.len(),
{
    if b.len() > 0 {
        assert((a + b).drop_last() =~= a + b.drop_last());
        lemma_total_concat(a, b.drop_last());
    } else {
        assert(a + b =~= a);
    }
}

pub proof fn lemma_total_single(b: Block)
    ensures
        total(seq![b]) == b.size,
{
    assert(seq![b].drop_last() =~= Seq::<Block>::empty());
    assert(total(Seq::<Block>::empty()) == 0);
    assert(seq![b].last() == b);
}

pub proof fn lemma_total_insert(s: Seq<Block>, i: int, b: Block)
    requires
        0 <= i <= s.len(),
    ensures
        total(s.insert(i, b)) == total(s) + b.size,
{
    let l = s.subrange(0, i);
    let r = s.subrange(i, s.len() as int);
    assert(s =~= l + r);
    assert(s.insert(i, b) =~= l + (seq![b] + r));
    lemma_total_concat(l, r);
    lemma_total_concat(l, seq![b] + r);
    lemma_total_concat(seq![b], r);
    lemma_total_single(b);
}

pub proof fn lemma_total_remove(s: Seq<Block>, i: int)
    requires
        0 <= i < s.len(),
    ensures
        total(s.remove(i)) == total(s) - s[i].size,
{
    lemma_total_insert(s.remove(i), i, s[i]);
    assert(s.remove(i).insert(i, s[i]) =~= s);
}

pub proof fn lemma_total_update(s: Seq<Block>, i: int, b: Block)
    requires
        0 <= i < s.len(),
    ensures
        total(s.update(i, b)) == total(s) - s[i].size + b.size,
{
    lemma_total_remove(s, i);
    lemma_total_insert(s.remove(i), i, b);
    assert(s.remove(i).insert(i, b) =~= s.update(i, b));
}

// Searches.

pub proof fn lemma_first_fit_from(s: Seq<Block>, n: int, i: int)
    requires
        0 <= i <= s.len(),
    ensures
        i <= first_fit_from(s, n, i) <= s.len(),
        first_fit_from(s, n, i) < s.len() ==> fits(s[first_fit_from(s, n, i)], n),
        forall|j: int| i <= j < first_fit_from(s, n, i) ==> !fits(#[trigger] s[j], n),
    decreases s.len() - i,
{
    if i < s.len() && !fits(s[i], n) {
        lemma_first_fit_from(s, n, i + 1);
    }
}

pub proof fn lemma_insert_index_from(s: Seq<Block>, p: int, i: int)
    requires
        0 <= i <= s.len(),
    ensures
        i <= insert_index_from(s, p, i) <= s.len(),
        insert_index_from(s, p, i) < s.len() ==> s[insert_index_from(s, p, i)].addr > p,
        forall|j: int| i <= j < insert_index_from(s, p, i) ==> #[trigger] s[j].addr <= p,
    decreases s.len() - i,
{
    if i < s.len() && s[i].addr <= p {
        lemma_insert_index_from(s, p, i + 1);
    }
}

// Transitions that keep a heap well formed.

/// Serving `n` bytes from free block `i` turns its front into a live block.
pub proof fn lemma_take(free: Seq<Block>, live: Seq<Block>, start: int, tip: int, padding: int, i: int, n: int)
    requires
        heap_wf(free, live, start, tip, padding),
        0 <= i < free.len(),
        fits(free[i], n),
        n >= BLOCK_HEADER_SIZE,
        n % GRANULARITY as int == 0,
    ensures
        heap_wf(take_block(free, i, n), live.push(Block { addr: free[i].addr, size: n as usize }), start, tip, padding),
{
    let b = Block { addr: free[i].addr, size: n as usize };
    let f2 = take_block(free, i, n);
    let l2 = live.push(b);
    assert(l2.drop_last() =~= live);
    if free[i].size == n {
        lemma_total_remove(free, i);
    } else {
        let r = Block { addr: (free[i].addr + n) as usize, size: (free[i].size - n) as usize };
        lemma_total_update(free, i, r);
        assert forall|x: int, y: int| 0 <= x < y < f2.len() implies f2[x].end() <= f2[y].addr by {
            assert(free[x].end() <= free[y].addr);
        }
    }
    assert forall|x: int, y: int| 0 <= x < l2.len() && 0 <= y < f2.len() implies disjoint(l2[x], f2[y]) by {
        if free[i].size == n {
            if y < i {
                assert(f2[y] == free[y]);
            } else {
                assert(f2[y] == free[y + 1]);
            }
            if x < live.len() {
                assert(disjoint(live[x], free[y]));
                assert(disjoint(live[x], free[y + 1]));
            } else {
                if y < i {
                    assert(free[y].end() <= free[i].addr);
                } else {
                    assert(free[i].end() <= free[y + 1].addr);
                }
            }
        } else {
            if x < live.len() {
                assert(disjoint(live[x], free[y]));
            } else if y != i {
                if y < i {
                    assert(free[y].end() <= free[i].addr);
                } else {
                    assert(free[i].end() <= free[y].addr);
                }
            }
        }
    }
    assert forall|x: int, y: int| 0 <= x < l2.len() && 0 <= y < l2.len() && x != y implies disjoint(l2[x], l2[y]) by {
        if x < live.len() && y < live.len() {
        } else if x < live.len() {
            assert(disjoint(live[x], free[i]));
        } else {
            assert(disjoint(live[y], free[i]));
        }
    }
    assert forall|y: int| 0 <= y < f2.len() implies placed(#[trigger] f2[y], start, tip) by {
        if free[i].size == n {
            if y < i {
                assert(f2[y] == free[y]);
            } else {
                assert(f2[y] == free[y + 1]);
            }
        } else if y != i {
            assert(f2[y] == free[y]);
        }
    }
    assert forall|x: int| 0 <= x < l2.len() implies placed(#[trigger] l2[x], start, tip) by {
        if x < live.len() {
            assert(l2[x] == live[x]);
        }
    }
}

/// Releasing live block `k` inserts it into the free list in address order.
pub proof fn lemma_insert(free: Seq<Block>, live: Seq<Block>, start: int, tip: int, padding: int, k: int)
    requires
        heap_wf(free, live, start, tip, padding),
        0 <= k < live.len(),
    ensures
        heap_wf(insert_ordered(free, live[k]), live.remove(k), start, tip, padding),
{
    let b = live[k];
    let p = b.addr as int;
    let m = insert_index_from(free, p, 0);
    lemma_insert_index_from(free, p, 0);
    let f2 = insert_ordered(free, b);
    let l2 = live.remove(k);
    lemma_total_insert(free, m, b);
    lemma_total_remove(live, k);
    assert forall|j: int| 0 <= j < free.len() implies (j < m ==> #[trigger] free[j].end() <= p) && (j >= m ==> p + b.size <= free[j].addr) by {
        assert(disjoint(live[k], free[j]));
        if j >= m {
            assert(free[m].addr > p);
            if j > m {
                assert(free[m].end() <= free[j].addr);
            }
        }
    }
    assert forall|x: int, y: int| 0 <= x < y < f2.len() implies f2[x].end() <= f2[y].addr by {
        if x < m {
            assert(f2[x] == free[x]);
            if y < m {
                assert(f2[y] == free[y]);
            } else if y > m {
                assert(f2[y] == free[y - 1]);
            }
        } else if x == m {
            assert(f2[y] == free[y - 1]);
        } else {
            assert(f2[x] == free[x - 1]);
            assert(f2[y] == free[y - 1]);
        }
    }
    assert forall|y: int| 0 <= y < f2.len() implies placed(#[trigger] f2[y], start, tip) by {
        if y < m {
            assert(f2[y] == free[y]);
        } else if y > m {
            assert(f2[y] == free[y - 1]);
        }
    }
    assert forall|x: int| 0 <= x < l2.len() implies placed(#[trigger] l2[x], start, tip) by {
        if x < k {
            assert(l2[x] == live[x]);
        } else {
            assert(l2[x] == live[x + 1]);
        }
    }
    assert forall|x: int, y: int| 0 <= x < l2.len() && 0 <= y < l2.len() && x != y implies disjoint(l2[x], l2[y]) by {
        let x0 = if x < k { x } else { x + 1 };
        let y0 = if y < k { y } else { y + 1 };
        assert(l2[x] == live[x0] && l2[y] == live[y0]);
        assert(disjoint(live[x0], live[y0]));
    }
    assert forall|x: int, y: int| 0 <= x < l2.len() && 0 <= y < f2.len() implies disjoint(l2[x], f2[y]) by {
        let x0 = if x < k { x } else { x + 1 };
        assert(l2[x] == live[x0]);
        assert(disjoint(live[x0], live[k]));
        if y < m {
            assert(f2[y] == free[y]);
            assert(disjoint(live[x0], free[y]));
        } else if y > m {
            assert(f2[y] == free[y - 1]);
            assert(disjoint(live[x0], free[y - 1]));
        }
    }
}

/// Merging two byte-adjacent free blocks.
pub proof fn lemma_merge(free: Seq<Block>, live: Seq<Block>, start: int, tip: int, padding: int, i: int)
    requires
        heap_wf(free, live, start, tip, padding),
        0 <= i && i + 1 < free.len(),
        free[i].end() == free[i + 1].addr,
    ensures
        heap_wf(merge_at(free, i), live, start, tip, padding),
        merge_at(free, i).len() == free.len() - 1,
        merge_at(free, i)[i].addr == free[i].addr,
        merge_at(free, i)[i].end() == free[i + 1].end(),
        forall|j: int| 0 <= j < i ==> #[trigger] merge_at(free, i)[j] == free[j],
        forall|j: int| i < j < merge_at(free, i).len() ==> #[trigger] merge_at(free, i)[j] == free[j + 1],
{
    let c = Block { addr: free[i].addr, size: (free[i].size + free[i + 1].size) as usize };
    let u = free.update(i, c);
    let f2 = merge_at(free, i);
    assert(free[i + 1].end() <= tip);
    lemma_total_update(free, i, c);
    lemma_total_remove(u, i + 1);
    assert forall|x: int, y: int| 0 <= x < y < f2.len() implies f2[x].end() <= f2[y].addr by {
        let x0 = if x <= i { x } else { x + 1 };
        let y0 = if y <= i { y } else { y + 1 };
        if x == i {
            assert(free[i + 1].end() <= free[y0].addr);
        } else {
            assert(f2[x] == free[x0]);
            if y == i {
                assert(free[x0].end() <= free[i].addr);
            } else {
                assert(f2[y] == free[y0]);
                assert(free[x0].end() <= free[y0].addr);
            }
        }
    }
    assert forall|y: int| 0 <= y < f2.len() implies placed(#[trigger] f2[y], start, tip) by {
        if y < i {
            assert(f2[y] == free[y]);
        } else if y > i {
            assert(f2[y] == free[y + 1]);
        }
    }
    assert forall|x: int, y: int| 0 <= x < live.len() && 0 <= y < f2.len() implies disjoint(live[x], f2[y]) by {
        if y < i {
            assert(f2[y] == free[y]);
            assert(disjoint(live[x], free[y]));
        } else if y > i {
            assert(f2[y] == free[y + 1]);
            assert(disjoint(live[x], free[y + 1]));
        } else {
            assert(disjoint(live[x], free[i]));
            assert(disjoint(live[x], free[i + 1]));
        }
    }
}

/// Bytes skipped at the tip become a free block at the end of the list.
pub proof fn lemma_gap(free: Seq<Block>, live: Seq<Block>, start: int, tip: int, padding: int, g: Block)
    requires
        heap_wf(free, live, start, tip, padding),
        block_ok(g),
        g.addr == tip,
        g.end() <= usize::MAX,
        start % GRANULARITY as int == 0 ==> tip % GRANULARITY as int == 0,
    ensures
        heap_wf(free.push(g), live, start, g.end(), padding),
{
    let f2 = free.push(g);
    assert(f2.drop_last() =~= free);
    assert forall|x: int, y: int| 0 <= x < y < f2.len() implies f2[x].end() <= f2[y].addr by {
        if y < free.len() {
            assert(free[x].end() <= free[y].addr);
        } else {
            assert(f2[x] == free[x]);
        }
    }
    assert forall|y: int| 0 <= y < f2.len() implies placed(#[trigger] f2[y], start, g.end()) by {
        if y < free.len() {
            assert(f2[y] == free[y]);
        }
    }
    assert forall|x: int, y: int| 0 <= x < live.len() && 0 <= y < f2.len() implies disjoint(live[x], f2[y]) by {
        if y < free.len() {
            assert(disjoint(live[x], free[y]));
        }
    }
    assert forall|x: int| 0 <= x < live.len() implies placed(#[trigger] live[x], start, g.end()) by {
    }
}

/// Fresh memory at the tip becomes a live block; the bytes skipped to align
/// it count as padding.
pub proof fn lemma_bump(free: Seq<Block>, live: Seq<Block>, start: int, tip: int, padding: int, b: Block)
    requires
        heap_wf(free, live, start, tip, padding),
        block_ok(b),
        tip <= b.addr,
        b.end() <= usize::MAX,
        start % GRANULARITY as int == 0 ==> b.addr % GRANULARITY == 0,
    ensures
        heap_wf(free, live.push(b), start, b.end(), padding + (b.addr - tip)),
{
    let l2 = live.push(b);
    assert(l2.drop_last() =~= live);
    assert forall|x: int, y: int| 0 <= x < l2.len() && 0 <= y < free.len() implies disjoint(l2[x], free[y]) by {
        if x < live.len() {
            assert(disjoint(live[x], free[y]));
        }
    }
    assert forall|x: int, y: int| 0 <= x < l2.len() && 0 <= y < l2.len() && x != y implies disjoint(l2[x], l2[y]) by {
        if x < live.len() && y < live.len() {
            assert(disjoint(live[x], live[y]));
        }
    }
    assert forall|x: int| 0 <= x < l2.len() implies placed(#[trigger] l2[x], start, b.end()) by {
        if x < live.len() {
            assert(l2[x] == live[x]);
        }
    }
}

/// The first index from `i` on whose block starts at `a`, or the length.
pub open spec fn addr_index_from(s: Seq<Block>, a: int, i: int) -> int
    decreases s.len() - i,
{
    if i < 0 || i >= s.len() {
        s.len() as int
    } else if s[i].addr == a {
        i
    } else {
        addr_index_from(s, a, i + 1)
    }
}

/// The first index from `i` on whose block has exactly `n` bytes, or the length.
pub open spec fn exact_index_from(s: Seq<Block>, n: int, i: int) -> int
    decreases s.len() - i,
{
    if i < 0 || i >= s.len() {
        s.len() as int
    } else if s[i].size == n {
        i
    } else {
        exact_index_from(s, n, i + 1)
    }
}

/// The first index from `i` on whose block can be split to serve `n` bytes,
/// or the length.
pub open spec fn split_index_from(s: Seq<Block>, n: int, i: int) -> int
    decreases s.len() - i,
{
    if i < 0 || i >= s.len() {
        s.len() as int
    } else if s[i].size >= n + BLOCK_HEADER_SIZE {
        i
    } else {
        split_index_from(s, n, i + 1)
    }
}

/// Where a moving growth to `n` bytes goes: the first exact fit, else the
/// first block that can be split; the length when there is none.
pub open spec fn move_candidate(s: Seq<Block>, n: int) -> int {
    if exact_index_from(s, n, 0) < s.len() {
        exact_index_from(s, n, 0)
    } else {
        split_index_from(s, n, 0)
    }
}

pub proof fn lemma_scan_indices(s: Seq<Block>, a: int, n: int, i: int)
    requires
        0 <= i <= s.len(),
    ensures
        i <= addr_index_from(s, a, i) <= s.len(),
        addr_index_from(s, a, i) < s.len() ==> s[addr_index_from(s, a, i)].addr == a,
        forall|j: int| i <= j < addr_index_from(s, a, i) ==> #[trigger] s[j].addr != a,
        i <= exact_index_from(s, n, i) <= s.len(),
        exact_index_from(s, n, i) < s.len() ==> s[exact_index_from(s, n, i)].size == n,
        i <= split_index_from(s, n, i) <= s.len(),
        split_index_from(s, n, i) < s.len() ==> s[split_index_from(s, n, i)].size >= n + BLOCK_HEADER_SIZE,
    decreases s.len() - i,
{
    if i < s.len() {
        lemma_scan_indices(s, a, n, i + 1);
    }
}

/// A live block absorbs the live block that starts where it ends.
pub proof fn lemma_merge_live(free: Seq<Block>, live: Seq<Block>, start: int, tip: int, padding: int, k: int, x: Block)
    requires
        heap_wf(free, live.push(x), start, tip, padding),
        0 <= k < live.len(),
        live[k].end() == x.addr,
    ensures
        heap_wf(free, live.update(k, Block { addr: live[k].addr, size: (live[k].size + x.size) as usize }), start, tip, padding),
{
    let l1 = live.push(x);
    let c = Block { addr: live[k].addr, size: (live[k].size + x.size) as usize };
    let l2 = live.update(k, c);
    assert(l1.drop_last() =~= live);
    assert(l1[k] == live[k]);
    assert(l1[live.len() as int] == x);
    assert(x.end() <= tip);
    lemma_total_update(live, k, c);
    assert forall|i: int| 0 <= i < l2.len() implies placed(#[trigger] l2[i], start, tip) by {
        if i != k {
            assert(l2[i] == l1[i]);
        }
    }
    assert forall|i: int, j: int| 0 <= i < l2.len() && 0 <= j < l2.len() && i != j implies disjoint(l2[i], l2[j]) by {
        if i != k && j != k {
            assert(l2[i] == l1[i] && l2[j] == l1[j]);
            assert(disjoint(l1[i], l1[j]));
        } else if i == k {
            assert(l2[j] == l1[j]);
            assert(disjoint(l1[j], l1[k]));
            assert(disjoint(l1[j], l1[live.len() as int]));
        } else {
            assert(l2[i] == l1[i]);
            assert(disjoint(l1[i], l1[k]));
            assert(disjoint(l1[i], l1[live.len() as int]));
        }
    }
    assert forall|i: int, j: int| 0 <= i < l2.len() && 0 <= j < free.len() implies disjoint(l2[i], free[j]) by {
        if i != k {
            assert(l2[i] == l1[i]);
            assert(disjoint(l1[i], free[j]));
        } else {
            assert(disjoint(l1[k], free[j]));
            assert(disjoint(l1[live.len() as int], free[j]));
        }
    }
}

/// A live block that ends at the tip grows past it.
pub proof fn lemma_grow_at_tip(free: Seq<Block>, live: Seq<Block>, start: int, tip: int, padding: int, k: int, n: int)
    requires
        heap_wf(free, live, start, tip, padding),
        0 <= k < live.len(),
        live[k].end() == tip,
        n >= live[k].size,
        n % GRANULARITY as int == 0,
        live[k].addr + n <= usize::MAX,
    ensures
        heap_wf(free, live.update(k, Block { addr: live[k].addr, size: n as usize }), start, live[k].addr + n, padding),
{
    let c = Block { addr: live[k].addr, size: n as usize };
    let l2 = live.update(k, c);
    let t2 = live[k].addr + n;
    lemma_total_update(live, k, c);
    assert forall|i: int| 0 <= i < l2.len() implies placed(#[trigger] l2[i], start, t2) by {
        if i != k {
            assert(l2[i] == live[i]);
        }
    }
    assert forall|i: int, j: int| 0 <= i < l2.len() && 0 <= j < l2.len() && i != j implies disjoint(l2[i], l2[j]) by {
        assert(disjoint(live[i], live[j]));
        if i == k {
            assert(l2[j] == live[j]);
        } else if j == k {
            assert(l2[i] == live[i]);
        }
    }
    assert forall|i: int, j: int| 0 <= i < l2.len() && 0 <= j < free.len() implies disjoint(l2[i], free[j]) by {
        assert(disjoint(live[i], free[j]));
    }
}

// Normalisation.

/// Merging from `j` skips straight to `i` when no block in between touches
/// its successor.
pub proof fn lemma_merge_from_skip(s: Seq<Block>, j: int, i: int)
    requires
        0 <= j <= i,
        i < s.len() || i == j,
        forall|x: int| #![trigger s[x]] j <= x < i && x + 1 < s.len() ==> s[x].end() != s[x + 1].addr,
    ensures
        merge_from(s, j) == merge_from(s, i),
    decreases i - j,
{
    if j < i {
        assert(s[j].end() != s[j + 1].addr);
        lemma_merge_from_skip(s, j + 1, i);
    }
}

/// A normalised list is its own normal form.
pub proof fn lemma_normalise_normalised(s: Seq<Block>)
    requires
        normalised(s),
    ensures
        normalise(s) == s,
{
    if s.len() > 0 {
        lemma_merge_from_skip(s, 0, s.len() - 1);
    }
}

pub proof fn lemma_insert_index_at(s: Seq<Block>, p: int, j: int, i: int)
    requires
        0 <= j <= i <= s.len(),
        forall|x: int| j <= x < i ==> #[trigger] s[x].addr <= p,
        i < s.len() ==> s[i].addr > p,
    ensures
        insert_index_from(s, p, j) == i,
    decreases i - j,
{
    if j < i {
        lemma_insert_index_at(s, p, j + 1, i);
    }
}

} // verus!
