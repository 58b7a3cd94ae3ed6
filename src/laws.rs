//! What holds of the block allocator across calls.
use vstd::prelude::*;
use crate::block_allocator::BlockAllocator;
use crate::free_list::{
    Block, block_ok, first_fit, insert_ordered, lemma_first_fit_from, lemma_insert_index_at,
    lemma_merge_from_skip, lemma_normalise_normalised, merge_at, merge_from, normalise, normalised, sorted,
    take_block, total,
};
use crate::layout::{BLOCK_HEADER_SIZE, GRANULARITY};

verus! {

/// Every byte between the region start and the tip is either in a free
/// block, in a live allocation (at its effective size), or alignment padding
/// skipped at the tip. Over a region that starts on the granularity there is
/// no padding (skipped bytes join the free list), the tip stays on the
/// granularity, and free plus live bytes are exactly the bytes below the tip.
pub proof fn conservation(a: &BlockAllocator)
    requires
        a.wf(),
    ensures
        total(a.free_list()) + total(a.live()) + a.padding() == a.tip() - a.start(),
        a.padding() >= 0,
        a.start() % 8 == 0 ==> a.tip() % 8 == 0,
        a.start() % 8 == 0 ==> total(a.free_list()) + total(a.live()) == a.tip() - a.start(),
{
}

/// The free list is strictly increasing by address and no two of its blocks
/// overlap.
pub proof fn order_invariant(a: &BlockAllocator)
    requires
        a.wf(),
    ensures
        sorted(a.free_list()),
        forall|i: int, j: int|
            #![trigger a.free_list()[i], a.free_list()[j]]
            0 <= i < j < a.free_list().len() ==> a.free_list()[i].addr < a.free_list()[j].addr,
{
    let f = a.free_list();
    assert forall|i: int, j: int| #![trigger f[i], f[j]] 0 <= i < j < f.len() implies f[i].addr < f[j].addr by {
        assert(block_ok(f[i]));
    }
}

/// Allocating `n` effective bytes from a normalised free list that can serve
/// them, then releasing the same block, gives back the same free list: the
/// same number of nodes and the same free bytes.
pub proof fn round_trip(f: Seq<Block>, n: int)
    requires
        sorted(f),
        normalised(f),
        forall|x: int| 0 <= x < f.len() ==> block_ok(#[trigger] f[x]) && f[x].end() <= usize::MAX,
        n >= BLOCK_HEADER_SIZE,
        n % GRANULARITY as int == 0,
        first_fit(f, n) < f.len(),
    ensures
        ({
            let i = first_fit(f, n);
            let after = normalise(insert_ordered(take_block(f, i, n), Block { addr: f[i].addr, size: n as usize }));
            &&& after == f
            &&& after.len() == f.len()
            &&& total(after) == total(f)
        }),
{
    let i = first_fit(f, n);
    lemma_first_fit_from(f, n, 0);
    reinsert_taken(f, i, n);
}

proof fn reinsert_index(f: Seq<Block>, i: int, n: int)
    requires
        sorted(f),
        forall|x: int| 0 <= x < f.len() ==> block_ok(#[trigger] f[x]) && f[x].end() <= usize::MAX,
        0 <= i < f.len(),
        n >= BLOCK_HEADER_SIZE,
        f[i].size == n || f[i].size >= n + BLOCK_HEADER_SIZE,
    ensures
        insert_ordered(take_block(f, i, n), Block { addr: f[i].addr, size: n as usize }) == take_block(f, i, n).insert(
            i,
            Block { addr: f[i].addr, size: n as usize },
        ),
{
    let p = f[i].addr as int;
    let t = take_block(f, i, n);
    assert forall|x: int| 0 <= x < i implies #[trigger] t[x].addr <= p by {
        assert(f[x].end() <= f[i].addr);
    }
    if i + 1 < f.len() {
        assert(f[i].end() <= f[i + 1].addr);
    }
    lemma_insert_index_at(t, p, 0, i);
}

proof fn reinsert_taken(f: Seq<Block>, i: int, n: int)
    requires
        sorted(f),
        normalised(f),
        forall|x: int| 0 <= x < f.len() ==> block_ok(#[trigger] f[x]) && f[x].end() <= usize::MAX,
        0 <= i < f.len(),
        n >= BLOCK_HEADER_SIZE,
        f[i].size == n || f[i].size >= n + BLOCK_HEADER_SIZE,
    ensures
        ({
            let after = normalise(insert_ordered(take_block(f, i, n), Block { addr: f[i].addr, size: n as usize }));
            &&& after == f
            &&& after.len() == f.len()
            &&& total(after) == total(f)
        }),
{
    let b = Block { addr: f[i].addr, size: n as usize };
    reinsert_index(f, i, n);
    lemma_normalise_normalised(f);
    if f[i].size == n {
        assert(take_block(f, i, n).insert(i, b) =~= f);
    } else {
        reinsert_split(f, i, n);
    }
}

#[verifier::rlimit(50)]
proof fn reinsert_split(f: Seq<Block>, i: int, n: int)
    requires
        sorted(f),
        normalised(f),
        forall|x: int| 0 <= x < f.len() ==> block_ok(#[trigger] f[x]) && f[x].end() <= usize::MAX,
        0 <= i < f.len(),
        n >= BLOCK_HEADER_SIZE,
        f[i].size >= n + BLOCK_HEADER_SIZE,
    ensures
        normalise(take_block(f, i, n).insert(i, Block { addr: f[i].addr, size: n as usize })) == f,
{
    let b = Block { addr: f[i].addr, size: n as usize };
    let g = take_block(f, i, n).insert(i, b);
    assert(g.len() == f.len() + 1);
    assert forall|x: int| #![trigger g[x]] 0 <= x < i && x + 1 < g.len() implies g[x].end() != g[x + 1].addr by {
        assert(g[x] == f[x]);
        assert(g[x + 1].addr == f[x + 1].addr);
    }
    lemma_merge_from_skip(g, 0, i);
    assert(g[i].end() == g[i + 1].addr);
    assert(merge_at(g, i) =~= f);
    assert(merge_from(g, i) == merge_from(f, i));
    lemma_normalise_normalised(f);
    lemma_merge_from_skip(f, 0, i);
}

/// Serving `n` bytes from a block larger than `n` plus a header leaves, in
/// the block's place, a remainder that starts `n` bytes later and is `n`
/// bytes smaller.
pub proof fn split_correctness(f: Seq<Block>, i: int, n: int)
    requires
        0 <= i < f.len(),
        f[i].size >= n + BLOCK_HEADER_SIZE,
        f[i].end() <= usize::MAX,
        n >= 0,
    ensures
        take_block(f, i, n).len() == f.len(),
        take_block(f, i, n)[i].addr == f[i].addr + n,
        take_block(f, i, n)[i].size == f[i].size - n,
        forall|x: int| 0 <= x < f.len() && x != i ==> #[trigger] take_block(f, i, n)[x] == f[x],
{
}

} // verus!
