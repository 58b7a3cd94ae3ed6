//! Hands out fresh memory from the unused tail of a region; never reclaims.
use vstd::prelude::*;
use crate::layout::{Layout, is_pow2, round_up};

verus! {

/// The usable memory range, `[start, end)`.
#[derive(Clone, Copy, Debug, PartialEq, Eq)]
pub struct StartEnd {
    pub start: usize,
    pub end: usize,
}

pub struct BumpAllocator {
    start_end: StartEnd,
    current_ptr: usize,
}

impl BumpAllocator {
    pub closed spec fn start(&self) -> int {
        self.start_end.start as int
    }

    pub closed spec fn end(&self) -> int {
        self.start_end.end as int
    }

    /// The boundary between memory handed out and memory never touched.
    pub closed spec fn tip(&self) -> int {
        self.current_ptr as int
    }

    pub open spec fn wf(&self) -> bool {
        self.start() <= self.tip() <= self.end()
    }

    pub fn new(start_end: StartEnd) -> (r: BumpAllocator)
        requires
            start_end.start <= start_end.end,
        ensures
            r.wf(),
            r.start() == start_end.start,
            r.end() == start_end.end,
            r.tip() == start_end.start,
    {
        BumpAllocator { start_end, current_ptr: start_end.start }
    }

    pub fn current_tip(&self) -> (r: usize)
        ensures
            r == self.tip(),
    {
        self.current_ptr
    }

    /// Carves `layout.size` bytes at the tip, aligned up to `layout.align`;
    /// fails when they would end past the region.
    pub fn alloc_critical(&mut self, layout: Layout) -> (r: Option<usize>)
        requires
            old(self).wf(),
            is_pow2(layout.align as int),
        ensures
            final(self).wf(),
            final(self).start() == old(self).start(),
            final(self).end() == old(self).end(),
            ({
                let a = round_up(old(self).tip(), layout.align as int);
                if a + layout.size <= old(self).end() {
                    r == Some(a as usize) && final(self).tip() == a + layout.size
                } else {
                    r is None && final(self).tip() == old(self).tip()
                }
            }),
    {
        let tip = self.current_ptr;
        let rem = tip % layout.align;
        let pad = if rem == 0 {
            0
        } else {
            layout.align - rem
        };
        let room = self.start_end.end - tip;
        if pad > room || layout.size > room - pad {
            return None;
        }
        let aligned = tip + pad;
        self.current_ptr = aligned + layout.size;
        Some(aligned)
    }
}

} // verus!
