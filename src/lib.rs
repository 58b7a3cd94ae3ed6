//! A verified heap for a machine with one fixed region of memory and no
//! operating system: a bump allocator that carves fresh memory from the tail
//! of the region, and a block allocator over it that keeps freed blocks in an
//! address-ordered free list, merges neighbours after every free, and grows
//! allocations in place where it can. Alongside it, the decoder of crash
//! addresses and the tile buffers that pre-rendered text is baked into.

pub mod bake;
pub mod block_allocator;
pub mod bump_allocator;
pub mod free_list;
pub mod gwilym;
pub mod laws;
pub mod layout;
pub mod text;
