//! A segmented pool allocator for a freestanding kernel, together with the
//! text-console state machines that are its first clients.
//!
//! Memory is partitioned into buckets of equal-size segments. Each segment
//! begins with a small header naming its bucket, so that `free` needs no
//! size argument and no lookup table.

pub mod header;
pub mod pool;
pub mod laws;
pub mod console;
pub mod screen;
pub mod plot;
