//! A fixed-capacity bit-set engine: a dense bitmap over 64-bit words with
//! cross-word scans and ranged population counts, an atomic variant whose
//! accesses each name a memory ordering, and a batch encoder that packs bit
//! offsets into one mask per word. Beside it stand small fixed-capacity
//! containers and duplicate detection that reports through a bitmap.

pub mod algorithms;
pub mod array;
pub mod atomic_bitmap;
pub mod bitmap;
pub mod handle;
pub mod queue;
pub mod stack;
pub mod utils;
pub mod words;
