//! Heap allocators for a small real-time kernel: `heap_1`, `heap_3`, `heap_4`
//! and `heap_5` over offsets into arenas they own, and a fixed-size block pool.
pub mod align;
pub mod error;
pub mod free_list;
pub mod heap1;
pub mod heap3;
pub mod heap4;
pub mod heap5;
pub mod pool;
pub mod refusal;
pub mod tally;
pub mod words;
pub mod workload;

pub use error::Error;
pub use heap1::Heap1;
pub use heap3::{Handle, Heap3};
pub use heap4::{Block, Heap4, Region};
pub use heap5::Heap5;
pub use pool::{Pool, Slot};
