//! Caches that share one stable, fixed-capacity store: LRU, segmented LRU
//! and Scan-Window-TinyLFU. Each cache links its own entries into a doubly
//! linked chain through slot indices, tagged by a cache id.
pub mod entry;
pub mod hashmap;
pub mod results;
pub mod scan;
pub mod model;
pub mod lru;
pub mod slru;
pub mod swtlfu;
