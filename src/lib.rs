//! A fixed-capacity cache that evicts the least frequently used entry, breaking
//! ties between equally used entries by evicting the least recently placed one.

mod bucket;
pub mod cache;
pub mod laws;

pub use cache::{CacheError, LFUCache, LfuConsumer, LfuIterator, ValueCounter};
