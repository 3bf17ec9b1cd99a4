//! An LRU cache of content-addressed entries, bounded by total size, age and
//! entry count, with exact accounting of every entry that leaves it.
pub mod lru_store;
pub mod policy;
pub mod evicting_map;

pub use evicting_map::{
    Departure, EvictingMap, InstantWrapper, LenEntry, MapCounters, MetricsReport, SerializedLRU,
    ITEM_SIZE_SAMPLE_LIMIT,
};
pub use policy::{should_evict, EvictionPolicy};
