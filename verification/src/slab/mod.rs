//! The slab allocator: size classes, per-class caches with slab colouring,
//! and the bump region they are carved from.
pub mod align;
pub mod allocator;
pub mod cache;
pub mod classes;
pub mod history;
pub mod laws;
pub mod layout;
pub mod preserve;

pub use align::align_up;
pub use allocator::{AllocatorStats, SlabAllocator};
pub use cache::{CacheStats, SlabCache};
pub use layout::{Layout, LayoutError};
