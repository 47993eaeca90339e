//! A grid-partitioned spatial index over axis-aligned rectangles.
//!
//! The universe is cut into square cells; each cell holds the identifiers
//! of the items whose box meets it, and a registry keeps each item's box.
//! Region, point, nearest-item and collision queries read candidates from
//! the cells and test them against the registered boxes. The index can be
//! rebuilt over new bounds and re-tune its cell size to its item density.
//!
//! Coordinates are integers: a rectangle has a signed origin and an unsigned
//! extent, and every comparison the index makes is exact. Distances are
//! compared by their squares. Query results list each item once, in the
//! byte order of their identifiers.

pub mod geometry;
pub mod grid;
pub mod index;
pub mod laws;
pub mod model;
pub mod order;
pub mod tuning;
pub mod util;

pub use geometry::Rect;
pub use grid::{GridCell, SpatialGrid};
pub use index::{ItemRecord, SpatialIndexManager, SpatialIndexStats};
pub use tuning::{calculate_optimal_cell_size, should_optimize};
pub use util::{string_to_color, MemoryTracker};
