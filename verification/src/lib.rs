//! A spatial hash over a tile board: entities register the square of tiles around
//! their center, per-kind occupancy boards track where each kind stands, and
//! queries report the entities that occupy a set of tiles.
pub mod entity_id;
pub mod geometry;
pub mod grid;
pub mod query_builder;
pub mod spatial_hash;
pub mod storage;
pub mod tile_mask;

pub use entity_id::EntityId;
pub use geometry::{Rect, for_each_rect_diff, rect_diff_bands};
pub use query_builder::SpatialQuery;
pub use spatial_hash::{EntityEntry, SpatialHash};
pub use tile_mask::TileMask;
