# bevy_bitgrid_spatial

A spatial hash over a `W` x `H` tile board, verified with Verus. Entities register
the square of tiles within their radius around their center; a presence board and
one occupancy board per entity kind record where entities stand; queries report the
entities on a set of tiles, filtered by kind and by an excluded identifier. Static
layers (terrain and the like) are kept beside them, with cached erosions for fast
walkability checks.

## Layout

- `src/tile_mask.rs` — `TileMask`, a set of tiles stored one flag per tile in
  row-major order, with its set operations, area checks and erosion.
- `src/geometry.rs` — inclusive tile rectangles and the band decomposition of the
  difference of two of them, which a diff update walks.
- `src/spatial_hash/` — the spatial hash: registration (`entity.rs`), queries
  (`query.rs`), static layers (`static_layer.rs`) and the registration invariant with
  the laws proved over it (`consistency.rs`).
- `src/query_builder.rs` — the query builder (kind filter, exclusion, shapes).
- `src/storage.rs` — the per-tile `smallvec::SmallVec` and the `hashbrown::HashMap`
  of records, behind the contracts that the verified code relies on.
- `app/` — the Bevy plugin and synchronisation system, and the floating-point shapes
  (circle, sector, line of sight) that the `bitgrid` crate rasterises.
