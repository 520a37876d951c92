use bevy_bitgrid_spatial::{SpatialHash, TileMask};

type TestSpatialHash = SpatialHash<u32, 256, 256, 2, 5>;
type TestBoard = TileMask<256, 256>;

#[test]
fn mod_test_spatial_insert_remove() {
    let mut hash = TestSpatialHash::default();
    let entity = 1u32;

    hash.insert(entity, (10, 10), 1, 0);
    assert!(hash.is_tile_occupied(10, 10));
    assert!(hash.is_tile_occupied(9, 9));
    assert!(hash.is_tile_occupied(11, 11));
    assert!(!hash.is_tile_occupied(12, 12));

    hash.remove(entity);
    assert!(!hash.is_tile_occupied(10, 10));
}

#[test]
fn mod_test_spatial_query_radius() {
    let mut hash = TestSpatialHash::default();
    let e1 = 1u32;
    let e2 = 2u32;

    hash.insert(e1, (10, 10), 0, 0);
    hash.insert(e2, (15, 10), 0, 0);

    let found = hash.query().rect(10 - 5, 10 - 5, 11, 11);
    assert_eq!(found.len(), 2);
    assert!(found.contains(&e1));
    assert!(found.contains(&e2));

    let found2 = hash.query().rect(10 - 4, 10 - 4, 9, 9);
    assert_eq!(found2.len(), 1);
    assert!(found2.contains(&e1));
}

#[test]
fn mod_test_spatial_boundary_conditions() {
    let mut hash = TestSpatialHash::default();
    let e1 = 1u32;

    hash.insert(e1, (0, 0), 1, 0);
    assert!(hash.is_tile_occupied(0, 0));
    assert!(hash.is_tile_occupied(1, 1));
    assert!(!hash.is_tile_occupied(2, 2));

    hash.remove(e1);

    hash.insert(e1, (255, 255), 1, 0);
    assert!(hash.is_tile_occupied(255, 255));
    assert!(hash.is_tile_occupied(254, 254));
    assert!(!hash.is_tile_occupied(253, 253));
}

#[test]
fn mod_test_spatial_update_diff() {
    let mut hash = TestSpatialHash::default();
    let e1 = 1u32;

    hash.insert(e1, (10, 10), 1, 0);
    assert!(hash.is_tile_occupied(10, 10));
    assert!(hash.is_tile_occupied(11, 11));

    hash.update_diff(e1, (20, 20), 0, 0);

    assert!(!hash.is_tile_occupied(10, 10));
    assert!(!hash.is_tile_occupied(11, 11));
    assert!(hash.is_tile_occupied(20, 20));
    assert!(!hash.is_tile_occupied(21, 21));
}

#[test]
fn mod_test_spatial_query_mask_bounded() {
    let mut hash = TestSpatialHash::default();
    let e1 = 1u32;
    let e2 = 2u32;

    hash.insert(e1, (10, 10), 0, 0);
    hash.insert(e2, (20, 20), 0, 0);

    let mut full_mask = TestBoard::default();
    full_mask = full_mask.complement();

    let bounds_mask = TestBoard::mask_rect(0, 0, 16, 16);
    let combined_mask = full_mask.intersection(&bounds_mask);

    let found = hash.query().mask(&combined_mask);
    assert_eq!(found.len(), 1);
    assert!(found.contains(&e1));
    assert!(!found.contains(&e2));
}

#[test]
fn mod_test_spatial_static_layers() {
    let mut hash = TestSpatialHash::default();
    let mut wall_map = TestBoard::default();
    wall_map.set(5, 5, true);

    assert_eq!(hash.static_revision(), 0);
    hash.full_sync_static_layer(0, &wall_map, 1);
    assert_eq!(hash.static_revision(), 1);
    assert!(!hash.is_tile_occupied(5, 5));
}

#[test]
fn mod_test_spatial_update_with_threshold() {
    let mut hash = TestSpatialHash::default();
    let e1 = 1u32;

    hash.insert(e1, (10, 10), 0, 0);

    hash.update_with_threshold(e1, (12, 10), 0, 0, 5);
    let info = hash.entity_entry(e1).unwrap();
    assert_eq!(info.center, (10, 10), "Update should be throttled");

    hash.update_with_threshold(e1, (16, 10), 0, 0, 5);
    let info2 = hash.entity_entry(e1).unwrap();
    assert_eq!(info2.center, (16, 10), "Update should be applied");
}

#[test]
fn mod_test_spatial_multiple_entities_overlap() {
    let mut hash = TestSpatialHash::default();
    let e1 = 1u32;
    let e2 = 2u32;

    hash.insert(e1, (10, 10), 0, 0);
    hash.insert(e2, (10, 10), 0, 0);

    assert!(hash.is_tile_occupied(10, 10));
    assert_eq!(hash.cell_ids(10, 10).len(), 2);

    hash.remove(e1);
    assert!(hash.is_tile_occupied(10, 10), "Still occupied by e2");
    assert_eq!(hash.cell_ids(10, 10).len(), 1);

    hash.remove(e2);
    assert!(!hash.is_tile_occupied(10, 10));
}

#[test]
fn mod_test_spatial_update_complex() {
    let mut hash = TestSpatialHash::default();
    let e1 = 1u32;

    hash.insert(e1, (10, 10), 1, 0);

    hash.update_diff(e1, (20, 20), 0, 1);

    assert!(!hash.is_tile_occupied(10, 10));
    assert!(hash.is_tile_occupied(20, 20));
    assert!(hash.layer(1).get(20, 20));
    assert!(!hash.layer(0).get(20, 20));
}

#[test]
fn test_static_area_queries() {
    let mut sh = TestSpatialHash::default();
    let mut board = TestBoard::default();

    for y in 18..=22 {
        for x in 18..=22 {
            board.set(x, y, true);
        }
    }

    sh.full_sync_static_layer(0, &board, 1);

    assert!(sh.is_static_area_all_set(0, 20, 20, 2));
    assert!(sh.is_static_area_all_set(0, 20, 20, 1));
    assert!(sh.is_static_area_any_set(0, 20, 20, 3));

    board.set(18, 18, false);
    sh.full_sync_static_layer(0, &board, 2);
    assert!(!sh.is_static_area_all_set(0, 20, 20, 2));
    assert!(sh.is_static_area_any_set(0, 20, 20, 2));
}

#[test]
fn mod_test_spatial_consistency_audit() {
    let mut hash = TestSpatialHash::default();
    let e1 = 1u32;
    hash.insert(e1, (50, 50), 2, 0);

    let mask = TestBoard::mask_rect(50 - 2, 50 - 2, 5, 5);
    assert_eq!(hash.presence().count_ones(), mask.count_ones());

    for (x, y) in hash.presence().set_tiles() {
        assert!(hash.cell_ids(x, y).iter().any(|&id| id == e1));
    }
}

#[test]
fn mod_test_spatial_out_of_bounds_movement() {
    let mut hash = TestSpatialHash::default();
    let e1 = 1u32;

    hash.insert(e1, (10, 10), 0, 0);
    assert!(hash.is_tile_occupied(10, 10));

    hash.update_diff(e1, (-100, -100), 0, 0);
    assert!(!hash.is_tile_occupied(10, 10));
    assert!(hash.entity_entry(e1).unwrap().center == (-100, -100));
    assert!(hash.presence().is_empty());

    hash.update_diff(e1, (0, 0), 2, 0);
    assert!(hash.is_tile_occupied(0, 0));
    assert!(hash.is_tile_occupied(2, 2));
}

#[test]
fn mod_test_spatial_update_kind_change_consistency() {
    let mut hash = TestSpatialHash::default();
    let e1 = 1u32;

    hash.insert(e1, (10, 10), 0, 0);
    assert!(hash.layer(0).get(10, 10));
    assert!(!hash.layer(1).get(10, 10));

    hash.update_diff(e1, (10, 10), 0, 1);
    assert!(!hash.layer(0).get(10, 10));
    assert!(hash.layer(1).get(10, 10));
}

#[test]
fn mod_test_spatial_multiple_entities_same_kind_removal() {
    let mut hash = TestSpatialHash::default();
    let e1 = 1u32;
    let e2 = 2u32;

    hash.insert(e1, (10, 10), 0, 0);
    hash.insert(e2, (10, 10), 0, 0);

    assert!(hash.layer(0).get(10, 10));

    hash.remove(e1);
    assert!(
        hash.layer(0).get(10, 10),
        "Bit should remain since e2 is still Kind 0 at this tile"
    );

    hash.remove(e2);
    assert!(!hash.layer(0).get(10, 10), "Bit should be cleared now");
}

#[test]
fn mod_test_spatial_query_empty_mask() {
    let mut hash = TestSpatialHash::default();
    hash.insert(1, (10, 10), 0, 0);

    let empty_mask = TileMask::<256, 256>::new();
    let found = hash.query().mask(&empty_mask);

    assert!(found.is_empty());
}

#[test]
fn mod_test_spatial_id_reuse() {
    let mut hash = TestSpatialHash::default();
    let e1 = 1u32;

    hash.insert(e1, (10, 10), 0, 0);
    hash.remove(e1);

    hash.insert(e1, (20, 20), 0, 0);
    assert!(!hash.is_tile_occupied(10, 10));
    assert!(hash.is_tile_occupied(20, 20));
}

#[test]
fn update_diff_is_no_op_when_nothing_changed() {
    let mut h = TestSpatialHash::default();
    h.insert(1u32, (10, 10), 1, 0);
    let presence_before = h.presence().count_ones();
    let cells_before = h.cell_ids(10, 10).len();

    h.update_diff(1u32, (10, 10), 1, 0);

    assert_eq!(h.presence().count_ones(), presence_before);
    assert_eq!(h.cell_ids(10, 10).len(), cells_before);
}

#[test]
fn update_diff_radius_only_change_goes_through_remove_insert() {
    let mut h = TestSpatialHash::default();
    h.insert(1u32, (10, 10), 1, 0);
    h.update_diff(1u32, (10, 10), 2, 0);
    assert!(h.is_tile_occupied(8, 8));
    assert!(h.is_tile_occupied(12, 12));
    assert!(h.is_tile_occupied(11, 11));
    let info = h.entity_entry(1u32).unwrap();
    assert_eq!(info.radius, 2);
}

#[test]
fn update_diff_kind_only_change_swaps_layer() {
    let mut h = TestSpatialHash::default();
    h.insert(1u32, (10, 10), 0, 0);
    assert!(h.layer(0).get(10, 10));
    assert!(!h.layer(1).get(10, 10));

    h.update_diff(1u32, (10, 10), 0, 1);

    assert!(!h.layer(0).get(10, 10), "the old kind's bit is cleared");
    assert!(h.layer(1).get(10, 10), "the new kind's bit is set");
    assert_eq!(h.entity_entry(1u32).unwrap().kind_idx, 1);
}

#[test]
fn update_diff_handles_disjoint_movement() {
    let mut h = TestSpatialHash::default();
    h.insert(1u32, (10, 10), 1, 0);
    assert!(h.is_tile_occupied(10, 10));
    assert!(h.is_tile_occupied(11, 11));

    h.update_diff(1u32, (100, 100), 1, 0);

    assert!(!h.is_tile_occupied(10, 10));
    assert!(!h.is_tile_occupied(11, 11));
    assert!(h.is_tile_occupied(100, 100));
    assert!(h.is_tile_occupied(101, 101));
}

#[test]
fn insert_overrides_existing_entity_info_but_leaves_stale_cells() {
    let mut h = TestSpatialHash::default();
    h.insert(1u32, (10, 10), 0, 0);
    h.insert(1u32, (20, 20), 0, 0);

    assert_eq!(h.entity_entry(1u32).unwrap().center, (20, 20));
    assert!(h.cell_ids(10, 10).iter().any(|&id| id == 1u32));
}

#[test]
fn remove_unknown_entity_is_idempotent() {
    let mut h = TestSpatialHash::default();
    h.remove(42u32);
    h.remove(42u32);
    assert!(h.presence().is_empty());
}

#[test]
fn insert_with_negative_radius_is_silent_no_op_for_cells() {
    let mut h = TestSpatialHash::default();
    h.insert(1u32, (10, 10), -1, 0);
    assert!(h.entity_entry(1u32).is_some());
    assert!(h.presence().is_empty());
}

#[test]
fn insert_with_huge_radius_does_not_panic() {
    let mut h = TestSpatialHash::default();
    h.insert(1u32, (128, 128), 500, 0);
    assert!(h.entity_entry(1u32).is_some());
    assert!(h.is_tile_occupied(128, 128));
    h.remove(1u32);
    assert!(h.presence().is_empty());
}

#[test]
fn update_static_tile_does_not_refresh_eroded_cache() {
    let mut h = TestSpatialHash::default();
    let mut board = TestBoard::default();
    for y in 18..=22 {
        for x in 18..=22 {
            board.set(x, y, true);
        }
    }
    h.full_sync_static_layer(0, &board, 1);
    assert!(h.is_static_area_all_set(0, 20, 20, 1));

    h.update_static_tile(0, 20, 20, false, 2);
    assert!(!h.static_layer(0).get(20, 20));
    assert!(
        h.is_static_area_all_set(0, 20, 20, 1),
        "the erosion cache is not refreshed by update_static_tile"
    );

    let layer = h.static_layer(0).clone();
    h.full_sync_static_layer(0, &layer, 3);
    assert!(!h.is_static_area_all_set(0, 20, 20, 1));
}

#[test]
fn full_sync_with_invalid_layer_idx_is_silent_no_op() {
    let mut h = TestSpatialHash::default();
    let board = TestBoard::default();
    h.full_sync_static_layer(10, &board, 1);
    assert_eq!(
        h.static_revision(),
        0,
        "an invalid layer_idx leaves the revision as it was"
    );
}

#[test]
fn spatial_hash_works_with_u64_id() {
    type U64Hash = SpatialHash<u64, 256, 256, 2, 1>;
    let mut h = U64Hash::default();
    let id = 0xDEAD_BEEF_CAFE_BABE_u64;
    h.insert(id, (10, 10), 0, 0);
    assert!(h.is_tile_occupied(10, 10));
    h.remove(id);
    assert!(!h.is_tile_occupied(10, 10));
}

/// The tiles within Euclidean distance `radius` of `center`, as a mask.
fn disc(center: (i32, i32), radius: f32) -> TestBoard {
    let mut mask = TestBoard::new();
    let r = radius.floor() as i32;
    for y in center.1 - r..=center.1 + r {
        for x in center.0 - r..=center.0 + r {
            let dx = (x - center.0) as f32;
            let dy = (y - center.1) as f32;
            if dx * dx + dy * dy <= radius * radius {
                mask.set(x, y, true);
            }
        }
    }
    mask
}

/// The tiles within `r` tiles (on each axis) of some tile of `board`.
fn grown(board: &TestBoard, r: i32) -> TestBoard {
    let mut mask = TestBoard::new();
    for (x, y) in board.set_tiles() {
        for yy in y - r..=y + r {
            for xx in x - r..=x + r {
                mask.set(xx, yy, true);
            }
        }
    }
    mask
}

#[test]
fn mod_test_spatial_query_exclude_logic() {
    let mut hash = TestSpatialHash::default();
    let e1 = 1u32;
    let e2 = 2u32;

    hash.insert(e1, (10, 10), 0, 0);
    hash.insert(e2, (11, 10), 0, 0);

    let found = hash.query().exclude(e1).mask(&disc((10, 10), 2.0));

    assert_eq!(found.len(), 1);
    assert!(found.contains(&e2));
    assert!(!found.contains(&e1));
}

#[test]
fn mod_test_spatial_query_composite_proximity() {
    let mut hash = TestSpatialHash::default();
    let ally = 1u32;
    let enemy = 2u32;

    hash.insert(ally, (10, 10), 0, 0);
    hash.insert(enemy, (12, 12), 0, 1);

    let proximity_mask = grown(hash.layer(0), 3);

    let found = hash.query().with_kind(1).mask(&proximity_mask);

    assert!(found.contains(&enemy));
    assert!(!found.contains(&ally));
}

#[test]
fn query_with_kind_mask_zero_yields_no_results() {
    let mut h = TestSpatialHash::default();
    h.insert(1u32, (10, 10), 0, 0);
    h.insert(2u32, (10, 10), 0, 1);

    let found = h.query().with_kind_mask(0).mask(&disc((10, 10), 5.0));
    assert!(found.is_empty());
}

#[test]
fn query_with_kind_repeated_keeps_last_call() {
    let mut h = TestSpatialHash::default();
    h.insert(1u32, (10, 10), 0, 0);
    h.insert(2u32, (10, 10), 0, 1);

    let found = h.query().with_kind(0).with_kind(1).mask(&disc((10, 10), 5.0));
    assert_eq!(found, vec![2u32]);
}

#[test]
fn single_kind_mask_beyond_the_kinds_is_refused_by_the_check() {
    let h = TestSpatialHash::default();
    assert!(!h.query().with_kind_mask(1 << 10).kind_filter_ok());
    assert!(h.query().with_kind_mask((1 << 10) | 1).kind_filter_ok());
    assert!(h.query().with_kind(1).kind_filter_ok());
    assert!(h.query().kind_filter_ok());
}

#[test]
fn many_kinds_are_supported() {
    type ManyKinds = SpatialHash<u32, 32, 32, 200, 1>;
    let mut h = ManyKinds::default();
    h.insert(1u32, (5, 5), 1, 150);
    h.insert(2u32, (5, 5), 0, 3);
    assert!(h.layer(150).get(4, 4));
    assert_eq!(h.query_mask_callback(&TileMask::<32, 32>::mask_rect(0, 0, 32, 32), Some(150), 99u32).len(), 9);
    assert_eq!(h.query_filtered_radius_callback((5, 5), 0, 99u32, Some(3)), vec![2u32]);
    h.update_diff(1u32, (6, 5), 1, 150);
    assert!(!h.layer(150).get(4, 4));
    h.remove(1u32);
    assert!(!h.layer(150).get(6, 5));
    assert_eq!(h.query().rect(0, 0, 32, 32), vec![2u32]);
}

#[test]
fn throttled_update_changes_nothing() {
    let mut h = TestSpatialHash::default();
    h.insert(1u32, (10, 10), 0, 0);
    // Throttled: same radius and kind, small move; nothing is computed.
    h.update_with_threshold(1u32, (10, 11), 0, 0, 2);
    assert_eq!(h.get_entity_info(1u32), Some((10, 10, 0)));
}

#[test]
fn more_than_256_kinds_build_a_usable_hash() {
    type Wide = SpatialHash<u32, 16, 16, 300, 1>;
    let mut h = Wide::default();
    assert!(h.presence().is_empty());
    assert!(!h.layer(299).get(0, 0));
    h.insert(1u32, (3, 3), 0, 255);
    assert!(h.layer(255).get(3, 3));
    assert_eq!(h.query().rect(0, 0, 16, 16), vec![1u32]);
    assert!(h.query_filtered_radius_callback((3, 3), 1, 99u32, Some(299)).is_empty());
    h.remove(1u32);
    assert!(h.presence().is_empty());
}
