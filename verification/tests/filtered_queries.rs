use bevy_bitgrid_spatial::{SpatialHash, TileMask};

type TestSpatialHash = SpatialHash<u32, 256, 256, 2, 5>;
type TestBoard = TileMask<256, 256>;

#[test]
fn spatial_hash_test_spatial_insert_remove() {
    let mut hash = TestSpatialHash::default();
    let entity = 1u32;

    hash.insert(entity, (10, 10), 1, 0);
    assert!(hash.is_tile_occupied(10, 10));
    assert!(hash.is_tile_occupied(9, 9));
    assert!(hash.is_tile_occupied(11, 11));
    assert!(!hash.is_tile_occupied(12, 12));

    hash.remove(entity);
    assert!(!hash.is_tile_occupied(10, 10));
}

#[test]
fn spatial_hash_test_spatial_query_radius() {
    let mut hash = TestSpatialHash::default();
    let e1 = 1u32;
    let e2 = 2u32;

    hash.insert(e1, (10, 10), 0, 0);
    hash.insert(e2, (15, 10), 0, 0);

    let found = hash.query_filtered_radius_callback((10, 10), 5, 99u32, None);
    assert_eq!(found.len(), 2);
    assert!(found.contains(&e1));
    assert!(found.contains(&e2));

    let found2 = hash.query_filtered_radius_callback((10, 10), 4, 99u32, None);
    assert_eq!(found2.len(), 1);
    assert!(found2.contains(&e1));
}

#[test]
fn spatial_hash_test_spatial_boundary_conditions() {
    let mut hash = TestSpatialHash::default();
    let e1 = 1u32;

    hash.insert(e1, (0, 0), 1, 0);
    assert!(hash.is_tile_occupied(0, 0));
    assert!(hash.is_tile_occupied(1, 1));
    assert!(!hash.is_tile_occupied(2, 2));

    hash.remove(e1);

    hash.insert(e1, (255, 255), 1, 0);
    assert!(hash.is_tile_occupied(255, 255));
    assert!(hash.is_tile_occupied(254, 254));
    assert!(!hash.is_tile_occupied(253, 253));
}

#[test]
fn spatial_hash_test_spatial_update_diff() {
    let mut hash = TestSpatialHash::default();
    let e1 = 1u32;

    hash.insert(e1, (10, 10), 1, 0);
    assert!(hash.is_tile_occupied(10, 10));
    assert!(hash.is_tile_occupied(11, 11));

    hash.update_diff(e1, (20, 20), 0, 0);

    assert!(!hash.is_tile_occupied(10, 10));
    assert!(!hash.is_tile_occupied(11, 11));
    assert!(hash.is_tile_occupied(20, 20));
    assert!(!hash.is_tile_occupied(21, 21));
}

#[test]
fn spatial_hash_test_spatial_query_mask_bounded() {
    let mut hash = TestSpatialHash::default();
    let e1 = 1u32;
    let e2 = 2u32;

    hash.insert(e1, (10, 10), 0, 0);
    hash.insert(e2, (20, 20), 0, 0);

    let mut full_mask = TestBoard::default();
    full_mask = full_mask.complement();

    let found = hash.query_mask_bounded_callback(&full_mask, None, 99u32, (0, 0), (15, 15));
    assert_eq!(found.len(), 1);
    assert!(found.contains(&e1));
    assert!(!found.contains(&e2));
}

#[test]
fn spatial_hash_test_spatial_static_layers() {
    let mut hash = TestSpatialHash::default();
    let mut wall_map = TestBoard::default();
    wall_map.set(5, 5, true);

    assert_eq!(hash.static_revision(), 0);
    hash.full_sync_static_layer(0, &wall_map, 1);
    assert_eq!(hash.static_revision(), 1);
    assert!(!hash.is_tile_occupied(5, 5));
}

#[test]
fn spatial_hash_test_spatial_update_with_threshold() {
    let mut hash = TestSpatialHash::default();
    let e1 = 1u32;

    hash.insert(e1, (10, 10), 0, 0);

    hash.update_with_threshold(e1, (12, 10), 0, 0, 5);
    let info = hash.get_entity_info(e1).unwrap();
    assert_eq!((info.0, info.1), (10, 10), "Update should be throttled");

    hash.update_with_threshold(e1, (16, 10), 0, 0, 5);
    let info2 = hash.get_entity_info(e1).unwrap();
    assert_eq!((info2.0, info2.1), (16, 10), "Update should be applied");
}

#[test]
fn spatial_hash_test_spatial_multiple_entities_overlap() {
    let mut hash = TestSpatialHash::default();
    let e1 = 1u32;
    let e2 = 2u32;

    hash.insert(e1, (10, 10), 0, 0);
    hash.insert(e2, (10, 10), 0, 0);

    assert!(hash.is_tile_occupied(10, 10));
    assert_eq!(hash.cell_ids(10, 10).len(), 2);

    hash.remove(e1);
    assert!(hash.is_tile_occupied(10, 10), "Still occupied by e2");
    assert_eq!(hash.cell_ids(10, 10).len(), 1);

    hash.remove(e2);
    assert!(!hash.is_tile_occupied(10, 10));
}

#[test]
fn spatial_hash_test_spatial_update_complex() {
    let mut hash = TestSpatialHash::default();
    let e1 = 1u32;

    hash.insert(e1, (10, 10), 1, 0);

    hash.update_diff(e1, (20, 20), 0, 1);

    assert!(!hash.is_tile_occupied(10, 10));
    assert!(hash.is_tile_occupied(20, 20));
    assert!(hash.layer(1).get(20, 20));
    assert!(!hash.layer(0).get(20, 20));
}

#[test]
fn spatial_hash_test_spatial_consistency_audit() {
    let mut hash = TestSpatialHash::default();
    let e1 = 1u32;
    hash.insert(e1, (50, 50), 2, 0);

    let mask = TestBoard::mask_rect(50 - 2, 50 - 2, 5, 5);
    assert_eq!(hash.presence().count_ones(), mask.count_ones());

    for (x, y) in hash.presence().set_tiles() {
        assert!(hash.cell_ids(x, y).iter().any(|&id| id == e1));
    }
}

#[test]
fn spatial_hash_test_spatial_out_of_bounds_movement() {
    let mut hash = TestSpatialHash::default();
    let e1 = 1u32;

    hash.insert(e1, (10, 10), 0, 0);
    assert!(hash.is_tile_occupied(10, 10));

    hash.update_diff(e1, (-100, -100), 0, 0);
    assert!(!hash.is_tile_occupied(10, 10));
    let info = hash.get_entity_info(e1).unwrap();
    assert!((info.0, info.1) == (-100, -100));
    assert!(hash.presence().is_empty());

    hash.update_diff(e1, (0, 0), 2, 0);
    assert!(hash.is_tile_occupied(0, 0));
    assert!(hash.is_tile_occupied(2, 2));
}

#[test]
fn spatial_hash_test_spatial_update_kind_change_consistency() {
    let mut hash = TestSpatialHash::default();
    let e1 = 1u32;

    hash.insert(e1, (10, 10), 0, 0);
    assert!(hash.layer(0).get(10, 10));
    assert!(!hash.layer(1).get(10, 10));

    hash.update_diff(e1, (10, 10), 0, 1);
    assert!(!hash.layer(0).get(10, 10));
    assert!(hash.layer(1).get(10, 10));
}

#[test]
fn spatial_hash_test_spatial_multiple_entities_same_kind_removal() {
    let mut hash = TestSpatialHash::default();
    let e1 = 1u32;
    let e2 = 2u32;

    hash.insert(e1, (10, 10), 0, 0);
    hash.insert(e2, (10, 10), 0, 0);

    assert!(hash.layer(0).get(10, 10));

    hash.remove(e1);
    assert!(
        hash.layer(0).get(10, 10),
        "Bit should remain since e2 is still Kind 0 at this tile"
    );

    hash.remove(e2);
    assert!(!hash.layer(0).get(10, 10), "Bit should be cleared now");
}

#[test]
fn spatial_hash_test_spatial_query_empty_mask() {
    let mut hash = TestSpatialHash::default();
    hash.insert(1, (10, 10), 0, 0);

    let empty_mask = TileMask::<256, 256>::new();
    let found = hash.query_mask_callback(&empty_mask, None, 99);

    assert!(found.is_empty());
}

#[test]
fn spatial_hash_test_spatial_id_reuse() {
    let mut hash = TestSpatialHash::default();
    let e1 = 1u32;

    hash.insert(e1, (10, 10), 0, 0);
    hash.remove(e1);

    hash.insert(e1, (20, 20), 0, 0);
    assert!(!hash.is_tile_occupied(10, 10));
    assert!(hash.is_tile_occupied(20, 20));
}

#[test]
fn radius_query_filters_by_kind_and_exclusion() {
    let mut hash = TestSpatialHash::default();
    hash.insert(1u32, (10, 10), 0, 0);
    hash.insert(2u32, (11, 10), 0, 1);
    hash.insert(3u32, (12, 10), 0, 1);

    assert_eq!(hash.query_filtered_radius_callback((10, 10), 2, 99u32, Some(1)), vec![2u32, 3u32]);
    assert_eq!(hash.query_filtered_radius_callback((10, 10), 2, 2u32, Some(1)), vec![3u32]);
    assert_eq!(hash.query_filtered_radius_callback((10, 10), 2, 99u32, Some(0)), vec![1u32]);
    assert_eq!(hash.query_filtered_radius_callback((10, 10), 1, 99u32, None), vec![1u32, 2u32]);
    assert!(hash.query_filtered_radius_callback((10, 10), -1, 99u32, None).is_empty());
}

#[test]
fn radius_query_reports_an_entity_once_per_tile() {
    let mut hash = TestSpatialHash::default();
    hash.insert(7u32, (10, 10), 1, 0);
    // The 3x3 square of the entity meets the 1-radius query square around (12, 10)
    // in the column x = 11, rows 9..=11.
    assert_eq!(hash.query_filtered_radius_callback((12, 10), 1, 99u32, None), vec![7u32, 7u32, 7u32]);
}

#[test]
fn mask_query_filters_by_kind() {
    let mut hash = TestSpatialHash::default();
    hash.insert(1u32, (10, 10), 0, 0);
    hash.insert(2u32, (10, 10), 0, 1);
    let mut mask = TestBoard::new();
    mask.set(10, 10, true);

    assert_eq!(hash.query_mask_callback(&mask, Some(1), 99u32), vec![2u32]);
    assert_eq!(hash.query_mask_callback(&mask, Some(0), 99u32), vec![1u32]);
    assert_eq!(hash.query_mask_callback(&mask, None, 1u32), vec![2u32]);
    assert_eq!(hash.query_mask_callback(&mask, None, 99u32), vec![1u32, 2u32]);
}

#[test]
fn bounded_query_with_inverted_bounds_is_empty() {
    let mut hash = TestSpatialHash::default();
    hash.insert(1u32, (10, 10), 0, 0);
    let full = TestBoard::new().complement();
    assert!(hash.query_mask_bounded_callback(&full, None, 99u32, (15, 15), (0, 0)).is_empty());
    assert_eq!(hash.query_mask_bounded_callback(&full, None, 99u32, (10, 10), (10, 10)), vec![1u32]);
}

fn disc(center: (i32, i32), radius: f32) -> TestBoard {
    let mut mask = TestBoard::new();
    let r = radius.floor() as i32;
    for y in center.1 - r..=center.1 + r {
        for x in center.0 - r..=center.0 + r {
            let dx = (x - center.0) as f32;
            let dy = (y - center.1) as f32;
            if dx * dx + dy * dy <= radius * radius {
                mask.set(x, y, true);
            }
        }
    }
    mask
}

#[test]
fn spatial_hash_test_spatial_query_exclude_logic() {
    let mut hash = TestSpatialHash::default();
    let e1 = 1u32;
    let e2 = 2u32;

    hash.insert(e1, (10, 10), 0, 0);
    hash.insert(e2, (11, 10), 0, 0);

    let found = hash.query_mask_callback(&disc((10, 10), 2.0), None, e1);

    assert_eq!(found.len(), 1);
    assert!(found.contains(&e2));
    assert!(!found.contains(&e1));
}

#[test]
fn spatial_hash_test_spatial_query_composite_proximity() {
    let mut hash = TestSpatialHash::default();
    let ally = 1u32;
    let enemy = 2u32;

    hash.insert(ally, (10, 10), 0, 0);
    hash.insert(enemy, (12, 12), 0, 1);

    let mut proximity_mask = TestBoard::new();
    for (x, y) in hash.layer(0).set_tiles() {
        for yy in y - 3..=y + 3 {
            for xx in x - 3..=x + 3 {
                proximity_mask.set(xx, yy, true);
            }
        }
    }

    let found = hash.query_mask_callback(&proximity_mask, Some(1), 99u32);

    assert!(found.contains(&enemy));
    assert!(!found.contains(&ally));
}
