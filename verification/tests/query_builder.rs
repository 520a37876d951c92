use bevy_bitgrid_spatial::{SpatialHash, TileMask};

type TestSpatialHash = SpatialHash<u32, 256, 256, 4, 1>;

#[test]
fn test_query_builder_shapes() {
    let mut hash = TestSpatialHash::default();
    let e1 = 1u32;
    hash.insert(e1, (10, 10), 0, 0);

    let found = hash.query().rect(9, 9, 3, 3);
    assert!(found.contains(&e1));

    let found = hash.query().rect(20, 20, 5, 5);
    assert!(found.is_empty());

    let mut mask = TileMask::<256, 256>::default();
    mask.set(10, 10, true);
    let found = hash.query().mask(&mask);
    assert!(found.contains(&e1));
}

#[test]
fn builder_kind_filters_on_rect() {
    let mut hash = TestSpatialHash::default();
    hash.insert(1u32, (10, 10), 0, 0);
    hash.insert(2u32, (11, 11), 0, 1);
    hash.insert(3u32, (12, 12), 0, 2);

    assert_eq!(hash.query().with_kind(1).rect(5, 5, 11, 11), vec![2u32]);

    let found = hash.query().with_kind_mask((1 << 0) | (1 << 2)).rect(5, 5, 11, 11);
    assert_eq!(found, vec![1u32, 3u32]);

    let found = hash.query().exclude(1u32).rect(5, 5, 11, 11);
    assert_eq!(found, vec![2u32, 3u32]);
}

#[test]
fn builder_zero_kind_mask_finds_nothing() {
    let mut hash = TestSpatialHash::default();
    hash.insert(1u32, (10, 10), 0, 0);
    hash.insert(2u32, (10, 10), 0, 1);
    assert!(hash.query().with_kind_mask(0).rect(0, 0, 256, 256).is_empty());
}

#[test]
fn builder_last_kind_filter_wins() {
    let mut hash = TestSpatialHash::default();
    hash.insert(1u32, (10, 10), 0, 0);
    hash.insert(2u32, (10, 10), 0, 1);
    assert_eq!(hash.query().with_kind(0).with_kind(1).rect(5, 5, 11, 11), vec![2u32]);
    assert_eq!(hash.query().exclude(1u32).exclude(2u32).rect(5, 5, 11, 11), vec![1u32]);
}

#[test]
fn query_reports_exactly_the_covering_entities() {
    let mut hash = TestSpatialHash::default();
    hash.insert(1u32, (10, 10), 2, 0);
    hash.insert(2u32, (20, 20), 1, 1);
    // One tile inside the first square, one inside neither square.
    assert_eq!(hash.query().rect(12, 12, 1, 1), vec![1u32]);
    assert!(hash.query().rect(15, 15, 1, 1).is_empty());
    // A tile covered by the second square only.
    assert_eq!(hash.query().rect(19, 21, 1, 1), vec![2u32]);
}

#[test]
fn diff_update_matches_a_fresh_registration() {
    let mut moved = TestSpatialHash::default();
    moved.insert(1u32, (10, 10), 2, 0);
    moved.update_diff(1u32, (12, 11), 2, 0);
    let mut fresh = TestSpatialHash::default();
    fresh.insert(1u32, (12, 11), 2, 0);
    assert_eq!(moved.presence().set_tiles(), fresh.presence().set_tiles());
    assert_eq!(moved.layer(0).set_tiles(), fresh.layer(0).set_tiles());
    for (x, y) in fresh.presence().set_tiles() {
        assert_eq!(moved.cell_ids(x, y), fresh.cell_ids(x, y));
    }
    assert_eq!(moved.get_entity_info(1u32), fresh.get_entity_info(1u32));
}

#[test]
fn remove_undoes_insert() {
    let mut hash = TestSpatialHash::default();
    hash.insert(5u32, (3, 3), 1, 2);
    hash.insert(6u32, (4, 4), 0, 1);
    hash.insert(7u32, (100, 100), 3, 0);
    hash.remove(7u32);
    let mut reference = TestSpatialHash::default();
    reference.insert(5u32, (3, 3), 1, 2);
    reference.insert(6u32, (4, 4), 0, 1);
    assert_eq!(hash.presence().set_tiles(), reference.presence().set_tiles());
    for k in 0..4 {
        assert_eq!(hash.layer(k).set_tiles(), reference.layer(k).set_tiles());
    }
    assert_eq!(hash.get_entity_info(7u32), None);
}

#[test]
fn entity_info_reports_the_record() {
    let mut hash = TestSpatialHash::default();
    assert_eq!(hash.get_entity_info(3u32), None);
    hash.insert(3u32, (7, 8), 2, 3);
    assert_eq!(hash.get_entity_info(3u32), Some((7, 8, 2)));
    let e = hash.entity_entry(3u32).unwrap();
    assert_eq!((e.center, e.radius, e.kind_idx), ((7, 8), 2, 3));
}

#[test]
fn threshold_zero_or_kind_change_always_updates() {
    let mut hash = TestSpatialHash::default();
    hash.insert(1u32, (10, 10), 0, 0);
    hash.update_with_threshold(1u32, (10, 10), 0, 1, 100);
    assert!(hash.layer(1).get(10, 10));
    hash.update_with_threshold(1u32, (11, 10), 0, 1, 0);
    assert_eq!(hash.get_entity_info(1u32), Some((11, 10, 0)));
    // Not registered yet: the update registers it.
    hash.update_with_threshold(2u32, (30, 30), 1, 0, 100);
    assert!(hash.is_tile_occupied(31, 31));
}

#[test]
fn update_alias_moves_the_entity() {
    let mut hash = TestSpatialHash::default();
    hash.insert(1u32, (10, 10), 0, 0);
    hash.update(1u32, (40, 40), 0, 0);
    assert!(!hash.is_tile_occupied(10, 10));
    assert!(hash.is_tile_occupied(40, 40));
}

#[test]
fn static_area_checks_for_other_radii_and_layers() {
    let mut hash = TestSpatialHash::default();
    let mut board = TileMask::<256, 256>::new();
    for y in 10..=16 {
        for x in 10..=16 {
            board.set(x, y, true);
        }
    }
    hash.full_sync_static_layer(0, &board, 7);
    assert!(hash.is_static_area_all_set(0, 13, 13, 3));
    assert!(!hash.is_static_area_all_set(0, 13, 13, 4));
    assert!(hash.is_static_area_all_set(0, 13, 13, 0));
    assert!(!hash.is_static_area_all_set(1, 13, 13, 0));
    assert!(!hash.is_static_area_any_set(1, 13, 13, 3));
    assert!(!hash.is_static_area_any_set(0, 0, 0, 5));
    assert!(hash.static_layer(0).get(16, 16));
    hash.update_static_tile(3, 1, 1, true, 9);
    assert_eq!(hash.static_revision(), 7);
}

fn disc(center: (i32, i32), radius: f32) -> TileMask<256, 256> {
    let mut mask = TileMask::<256, 256>::new();
    let r = radius.floor() as i32;
    for y in center.1 - r..=center.1 + r {
        for x in center.0 - r..=center.0 + r {
            let dx = (x - center.0) as f32;
            let dy = (y - center.1) as f32;
            if dx * dx + dy * dy <= radius * radius {
                mask.set(x, y, true);
            }
        }
    }
    mask
}

#[test]
fn test_query_builder_filtering() {
    let mut hash = TestSpatialHash::default();
    let e1 = 1u32;
    let e2 = 2u32;
    let e3 = 3u32;

    hash.insert(e1, (10, 10), 0, 0);
    hash.insert(e2, (11, 11), 0, 1);
    hash.insert(e3, (12, 12), 0, 2);

    let circle = disc((10, 10), 5.0);

    let found = hash.query().with_kind(1).mask(&circle);
    assert_eq!(found, vec![e2]);

    let found = hash.query().with_kind_mask((1 << 0) | (1 << 2)).mask(&circle);
    assert!(found.contains(&e1));
    assert!(found.contains(&e3));
    assert!(!found.contains(&e2));

    let found = hash.query().exclude(e1).mask(&circle);
    assert!(!found.contains(&e1));
    assert!(found.contains(&e2));
    assert!(found.contains(&e3));
}
