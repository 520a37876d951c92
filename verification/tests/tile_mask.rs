use bevy_bitgrid_spatial::TileMask;

type Board = TileMask<8, 6>;

#[test]
fn new_mask_is_empty_and_sized() {
    let m = Board::new();
    assert!(m.is_empty());
    assert_eq!(m.count_ones(), 0);
    assert_eq!(Board::tile_count(), 48);
    assert!(Board::dims_ok());
    assert!(Board::default().is_empty());
}

#[test]
fn tile_to_index_is_row_major_and_rejects_off_board() {
    assert_eq!(Board::tile_to_index(0, 0), Some(0));
    assert_eq!(Board::tile_to_index(3, 2), Some(19));
    assert_eq!(Board::tile_to_index(7, 5), Some(47));
    assert_eq!(Board::tile_to_index(8, 0), None);
    assert_eq!(Board::tile_to_index(0, 6), None);
    assert_eq!(Board::tile_to_index(-1, 0), None);
}

#[test]
fn set_get_and_off_board_writes() {
    let mut m = Board::new();
    m.set(3, 2, true);
    assert!(m.get(3, 2));
    assert!(m.get_index(19));
    m.set(100, 100, true);
    m.set(-1, 0, true);
    assert_eq!(m.count_ones(), 1);
    assert!(!m.get(100, 100));
    m.set(3, 2, false);
    assert!(m.is_empty());
    m.set_index(47, true);
    assert!(m.get(7, 5));
}

#[test]
fn mask_rect_clips_to_the_board() {
    let m = Board::mask_rect(6, 4, 5, 5);
    assert_eq!(m.count_ones(), 4);
    assert!(m.get(6, 4) && m.get(7, 5));
    assert!(Board::mask_rect(2, 2, 0, 3).is_empty());
    assert!(Board::mask_rect(2, 2, -3, 3).is_empty());
}

#[test]
fn mask_box_includes_both_corners() {
    let m = Board::mask_box(1, 1, 2, 3);
    assert_eq!(m.count_ones(), 6);
    assert!(m.get(1, 1) && m.get(2, 3));
    assert!(!m.get(3, 3));
    assert!(Board::mask_box(2, 2, 1, 1).is_empty());
}

#[test]
fn set_algebra() {
    let a = Board::mask_rect(0, 0, 4, 6);
    let b = Board::mask_rect(2, 0, 4, 6);
    let both = a.intersection(&b);
    assert_eq!(both.count_ones(), 12);
    let mut either = a.clone();
    either.union_with(&b);
    assert_eq!(either.count_ones(), 36);
    let outside = either.complement();
    assert_eq!(outside.count_ones(), 12);
    assert!(outside.get(7, 0) && !outside.get(5, 0));
    assert!(Board::new().complement().intersection(&a).count_ones() == a.count_ones());
}

#[test]
fn set_tiles_in_row_major_order() {
    let mut m = Board::new();
    m.set(5, 3, true);
    m.set(1, 0, true);
    m.set(0, 3, true);
    assert_eq!(m.set_tiles(), vec![(1, 0), (0, 3), (5, 3)]);
}

#[test]
fn area_checks_treat_off_board_tiles_as_unset() {
    let full = Board::new().complement();
    assert!(full.is_area_all_set(3, 3, 1));
    assert!(!full.is_area_all_set(0, 0, 1));
    assert!(full.is_area_all_set(0, 0, 0));
    assert!(full.is_area_all_set(50, 50, -1));
    let mut one = Board::new();
    one.set(4, 4, true);
    assert!(one.is_area_any_set(2, 2, 2));
    assert!(!one.is_area_any_set(2, 2, 1));
    assert!(!one.is_area_any_set(4, 4, -1));
}

#[test]
fn erosion_keeps_the_tiles_whose_square_is_set() {
    let block = Board::mask_rect(1, 1, 5, 4);
    let e1 = block.eroded(1);
    assert_eq!(e1.set_tiles(), vec![(2, 2), (3, 2), (4, 2), (2, 3), (3, 3), (4, 3)]);
    let e2 = block.eroded(2);
    assert!(e2.is_empty());
    assert_eq!(block.eroded(0).count_ones(), block.count_ones());
}
