use bevy_bitgrid_spatial::{Rect, for_each_rect_diff, rect_diff_bands};

fn tiles_of(r: Rect) -> Vec<(i32, i32)> {
    let mut v = Vec::new();
    for y in r.y1..=r.y2 {
        for x in r.x1..=r.x2 {
            v.push((x, y));
        }
    }
    v
}

fn contains(r: &Rect, t: (i32, i32)) -> bool {
    r.x1 <= t.0 && t.0 <= r.x2 && r.y1 <= t.1 && t.1 <= r.y2
}

#[test]
fn centered_square() {
    let r = Rect::centered((10, -3), 2);
    assert_eq!(r, Rect { x1: 8, y1: -5, x2: 12, y2: -1 });
}

#[test]
fn disjoint_difference_is_the_whole_source() {
    let src = Rect::centered((0, 0), 1);
    let other = Rect::centered((10, 10), 1);
    assert_eq!(rect_diff_bands(src, other), vec![src]);
    assert_eq!(for_each_rect_diff(src, other), tiles_of(src));
}

#[test]
fn overlapping_difference_visits_each_tile_once() {
    let src = Rect::centered((5, 5), 2);
    let other = Rect::centered((6, 6), 2);
    let tiles = for_each_rect_diff(src, other);
    let expected: Vec<(i32, i32)> =
        tiles_of(src).into_iter().filter(|t| !contains(&other, *t)).collect();
    assert_eq!(tiles.len(), expected.len());
    assert_eq!(tiles.len(), 9);
    for t in &expected {
        assert_eq!(tiles.iter().filter(|u| *u == t).count(), 1);
    }
    let bands = rect_diff_bands(src, other);
    assert!(bands.len() <= 4);
}

#[test]
fn contained_source_has_empty_difference() {
    let src = Rect::centered((5, 5), 1);
    let other = Rect::centered((5, 5), 3);
    assert!(for_each_rect_diff(src, other).is_empty());
}

#[test]
fn ring_difference() {
    let src = Rect::centered((5, 5), 2);
    let other = Rect::centered((5, 5), 1);
    let tiles = for_each_rect_diff(src, other);
    assert_eq!(tiles.len(), 16);
    assert!(!tiles.contains(&(5, 5)));
    assert!(tiles.contains(&(3, 3)) && tiles.contains(&(7, 5)));
}
