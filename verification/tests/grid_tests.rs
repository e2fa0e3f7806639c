use roguelike::grid::{xy_idx, TileType, SCREEN_HEIGHT, SCREEN_WIDTH};
use roguelike::rect::{midpoint, Rect};

#[test]
fn xy_idx_is_row_major() {
    assert_eq!(xy_idx(0, 0), 0);
    assert_eq!(xy_idx(79, 0), 79);
    assert_eq!(xy_idx(0, 1), 80);
    assert_eq!(xy_idx(40, 25), 2040);
    assert_eq!(xy_idx(79, 49), 3999);
}

#[test]
fn xy_idx_is_unique_and_in_range() {
    let cells = (SCREEN_WIDTH * SCREEN_HEIGHT) as usize;
    let mut seen = vec![false; cells];
    for y in 0..SCREEN_HEIGHT {
        for x in 0..SCREEN_WIDTH {
            let idx = xy_idx(x, y);
            assert!(idx < cells);
            assert!(!seen[idx]);
            seen[idx] = true;
        }
    }
    assert!(seen.iter().all(|hit| *hit));
}

#[test]
fn xy_idx_round_trips() {
    for y in 0..SCREEN_HEIGHT {
        for x in 0..SCREEN_WIDTH {
            let idx = xy_idx(x, y) as i32;
            assert_eq!(idx % SCREEN_WIDTH, x);
            assert_eq!(idx / SCREEN_WIDTH, y);
        }
    }
}

#[test]
fn tile_types_compare_by_kind() {
    assert_eq!(TileType::Wall, TileType::Wall);
    assert_ne!(TileType::Wall, TileType::Floor);
}

#[test]
fn rect_new_places_far_corner() {
    let rect = Rect::new(10, 10, 10, 5).unwrap();
    assert_eq!(rect, Rect { x1: 10, y1: 10, x2: 20, y2: 15 });
}

#[test]
fn rect_new_rejects_empty_extent() {
    assert_eq!(Rect::new(0, 0, 0, 5), None);
    assert_eq!(Rect::new(0, 0, 5, 0), None);
    assert_eq!(Rect::new(0, 0, -3, 5), None);
    assert_eq!(Rect::new(0, 0, 5, -1), None);
}

#[test]
fn rect_new_rejects_corner_past_i32() {
    assert_eq!(Rect::new(i32::MAX, 0, 1, 1), None);
    assert_eq!(Rect::new(0, i32::MAX - 1, 1, 2), None);
    assert_eq!(
        Rect::new(i32::MAX - 1, 0, 1, 1),
        Some(Rect { x1: i32::MAX - 1, y1: 0, x2: i32::MAX, y2: 1 })
    );
}

#[test]
fn rect_center_is_mean_of_corners() {
    assert_eq!(Rect { x1: 10, y1: 10, x2: 20, y2: 15 }.center(), (15, 12));
    assert_eq!(Rect { x1: 0, y1: 0, x2: 5, y2: 3 }.center(), (2, 1));
    assert_eq!(Rect { x1: 3, y1: 4, x2: 4, y2: 5 }.center(), (3, 4));
}

#[test]
fn midpoint_rounds_down() {
    assert_eq!(midpoint(0, 1), 0);
    assert_eq!(midpoint(-1, 0), -1);
    assert_eq!(midpoint(-3, 0), -2);
    assert_eq!(midpoint(-4, -2), -3);
    assert_eq!(midpoint(7, 7), 7);
    assert_eq!(midpoint(i32::MAX, i32::MAX), i32::MAX);
    assert_eq!(midpoint(i32::MIN, i32::MIN), i32::MIN);
    assert_eq!(midpoint(i32::MIN, i32::MAX), -1);
}

#[test]
fn rects_that_overlap_intersect() {
    let a = Rect { x1: 0, y1: 0, x2: 5, y2: 5 };
    let b = Rect { x1: 3, y1: 3, x2: 8, y2: 8 };
    assert!(a.intersect(&b));
    assert!(b.intersect(&a));
    assert!(a.intersect(&a));
}

#[test]
fn rects_that_touch_intersect() {
    let a = Rect { x1: 0, y1: 0, x2: 5, y2: 5 };
    let beside = Rect { x1: 5, y1: 0, x2: 10, y2: 5 };
    let corner = Rect { x1: 5, y1: 5, x2: 9, y2: 9 };
    assert!(a.intersect(&beside));
    assert!(beside.intersect(&a));
    assert!(a.intersect(&corner));
}

#[test]
fn rects_apart_do_not_intersect() {
    let a = Rect { x1: 0, y1: 0, x2: 5, y2: 5 };
    let right = Rect { x1: 6, y1: 0, x2: 10, y2: 5 };
    let below = Rect { x1: 0, y1: 6, x2: 5, y2: 10 };
    assert!(!a.intersect(&right));
    assert!(!right.intersect(&a));
    assert!(!a.intersect(&below));
    assert!(!below.intersect(&a));
}
