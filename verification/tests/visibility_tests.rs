use roguelike::components::{Player, Position, Viewshed};
use roguelike::grid::TileType;
use roguelike::map::DungeonMap;
use roguelike::store::EntityStore;
use roguelike::visibility::{can_see, compute_viewshed, line_of_sight, refresh, update_viewshed, VisibilitySystem};

fn floor(width: i32, height: i32) -> DungeonMap {
    DungeonMap::new(width, height, TileType::Floor).unwrap()
}

fn walled_room() -> DungeonMap {
    let mut map = floor(80, 50);
    map.stamp_border();
    map.fill_box(10, 20, 10, 15, TileType::Wall);
    map.fill_box(11, 19, 11, 14, TileType::Floor);
    map
}

fn at(x: i32, y: i32) -> Position {
    Position { x, y }
}

#[test]
fn room_scenario_sees_the_row_and_nothing_outside() {
    let map = walled_room();
    let mut store = EntityStore::new();
    let e = store.create_entity();
    store.attach_position(e, at(15, 12)).unwrap();
    store.attach_viewshed(e, Viewshed { visible_tiles: Vec::new(), range: 8, dirty: true }).unwrap();
    VisibilitySystem {}.run(&map, &mut store);
    let viewshed = store.viewsheds.get(e).unwrap();
    assert!(!viewshed.dirty);
    assert_eq!(viewshed.range, 8);
    for x in 10..=20 {
        assert!(viewshed.sees(x, 12), "({}, 12) is seen", x);
    }
    for (x, y) in &viewshed.visible_tiles {
        assert!((10..=20).contains(x) && (10..=15).contains(y), "({}, {}) lies in the room", x, y);
    }
    for y in 11..=14 {
        for x in 11..=19 {
            assert!(viewshed.sees(x, y));
        }
    }
    assert!(!viewshed.sees(9, 12));
    assert!(!viewshed.sees(21, 12));
    assert!(!viewshed.sees(15, 9));
    assert!(!viewshed.sees(15, 16));
}

#[test]
fn visible_cells_are_within_range() {
    let map = floor(80, 50);
    for range in [0, 1, 3, 8] {
        let seen = compute_viewshed(&map, at(40, 25), range);
        assert_eq!(seen.len() as i32, (2 * range + 1) * (2 * range + 1));
        for (x, y) in &seen {
            assert!((x - 40).abs() <= range && (y - 25).abs() <= range);
        }
    }
}

#[test]
fn open_floor_is_seen_row_by_row() {
    let map = floor(80, 50);
    let seen = compute_viewshed(&map, at(5, 5), 1);
    assert_eq!(
        seen,
        vec![(4, 4), (5, 4), (6, 4), (4, 5), (5, 5), (6, 5), (4, 6), (5, 6), (6, 6)]
    );
}

#[test]
fn cells_are_listed_row_by_row_and_once() {
    let map = walled_room();
    let seen = compute_viewshed(&map, at(15, 12), 8);
    for pair in seen.windows(2) {
        let (first, second) = (pair[0], pair[1]);
        assert!(first.1 < second.1 || (first.1 == second.1 && first.0 < second.0));
    }
}

#[test]
fn view_is_cut_at_the_edge_of_the_grid() {
    let map = floor(80, 50);
    assert_eq!(compute_viewshed(&map, at(0, 0), 1), vec![(0, 0), (1, 0), (0, 1), (1, 1)]);
    assert_eq!(compute_viewshed(&map, at(79, 49), 1), vec![(78, 48), (79, 48), (78, 49), (79, 49)]);
    let small = floor(3, 2);
    assert_eq!(compute_viewshed(&small, at(1, 1), i32::MAX).len(), 6);
}

#[test]
fn negative_range_sees_nothing() {
    let map = floor(80, 50);
    assert!(compute_viewshed(&map, at(40, 25), -1).is_empty());
    assert!(compute_viewshed(&map, at(40, 25), i32::MIN).is_empty());
    assert_eq!(compute_viewshed(&map, at(40, 25), 0), vec![(40, 25)]);
}

#[test]
fn viewer_off_the_grid_sees_nothing() {
    let map = floor(80, 50);
    assert!(compute_viewshed(&map, at(-1, 5), 8).is_empty());
    assert!(compute_viewshed(&map, at(80, 5), 8).is_empty());
    assert!(compute_viewshed(&map, at(5, 50), 8).is_empty());
    assert!(compute_viewshed(&map, at(i32::MIN, i32::MAX), 8).is_empty());
    let mut store = EntityStore::new();
    let e = store.create_entity();
    store.attach_position(e, at(200, 200)).unwrap();
    store.attach_viewshed(e, Viewshed { visible_tiles: vec![(1, 1)], range: 8, dirty: true }).unwrap();
    VisibilitySystem {}.run(&map, &mut store);
    let viewshed = store.viewsheds.get(e).unwrap();
    assert!(viewshed.visible_tiles.is_empty());
    assert!(!viewshed.dirty);
}

#[test]
fn wall_is_seen_and_hides_what_lies_behind() {
    let mut map = floor(80, 50);
    map.set_tile(12, 10, TileType::Wall);
    let from = at(10, 10);
    assert!(can_see(&map, from, 5, at(11, 10)));
    assert!(can_see(&map, from, 5, at(12, 10)));
    assert!(!can_see(&map, from, 5, at(13, 10)));
    assert!(!can_see(&map, from, 5, at(14, 10)));
    assert!(!can_see(&map, from, 5, at(15, 10)));
    assert!(can_see(&map, from, 5, at(13, 12)));
    assert!(can_see(&map, from, 5, at(8, 10)));
    let seen = compute_viewshed(&map, from, 5);
    assert!(seen.contains(&(12, 10)));
    assert!(!seen.contains(&(13, 10)));
    assert!(!seen.contains(&(15, 10)));
}

#[test]
fn sight_line_rounds_to_the_nearest_cell() {
    let from = at(0, 0);
    let to = at(5, 2);
    let open = floor(10, 10);
    assert!(line_of_sight(&open, from, to));
    for (x, y) in [(1, 0), (2, 1), (3, 1), (4, 2)] {
        let mut map = floor(10, 10);
        map.set_tile(x, y, TileType::Wall);
        assert!(!line_of_sight(&map, from, to), "a wall at ({}, {}) is in the way", x, y);
    }
    for (x, y) in [(1, 1), (2, 0), (3, 2), (4, 1), (2, 2), (3, 0)] {
        let mut map = floor(10, 10);
        map.set_tile(x, y, TileType::Wall);
        assert!(line_of_sight(&map, from, to), "a wall at ({}, {}) is not in the way", x, y);
    }
    let mut ends = floor(10, 10);
    ends.set_tile(0, 0, TileType::Wall);
    ends.set_tile(5, 2, TileType::Wall);
    assert!(line_of_sight(&ends, from, to));
}

#[test]
fn sight_line_runs_in_every_direction() {
    let mut map = floor(21, 21);
    map.set_tile(8, 10, TileType::Wall);
    map.set_tile(10, 8, TileType::Wall);
    map.set_tile(12, 12, TileType::Wall);
    map.set_tile(8, 12, TileType::Wall);
    let from = at(10, 10);
    assert!(!line_of_sight(&map, from, at(6, 10)));
    assert!(!line_of_sight(&map, from, at(10, 6)));
    assert!(!line_of_sight(&map, from, at(14, 14)));
    assert!(!line_of_sight(&map, from, at(6, 14)));
    assert!(line_of_sight(&map, from, at(14, 10)));
    assert!(line_of_sight(&map, from, at(10, 14)));
    assert!(line_of_sight(&map, from, at(6, 6)));
    assert!(line_of_sight(&map, from, at(14, 6)));
    assert!(line_of_sight(&map, from, from));
    assert!(line_of_sight(&map, from, at(8, 10)));
}

#[test]
fn can_see_checks_grid_and_range() {
    let map = floor(80, 50);
    let from = at(10, 10);
    assert!(can_see(&map, from, 0, from));
    assert!(can_see(&map, from, 3, at(13, 13)));
    assert!(can_see(&map, from, 3, at(7, 10)));
    assert!(!can_see(&map, from, 3, at(14, 10)));
    assert!(!can_see(&map, from, 3, at(10, 6)));
    assert!(!can_see(&map, from, -1, from));
    assert!(!can_see(&map, at(0, 0), 3, at(-1, 0)));
    assert!(!can_see(&map, at(-1, 0), 3, at(0, 0)));
    assert!(!can_see(&map, at(79, 49), 3, at(80, 49)));
    assert!(can_see(&map, at(0, 0), i32::MAX, at(79, 49)));
}

#[test]
fn system_updates_every_dirty_viewshed() {
    let map = walled_room();
    let mut store = EntityStore::new();
    let hero = store.create_entity();
    store.attach_position(hero, at(15, 12)).unwrap();
    store.attach_player(hero, Player {}).unwrap();
    store.attach_viewshed(hero, Viewshed::new(8)).unwrap();
    let monster = store.create_entity();
    store.attach_position(monster, at(40, 30)).unwrap();
    store.attach_viewshed(monster, Viewshed::new(2)).unwrap();
    VisibilitySystem {}.run(&map, &mut store);
    let seen_by_hero = store.viewsheds.get(hero).unwrap();
    assert!(!seen_by_hero.dirty);
    assert_eq!(seen_by_hero.visible_tiles, compute_viewshed(&map, at(15, 12), 8));
    let seen_by_monster = store.viewsheds.get(monster).unwrap();
    assert!(!seen_by_monster.dirty);
    assert_eq!(seen_by_monster.range, 2);
    assert_eq!(seen_by_monster.visible_tiles.len(), 25);
    assert_eq!(store.positions.get(hero), Some(&at(15, 12)));
    assert_eq!(store.positions.get(monster), Some(&at(40, 30)));
}

#[test]
fn system_leaves_clean_viewsheds_alone() {
    let map = floor(80, 50);
    let mut store = EntityStore::new();
    let e = store.create_entity();
    store.attach_position(e, at(15, 12)).unwrap();
    store.attach_viewshed(e, Viewshed { visible_tiles: vec![(70, 40)], range: 3, dirty: false }).unwrap();
    VisibilitySystem {}.run(&map, &mut store);
    let viewshed = store.viewsheds.get(e).unwrap();
    assert_eq!(viewshed.visible_tiles, vec![(70, 40)]);
    assert!(!viewshed.dirty);
    assert!(!update_viewshed(e, &map, &mut store));
}

#[test]
fn system_replaces_stale_cells() {
    let map = floor(80, 50);
    let mut store = EntityStore::new();
    let e = store.create_entity();
    store.attach_position(e, at(15, 12)).unwrap();
    store.attach_viewshed(e, Viewshed { visible_tiles: vec![(70, 40)], range: 1, dirty: true }).unwrap();
    assert!(update_viewshed(e, &map, &mut store));
    let viewshed = store.viewsheds.get(e).unwrap();
    assert_eq!(viewshed.visible_tiles.len(), 9);
    assert!(!viewshed.sees(70, 40));
    assert!(viewshed.sees(14, 11));
    assert!(!viewshed.dirty);
}

#[test]
fn viewshed_without_position_stays_dirty() {
    let map = floor(80, 50);
    let mut store = EntityStore::new();
    let e = store.create_entity();
    store.attach_viewshed(e, Viewshed { visible_tiles: vec![(1, 1)], range: 3, dirty: true }).unwrap();
    VisibilitySystem {}.run(&map, &mut store);
    let viewshed = store.viewsheds.get(e).unwrap();
    assert!(viewshed.dirty);
    assert_eq!(viewshed.visible_tiles, vec![(1, 1)]);
    assert!(!update_viewshed(e, &map, &mut store));
}

#[test]
fn refresh_computes_only_when_dirty() {
    let map = floor(80, 50);
    let mut dirty = Viewshed { visible_tiles: vec![(70, 40)], range: 0, dirty: true };
    refresh(&map, at(3, 3), &mut dirty);
    assert_eq!(dirty.visible_tiles, vec![(3, 3)]);
    assert_eq!(dirty.range, 0);
    assert!(!dirty.dirty);
    let mut fresh = Viewshed { visible_tiles: vec![(70, 40)], range: 0, dirty: false };
    refresh(&map, at(3, 3), &mut fresh);
    assert_eq!(fresh.visible_tiles, vec![(70, 40)]);
    assert!(!fresh.dirty);
}
