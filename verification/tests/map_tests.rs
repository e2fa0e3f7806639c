use rltk::RandomNumberGenerator;
use roguelike::grid::{TileType, SCREEN_HEIGHT, SCREEN_WIDTH};
use roguelike::map::{
    new_map, random_room, room_from_rolls, DungeonMap, MAX_ROOMS, MAX_SIZE, MIN_SIZE,
};
use roguelike::rect::Rect;

fn walls() -> DungeonMap {
    DungeonMap::new(80, 50, TileType::Wall).unwrap()
}

fn count(map: &DungeonMap, tile: TileType) -> usize {
    map.tiles.iter().filter(|t| **t == tile).count()
}

fn on_border(map: &DungeonMap, x: i32, y: i32) -> bool {
    x == 0 || y == 0 || x == map.width - 1 || y == map.height - 1
}

#[test]
fn new_grid_is_filled() {
    let map = DungeonMap::new(80, 50, TileType::Floor).unwrap();
    assert_eq!(map.width, 80);
    assert_eq!(map.height, 50);
    assert_eq!(map.tiles.len(), 4000);
    assert!(map.rooms.is_empty());
    assert_eq!(count(&map, TileType::Floor), 4000);
    let small = DungeonMap::new(1, 1, TileType::Wall).unwrap();
    assert_eq!(small.tiles, vec![TileType::Wall]);
}

#[test]
fn new_grid_rejects_bad_dimensions() {
    assert!(DungeonMap::new(0, 50, TileType::Floor).is_none());
    assert!(DungeonMap::new(80, 0, TileType::Floor).is_none());
    assert!(DungeonMap::new(-1, 50, TileType::Floor).is_none());
    assert!(DungeonMap::new(80, -7, TileType::Floor).is_none());
    assert!(DungeonMap::new(65536, 32768, TileType::Floor).is_none());
    assert!(DungeonMap::new(i32::MAX, 2, TileType::Floor).is_none());
}

#[test]
fn map_index_is_row_major_in_its_own_width() {
    let map = DungeonMap::new(7, 3, TileType::Floor).unwrap();
    assert_eq!(map.xy_idx(0, 0), 0);
    assert_eq!(map.xy_idx(6, 0), 6);
    assert_eq!(map.xy_idx(0, 1), 7);
    assert_eq!(map.xy_idx(6, 2), 20);
}

#[test]
fn bounds_are_checked() {
    let map = DungeonMap::new(80, 50, TileType::Floor).unwrap();
    assert!(map.in_bounds(0, 0));
    assert!(map.in_bounds(79, 49));
    assert!(!map.in_bounds(80, 0));
    assert!(!map.in_bounds(0, 50));
    assert!(!map.in_bounds(-1, 0));
    assert!(!map.in_bounds(0, -1));
}

#[test]
fn get_tile_rejects_cells_off_the_grid() {
    let mut map = DungeonMap::new(80, 50, TileType::Floor).unwrap();
    assert!(map.set_tile(3, 4, TileType::Wall));
    assert_eq!(map.get_tile(3, 4), Some(TileType::Wall));
    assert_eq!(map.get_tile(4, 3), Some(TileType::Floor));
    assert_eq!(map.get_tile(-1, 0), None);
    assert_eq!(map.get_tile(80, 0), None);
    assert_eq!(map.get_tile(0, 50), None);
    assert_eq!(map.get_tile(i32::MAX, i32::MIN), None);
}

#[test]
fn set_tile_off_the_grid_changes_nothing() {
    let mut map = DungeonMap::new(80, 50, TileType::Floor).unwrap();
    assert!(!map.set_tile(80, 10, TileType::Wall));
    assert!(!map.set_tile(10, -1, TileType::Wall));
    assert_eq!(count(&map, TileType::Floor), 4000);
    assert!(map.set_tile(79, 49, TileType::Wall));
    assert_eq!(map.tiles[3999], TileType::Wall);
    assert_eq!(count(&map, TileType::Wall), 1);
}

#[test]
fn fill_box_fills_exactly_the_box() {
    let mut map = DungeonMap::new(80, 50, TileType::Floor).unwrap();
    map.fill_box(2, 4, 3, 3, TileType::Wall);
    for y in 0..50 {
        for x in 0..80 {
            let expected = if (2..=4).contains(&x) && y == 3 { TileType::Wall } else { TileType::Floor };
            assert_eq!(map.get_tile(x, y), Some(expected));
        }
    }
    map.fill_box(5, 4, 0, 49, TileType::Wall);
    assert_eq!(count(&map, TileType::Wall), 3);
}

#[test]
fn fill_box_is_cut_at_the_edge_of_the_grid() {
    let mut map = DungeonMap::new(80, 50, TileType::Floor).unwrap();
    map.fill_box(-5, 1, 48, 60, TileType::Wall);
    assert_eq!(count(&map, TileType::Wall), 4);
    for (x, y) in [(0, 48), (1, 48), (0, 49), (1, 49)] {
        assert_eq!(map.get_tile(x, y), Some(TileType::Wall));
    }
    map.fill_box(80, 90, 0, 49, TileType::Wall);
    map.fill_box(0, 79, -9, -1, TileType::Wall);
    assert_eq!(count(&map, TileType::Wall), 4);
    map.fill_box(i32::MIN, i32::MAX, i32::MIN, i32::MAX, TileType::Wall);
    assert_eq!(count(&map, TileType::Wall), 4000);
}

#[test]
fn border_is_stamped() {
    let mut map = DungeonMap::new(80, 50, TileType::Floor).unwrap();
    map.stamp_border();
    for y in 0..50 {
        for x in 0..80 {
            let expected = if on_border(&map, x, y) { TileType::Wall } else { TileType::Floor };
            assert_eq!(map.get_tile(x, y), Some(expected));
        }
    }
    assert_eq!(count(&map, TileType::Wall), 2 * 80 + 2 * 48);
}

#[test]
fn room_opens_its_interior_only() {
    let mut map = walls();
    map.apply_room_to_map(&Rect { x1: 10, y1: 10, x2: 20, y2: 15 });
    for y in 0..50 {
        for x in 0..80 {
            let inside = x > 10 && x < 20 && y > 10 && y < 15;
            let expected = if inside { TileType::Floor } else { TileType::Wall };
            assert_eq!(map.get_tile(x, y), Some(expected));
        }
    }
    assert_eq!(count(&map, TileType::Floor), 9 * 4);
    assert!(map.rooms.is_empty());
}

#[test]
fn room_never_opens_the_outer_ring() {
    let mut map = walls();
    map.apply_room_to_map(&Rect { x1: -5, y1: -5, x2: 3, y2: 3 });
    assert_eq!(count(&map, TileType::Floor), 4);
    assert_eq!(map.get_tile(1, 1), Some(TileType::Floor));
    assert_eq!(map.get_tile(2, 2), Some(TileType::Floor));
    assert_eq!(map.get_tile(0, 1), Some(TileType::Wall));
    assert_eq!(map.get_tile(1, 0), Some(TileType::Wall));
    assert_eq!(map.get_tile(3, 1), Some(TileType::Wall));
    let mut whole = walls();
    whole.apply_room_to_map(&Rect { x1: i32::MIN, y1: i32::MIN, x2: i32::MAX, y2: i32::MAX });
    assert_eq!(count(&whole, TileType::Floor), 78 * 48);
    for y in 0..50 {
        for x in 0..80 {
            if on_border(&whole, x, y) {
                assert_eq!(whole.get_tile(x, y), Some(TileType::Wall));
            }
        }
    }
}

#[test]
fn horizontal_tunnel_opens_a_row_either_way() {
    let mut map = walls();
    map.apply_horizontal_tunnel(20, 10, 5);
    assert_eq!(count(&map, TileType::Floor), 11);
    for x in 10..=20 {
        assert_eq!(map.get_tile(x, 5), Some(TileType::Floor));
    }
    assert_eq!(map.get_tile(9, 5), Some(TileType::Wall));
    assert_eq!(map.get_tile(21, 5), Some(TileType::Wall));
    let mut other = walls();
    other.apply_horizontal_tunnel(10, 20, 5);
    assert_eq!(other.tiles, map.tiles);
}

#[test]
fn vertical_tunnel_opens_a_column_either_way() {
    let mut map = walls();
    map.apply_vertical_tunnel(30, 12, 7);
    assert_eq!(count(&map, TileType::Floor), 19);
    for y in 12..=30 {
        assert_eq!(map.get_tile(7, y), Some(TileType::Floor));
    }
    assert_eq!(map.get_tile(7, 11), Some(TileType::Wall));
    assert_eq!(map.get_tile(7, 31), Some(TileType::Wall));
    let mut other = walls();
    other.apply_vertical_tunnel(12, 30, 7);
    assert_eq!(other.tiles, map.tiles);
}

#[test]
fn tunnels_never_open_the_outer_ring() {
    let mut map = walls();
    map.apply_horizontal_tunnel(-10, 200, 5);
    assert_eq!(count(&map, TileType::Floor), 78);
    assert_eq!(map.get_tile(0, 5), Some(TileType::Wall));
    assert_eq!(map.get_tile(79, 5), Some(TileType::Wall));
    map.apply_horizontal_tunnel(0, 79, 0);
    map.apply_horizontal_tunnel(0, 79, 49);
    map.apply_horizontal_tunnel(0, 79, 50);
    map.apply_vertical_tunnel(0, 49, 0);
    map.apply_vertical_tunnel(0, 49, 79);
    map.apply_vertical_tunnel(0, 49, -1);
    assert_eq!(count(&map, TileType::Floor), 78);
    map.apply_vertical_tunnel(i32::MIN, i32::MAX, 1);
    assert_eq!(count(&map, TileType::Floor), 78 + 47);
    assert_eq!(map.get_tile(1, 0), Some(TileType::Wall));
    assert_eq!(map.get_tile(1, 49), Some(TileType::Wall));
}

#[test]
fn first_room_is_accepted_and_opened() {
    let mut map = walls();
    let room = Rect { x1: 10, y1: 10, x2: 20, y2: 15 };
    assert!(map.try_add_room(room));
    assert_eq!(map.rooms, vec![room]);
    assert_eq!(count(&map, TileType::Floor), 36);
}

#[test]
fn overlapping_room_is_rejected_and_changes_nothing() {
    let mut map = walls();
    let room = Rect { x1: 10, y1: 10, x2: 20, y2: 15 };
    assert!(map.try_add_room(room));
    let tiles = map.tiles.clone();
    assert!(!map.try_add_room(Rect { x1: 15, y1: 12, x2: 25, y2: 20 }));
    assert!(!map.try_add_room(room));
    assert_eq!(map.rooms, vec![room]);
    assert_eq!(map.tiles, tiles);
}

#[test]
fn touching_room_is_rejected() {
    let mut map = walls();
    let room = Rect { x1: 10, y1: 10, x2: 20, y2: 15 };
    assert!(map.try_add_room(room));
    let tiles = map.tiles.clone();
    assert!(!map.try_add_room(Rect { x1: 20, y1: 10, x2: 30, y2: 15 }));
    assert!(!map.try_add_room(Rect { x1: 10, y1: 15, x2: 20, y2: 25 }));
    assert_eq!(map.rooms.len(), 1);
    assert_eq!(map.tiles, tiles);
    assert!(map.try_add_room(Rect { x1: 21, y1: 10, x2: 30, y2: 15 }));
    assert_eq!(map.rooms.len(), 2);
}

#[test]
fn room_that_cannot_be_placed_is_rejected() {
    let mut map = walls();
    assert!(!map.try_add_room(Rect { x1: 70, y1: 10, x2: 80, y2: 15 }));
    assert!(!map.try_add_room(Rect { x1: 10, y1: 40, x2: 20, y2: 50 }));
    assert!(!map.try_add_room(Rect { x1: -1, y1: 10, x2: 20, y2: 15 }));
    assert!(!map.try_add_room(Rect { x1: 10, y1: -1, x2: 20, y2: 15 }));
    assert!(!map.try_add_room(Rect { x1: 10, y1: 10, x2: 11, y2: 15 }));
    assert!(!map.try_add_room(Rect { x1: 10, y1: 10, x2: 20, y2: 11 }));
    assert!(!map.try_add_room(Rect { x1: 20, y1: 10, x2: 10, y2: 15 }));
    assert!(!map.try_add_room(Rect { x1: 0, y1: 0, x2: i32::MIN, y2: i32::MIN }));
    assert!(map.rooms.is_empty());
    assert_eq!(count(&map, TileType::Wall), 4000);
    assert!(map.try_add_room(Rect { x1: 0, y1: 0, x2: 79, y2: 49 }));
    assert_eq!(count(&map, TileType::Floor), 78 * 48);
}

#[test]
fn corridor_runs_along_the_row_then_the_column() {
    let mut map = walls();
    let first = Rect { x1: 10, y1: 10, x2: 20, y2: 15 };
    let second = Rect { x1: 30, y1: 20, x2: 40, y2: 30 };
    assert!(map.try_add_room(first));
    assert!(map.try_add_room(second));
    assert_eq!(map.rooms, vec![first, second]);
    assert_eq!(first.center(), (15, 12));
    assert_eq!(second.center(), (35, 25));
    for y in 0..50 {
        for x in 0..80 {
            let in_first = x > 10 && x < 20 && y > 10 && y < 15;
            let in_second = x > 30 && x < 40 && y > 20 && y < 30;
            let along = y == 12 && (15..=35).contains(&x);
            let down = x == 35 && (12..=25).contains(&y);
            let expected = if in_first || in_second || along || down {
                TileType::Floor
            } else {
                TileType::Wall
            };
            assert_eq!(map.get_tile(x, y), Some(expected), "at ({}, {})", x, y);
        }
    }
    assert_eq!(map.get_tile(15, 20), Some(TileType::Wall));
}

#[test]
fn corridor_runs_leftwards_and_upwards_too() {
    let mut map = walls();
    let first = Rect { x1: 60, y1: 30, x2: 70, y2: 40 };
    let second = Rect { x1: 5, y1: 5, x2: 11, y2: 11 };
    assert!(map.try_add_room(first));
    assert!(map.try_add_room(second));
    for x in 8..=65 {
        assert_eq!(map.get_tile(x, 35), Some(TileType::Floor));
    }
    for y in 8..=35 {
        assert_eq!(map.get_tile(8, y), Some(TileType::Floor));
    }
    assert_eq!(map.get_tile(65, 20), Some(TileType::Wall));
    assert_eq!(map.get_tile(7, 35), Some(TileType::Wall));
}

#[test]
fn place_rooms_keeps_those_that_fit_in_order() {
    let a = Rect { x1: 10, y1: 10, x2: 20, y2: 15 };
    let b = Rect { x1: 15, y1: 12, x2: 25, y2: 20 };
    let c = Rect { x1: 30, y1: 20, x2: 40, y2: 30 };
    let d = Rect { x1: 75, y1: 20, x2: 85, y2: 30 };
    let e = Rect { x1: 40, y1: 30, x2: 50, y2: 40 };
    let f = Rect { x1: 50, y1: 5, x2: 60, y2: 12 };
    let map = DungeonMap::place_rooms(80, 50, &vec![a, b, c, d, e, f, a]).unwrap();
    assert_eq!(map.rooms, vec![a, c, f]);
    assert_eq!(map.width, 80);
    assert_eq!(map.height, 50);
    for y in 0..50 {
        for x in 0..80 {
            let expected = if on_border(&map, x, y) { TileType::Wall } else { TileType::Floor };
            assert_eq!(map.get_tile(x, y), Some(expected));
        }
    }
}

#[test]
fn place_rooms_without_candidates_gives_no_rooms() {
    let map = DungeonMap::place_rooms(80, 50, &Vec::new()).unwrap();
    assert!(map.rooms.is_empty());
    assert_eq!(count(&map, TileType::Wall), 2 * 80 + 2 * 48);
    let none = DungeonMap::place_rooms(80, 50, &vec![Rect { x1: 0, y1: 0, x2: 80, y2: 50 }]).unwrap();
    assert!(none.rooms.is_empty());
}

#[test]
fn place_rooms_rejects_bad_dimensions() {
    assert!(DungeonMap::place_rooms(0, 50, &Vec::new()).is_none());
    assert!(DungeonMap::place_rooms(80, -1, &Vec::new()).is_none());
    assert!(DungeonMap::place_rooms(65536, 65536, &Vec::new()).is_none());
}

#[test]
fn random_rooms_are_drawable() {
    let mut rng = RandomNumberGenerator::seeded(7);
    for _ in 0..500 {
        let room = random_room(&mut rng);
        let w = room.x2 - room.x1;
        let h = room.y2 - room.y1;
        assert!(MIN_SIZE <= w && w <= MAX_SIZE);
        assert!(MIN_SIZE <= h && h <= MAX_SIZE);
        assert!(0 <= room.x1 && room.x2 <= SCREEN_WIDTH - 2);
        assert!(0 <= room.y1 && room.y2 <= SCREEN_HEIGHT - 2);
    }
}

#[test]
fn random_rooms_vary() {
    let mut rng = RandomNumberGenerator::seeded(7);
    let rooms: Vec<Rect> = (0..200).map(|_| random_room(&mut rng)).collect();
    assert!(rooms.iter().any(|r| r.x1 != rooms[0].x1));
    assert!(rooms.iter().any(|r| r.y1 != rooms[0].y1));
    assert!(rooms.iter().any(|r| r.x2 - r.x1 != rooms[0].x2 - rooms[0].x1));
    assert!(rooms.iter().any(|r| r.y2 - r.y1 != rooms[0].y2 - rooms[0].y1));
    assert!(rooms.iter().any(|r| r.x2 - r.x1 == MIN_SIZE));
    assert!(rooms.iter().any(|r| r.x2 - r.x1 == MAX_SIZE));
    assert!(rooms.iter().any(|r| r.x1 == 0));
}

#[test]
fn generation_is_reproducible_for_a_seed() {
    for seed in [0u64, 1, 42, 12345, u64::MAX] {
        let first = new_map(&mut RandomNumberGenerator::seeded(seed));
        let second = new_map(&mut RandomNumberGenerator::seeded(seed));
        assert_eq!(first.rooms, second.rooms);
        assert_eq!(first.tiles, second.tiles);
        assert_eq!(first.width, second.width);
        assert_eq!(first.height, second.height);
    }
}

#[test]
fn generation_depends_on_the_seed() {
    let first = new_map(&mut RandomNumberGenerator::seeded(1));
    let second = new_map(&mut RandomNumberGenerator::seeded(2));
    assert_ne!(first.rooms, second.rooms);
}

#[test]
fn generated_map_has_walled_border() {
    for seed in 0u64..20 {
        let map = new_map(&mut RandomNumberGenerator::seeded(seed));
        assert_eq!(map.width, SCREEN_WIDTH);
        assert_eq!(map.height, SCREEN_HEIGHT);
        assert_eq!(map.tiles.len(), 4000);
        for y in 0..SCREEN_HEIGHT {
            for x in 0..SCREEN_WIDTH {
                let expected = if on_border(&map, x, y) { TileType::Wall } else { TileType::Floor };
                assert_eq!(map.get_tile(x, y), Some(expected));
            }
        }
    }
}

#[test]
fn generated_rooms_do_not_intersect() {
    for seed in 0u64..20 {
        let map = new_map(&mut RandomNumberGenerator::seeded(seed));
        assert!(!map.rooms.is_empty());
        assert!(map.rooms.len() <= MAX_ROOMS);
        for i in 0..map.rooms.len() {
            for j in (i + 1)..map.rooms.len() {
                assert!(!map.rooms[i].intersect(&map.rooms[j]));
                assert!(!map.rooms[j].intersect(&map.rooms[i]));
            }
        }
    }
}

#[test]
fn generated_rooms_are_joined_by_floor() {
    for seed in 0u64..20 {
        let map = new_map(&mut RandomNumberGenerator::seeded(seed));
        for i in 1..map.rooms.len() {
            let (px, py) = map.rooms[i - 1].center();
            let (nx, ny) = map.rooms[i].center();
            for x in px.min(nx)..=px.max(nx) {
                assert_eq!(map.get_tile(x, py), Some(TileType::Floor));
            }
            for y in py.min(ny)..=py.max(ny) {
                assert_eq!(map.get_tile(nx, y), Some(TileType::Floor));
            }
        }
    }
}

#[test]
fn generated_rooms_are_the_candidates_that_fit() {
    let seed = 99u64;
    let map = new_map(&mut RandomNumberGenerator::seeded(seed));
    let mut rng = RandomNumberGenerator::seeded(seed);
    let candidates: Vec<Rect> = (0..MAX_ROOMS).map(|_| random_room(&mut rng)).collect();
    let mut expected: Vec<Rect> = Vec::new();
    for room in &candidates {
        if expected.iter().all(|other| !room.intersect(other)) {
            expected.push(*room);
        }
    }
    assert_eq!(map.rooms, expected);
    assert_eq!(map.rooms[0], candidates[0]);
    let placed = DungeonMap::place_rooms(SCREEN_WIDTH, SCREEN_HEIGHT, &candidates).unwrap();
    assert_eq!(placed.rooms, map.rooms);
    assert_eq!(placed.tiles, map.tiles);
}

#[test]
fn rolls_give_the_room_they_stand_for() {
    assert_eq!(room_from_rolls(1, 1, 1, 1), Some(Rect { x1: 0, y1: 0, x2: 6, y2: 6 }));
    assert_eq!(room_from_rolls(5, 5, 69, 39), Some(Rect { x1: 68, y1: 38, x2: 78, y2: 48 }));
    assert_eq!(room_from_rolls(1, 5, 73, 39), Some(Rect { x1: 72, y1: 38, x2: 78, y2: 48 }));
    assert_eq!(room_from_rolls(3, 2, 11, 21), Some(Rect { x1: 10, y1: 20, x2: 18, y2: 27 }));
}

#[test]
fn rolls_that_no_die_gives_make_no_room() {
    assert_eq!(room_from_rolls(0, 1, 1, 1), None);
    assert_eq!(room_from_rolls(6, 1, 1, 1), None);
    assert_eq!(room_from_rolls(1, 0, 1, 1), None);
    assert_eq!(room_from_rolls(1, 6, 1, 1), None);
    assert_eq!(room_from_rolls(1, 1, 0, 1), None);
    assert_eq!(room_from_rolls(1, 1, 74, 1), None);
    assert_eq!(room_from_rolls(5, 1, 70, 1), None);
    assert_eq!(room_from_rolls(1, 1, 1, 0), None);
    assert_eq!(room_from_rolls(1, 1, 1, 44), None);
    assert_eq!(room_from_rolls(1, 5, 1, 40), None);
    assert_eq!(room_from_rolls(i32::MAX, i32::MIN, i32::MAX, i32::MIN), None);
}

#[test]
fn well_formed_maps_are_told_apart() {
    let mut map = walls();
    assert!(map.is_well_formed());
    assert!(map.try_add_room(Rect { x1: 10, y1: 10, x2: 20, y2: 15 }));
    assert!(map.is_well_formed());
    map.rooms.push(Rect { x1: 70, y1: 10, x2: 90, y2: 15 });
    assert!(!map.is_well_formed());
    map.rooms.pop();
    map.tiles.pop();
    assert!(!map.is_well_formed());
    map.tiles.push(TileType::Wall);
    map.width = 0;
    assert!(!map.is_well_formed());
    map.width = -80;
    map.height = -50;
    assert!(!map.is_well_formed());
}
