use bsp_dungeon::bsp::{bsp_split, carve_room, Room, SplitAxis};
use bsp_dungeon::cells::CellSet;
use bsp_dungeon::dungeon::generate;
use bsp_dungeon::floor::{build_floor, carve_floor, corridor_cells};
use bsp_dungeon::geometry::{Position, Rect};
use bsp_dungeon::walls::derive_walls;
use rand::rngs::StdRng;
use rand::SeedableRng;
use std::collections::{HashSet, VecDeque};

fn rect(x: i32, y: i32, width: i32, height: i32) -> Rect {
    Rect { x, y, width, height }
}

fn pos(x: i32, y: i32) -> Position {
    Position { x, y }
}

fn inside(inner: &Rect, outer: &Rect) -> bool {
    inner.x >= outer.x
        && inner.y >= outer.y
        && inner.x + inner.width <= outer.x + outer.width
        && inner.y + inner.height <= outer.y + outer.height
}

fn overlap(a: &Rect, b: &Rect) -> bool {
    a.x < b.x + b.width && b.x < a.x + a.width && a.y < b.y + b.height && b.y < a.y + a.height
}

fn cell_set(cells: &CellSet) -> HashSet<Position> {
    cells.cells().iter().copied().collect()
}

#[test]
fn same_seed_gives_same_rooms() {
    let root = rect(0, 0, 64, 64);
    let first = bsp_split(root, 5, &mut StdRng::seed_from_u64(7));
    let second = bsp_split(root, 5, &mut StdRng::seed_from_u64(7));
    assert_eq!(first, second);
    let d1 = generate(root, 5, &mut StdRng::seed_from_u64(99));
    let d2 = generate(root, 5, &mut StdRng::seed_from_u64(99));
    assert_eq!(d1.rooms, d2.rooms);
    assert_eq!(d1.floor.cells(), d2.floor.cells());
    assert_eq!(d1.walls.cells(), d2.walls.cells());
}

#[test]
fn golden_seed_split() {
    let rooms = bsp_split(rect(0, 0, 24, 24), 5, &mut StdRng::seed_from_u64(42));
    assert_eq!(rooms.len(), 6);
    assert_eq!(rooms[0].bounds, rect(0, 0, 12, 6));
    assert_eq!(rooms[0].inner, rect(1, 1, 10, 4));
}

#[test]
fn rooms_sit_inside_their_leaves() {
    for seed in 0..20u64 {
        let rooms = bsp_split(rect(0, 0, 64, 64), 5, &mut StdRng::seed_from_u64(seed));
        for (i, room) in rooms.iter().enumerate() {
            assert_eq!(room.id, i);
            assert!(inside(&room.inner, &room.bounds));
            assert!(room.inner.width > 0 && room.inner.height > 0);
        }
    }
}

#[test]
fn leaves_tile_the_root() {
    for seed in 0..20u64 {
        let root = rect(3, -5, 61, 40);
        let rooms = bsp_split(root, 6, &mut StdRng::seed_from_u64(seed));
        let area: i64 = rooms.iter().map(|r| r.bounds.width as i64 * r.bounds.height as i64).sum();
        assert_eq!(area, 61 * 40);
        for a in 0..rooms.len() {
            assert!(inside(&rooms[a].bounds, &root));
            for b in a + 1..rooms.len() {
                assert!(!overlap(&rooms[a].bounds, &rooms[b].bounds));
            }
        }
    }
}

#[test]
fn leaves_keep_the_minimum_size() {
    for seed in 0..20u64 {
        let rooms = bsp_split(rect(0, 0, 64, 64), 5, &mut StdRng::seed_from_u64(seed));
        assert!(rooms.len() > 1);
        assert!(rooms.len() <= 32);
        for room in &rooms {
            assert!(room.bounds.width >= 6 && room.bounds.height >= 6);
        }
    }
}

#[test]
fn depth_zero_gives_one_room() {
    let rooms = bsp_split(rect(0, 0, 64, 64), 0, &mut StdRng::seed_from_u64(1));
    assert_eq!(
        rooms,
        vec![Room { id: 0, bounds: rect(0, 0, 64, 64), inner: rect(1, 1, 62, 62) }]
    );
}

#[test]
fn small_root_is_never_split() {
    let rooms = bsp_split(rect(0, 0, 12, 12), 5, &mut StdRng::seed_from_u64(3));
    assert_eq!(rooms.len(), 1);
    assert_eq!(rooms[0].bounds, rect(0, 0, 12, 12));
    assert_eq!(rooms[0].inner, rect(1, 1, 10, 10));
}

#[test]
fn subdivide_refuses_ten_by_ten() {
    let mut rng = StdRng::seed_from_u64(5);
    assert_eq!(rect(0, 0, 10, 10).subdivide(&mut rng), None);
    assert_eq!(rect(0, 0, 12, 12).subdivide(&mut rng), None);
}

#[test]
fn subdivide_cuts_the_only_eligible_axis() {
    let mut widths = HashSet::new();
    for seed in 0..30u64 {
        let mut rng = StdRng::seed_from_u64(seed);
        let (a, b) = rect(2, 3, 24, 10).subdivide(&mut rng).unwrap();
        assert_eq!((a.x, a.y, a.height), (2, 3, 10));
        assert_eq!((b.y, b.height), (3, 10));
        assert_eq!(b.x, 2 + a.width);
        assert_eq!(a.width + b.width, 24);
        assert!(a.width >= 6 && a.width < 18);
        widths.insert(a.width);
        let (c, d) = rect(0, 0, 12, 30).subdivide(&mut rng).unwrap();
        assert_eq!((c.x, c.width, d.x, d.width), (0, 12, 0, 12));
        assert_eq!(d.y, c.height);
        assert!(c.height >= 6 && c.height < 24);
    }
    assert!(widths.len() > 3);
}

#[test]
fn subdivide_uses_both_axes_when_both_are_eligible() {
    let mut horizontal = false;
    let mut vertical = false;
    for seed in 0..40u64 {
        let mut rng = StdRng::seed_from_u64(seed);
        let (a, b) = rect(0, 0, 30, 30).subdivide(&mut rng).unwrap();
        if a.width == 30 {
            horizontal = true;
            assert_eq!(a.height + b.height, 30);
        } else {
            vertical = true;
            assert_eq!((a.height, b.height), (30, 30));
            assert_eq!(a.width + b.width, 30);
        }
    }
    assert!(horizontal && vertical);
}

#[test]
fn split_at_cuts_exactly() {
    let r = rect(4, 5, 20, 16);
    assert_eq!(r.split_at(SplitAxis::Horizontal, 7), (rect(4, 5, 20, 7), rect(4, 12, 20, 9)));
    assert_eq!(r.split_at(SplitAxis::Vertical, 6), (rect(4, 5, 6, 16), rect(10, 5, 14, 16)));
}

#[test]
fn center_truncates() {
    assert_eq!(rect(0, 0, 24, 24).center(), (12, 12));
    assert_eq!(rect(1, 1, 5, 4).center(), (3, 3));
    assert_eq!(rect(-3, -4, 1, 1).center(), (-3, -4));
}

#[test]
fn carving_keeps_one_cell_margin() {
    assert_eq!(carve_room(2, rect(0, 0, 10, 8)).inner, rect(1, 1, 8, 6));
    assert_eq!(carve_room(0, rect(5, 5, 2, 9)).inner, rect(5, 6, 2, 7));
    assert_eq!(carve_room(0, rect(5, 5, 3, 1)).inner, rect(6, 5, 1, 1));
}

#[test]
fn horizontal_first_corridor() {
    let cells = corridor_cells(pos(2, 2), pos(8, 5), true);
    let mut expected: Vec<Position> = (2..=8).map(|x| pos(x, 2)).collect();
    expected.extend((2..=5).map(|y| pos(8, y)));
    assert_eq!(cells, expected);
}

#[test]
fn vertical_first_corridor() {
    let cells = corridor_cells(pos(8, 5), pos(2, 2), false);
    let mut expected: Vec<Position> = (2..=5).map(|y| pos(8, y)).collect();
    expected.extend((2..=8).map(|x| pos(x, 2)));
    assert_eq!(cells, expected);
}

#[test]
fn corridor_between_equal_points() {
    assert_eq!(corridor_cells(pos(3, 3), pos(3, 3), true), vec![pos(3, 3), pos(3, 3)]);
}

fn two_rooms() -> Vec<Room> {
    vec![
        carve_room(0, rect(0, 0, 5, 5)),
        carve_room(1, rect(10, 0, 5, 7)),
    ]
}

#[test]
fn floor_joins_rooms_with_chosen_leg_order() {
    let rooms = two_rooms();
    let floor = cell_set(&build_floor(&rooms, &vec![true]));
    assert_eq!(floor.len(), 9 + 15 + 7);
    assert!(floor.contains(&pos(7, 2)));
    assert!(floor.contains(&pos(12, 3)));
    let other = cell_set(&build_floor(&rooms, &vec![false]));
    assert!(other.contains(&pos(7, 3)));
    assert!(!other.contains(&pos(7, 2)));
}

#[test]
fn floor_without_corridors() {
    let rooms = vec![carve_room(0, rect(0, 0, 4, 4))];
    let floor = build_floor(&rooms, &vec![]);
    assert_eq!(floor.len(), 4);
    let empty = build_floor(&vec![], &vec![]);
    assert_eq!(empty.len(), 0);
}

#[test]
fn walls_ring_a_single_cell() {
    let mut floor = CellSet::new();
    floor.insert(pos(0, 0));
    let walls = cell_set(&derive_walls(&floor));
    assert_eq!(walls.len(), 8);
    assert!(!walls.contains(&pos(0, 0)));
    assert!(walls.contains(&pos(-1, -1)));
    assert!(walls.contains(&pos(1, 0)));
}

#[test]
fn walls_are_not_repeated() {
    let mut floor = CellSet::new();
    floor.insert(pos(0, 0));
    floor.insert(pos(1, 0));
    let walls = derive_walls(&floor);
    assert_eq!(walls.len(), 10);
    assert_eq!(walls.cells().len(), 10);
}

#[test]
fn cell_set_ignores_repeats() {
    let mut s = CellSet::new();
    s.insert(pos(1, 2));
    s.insert(pos(-1, 2));
    s.insert(pos(1, 2));
    s.insert(pos(i32::MIN, i32::MAX));
    assert_eq!(s.len(), 3);
    assert!(s.contains(pos(1, 2)));
    assert!(s.contains(pos(i32::MIN, i32::MAX)));
    assert!(!s.contains(pos(2, 1)));
    assert!(!s.contains(pos(i32::MAX, i32::MIN)));
    assert_eq!(s.cells(), &vec![pos(1, 2), pos(-1, 2), pos(i32::MIN, i32::MAX)]);
}

#[test]
fn floor_and_walls_are_disjoint() {
    for seed in 0..10u64 {
        let d = generate(rect(0, 0, 64, 64), 5, &mut StdRng::seed_from_u64(seed));
        let floor = cell_set(&d.floor);
        for w in d.walls.cells() {
            assert!(!floor.contains(w));
        }
    }
}

#[test]
fn every_wall_touches_the_floor() {
    for seed in 0..10u64 {
        let d = generate(rect(0, 0, 24, 24), 5, &mut StdRng::seed_from_u64(seed));
        let floor = cell_set(&d.floor);
        for w in d.walls.cells() {
            let mut touches = false;
            for dy in -1..=1 {
                for dx in -1..=1 {
                    if (dx, dy) != (0, 0) && floor.contains(&pos(w.x + dx, w.y + dy)) {
                        touches = true;
                    }
                }
            }
            assert!(touches);
        }
    }
}

#[test]
fn every_room_is_reachable() {
    for seed in 0..10u64 {
        let d = generate(rect(0, 0, 64, 64), 5, &mut StdRng::seed_from_u64(seed));
        let floor = cell_set(&d.floor);
        let (sx, sy) = d.rooms[0].inner.center();
        let mut seen: HashSet<Position> = HashSet::new();
        let mut queue = VecDeque::new();
        seen.insert(pos(sx, sy));
        queue.push_back(pos(sx, sy));
        while let Some(p) = queue.pop_front() {
            for (dx, dy) in [(0, 1), (0, -1), (1, 0), (-1, 0)] {
                let n = pos(p.x + dx, p.y + dy);
                if floor.contains(&n) && seen.insert(n) {
                    queue.push_back(n);
                }
            }
        }
        for room in &d.rooms {
            let (x, y) = room.inner.center();
            assert!(seen.contains(&pos(x, y)));
        }
    }
}

#[test]
fn floor_covers_rooms_and_stays_in_root() {
    let root = rect(0, 0, 64, 64);
    let d = generate(root, 5, &mut StdRng::seed_from_u64(11));
    let floor = cell_set(&d.floor);
    for room in &d.rooms {
        for y in room.inner.y..room.inner.y + room.inner.height {
            for x in room.inner.x..room.inner.x + room.inner.width {
                assert!(floor.contains(&pos(x, y)));
            }
        }
    }
    for p in &floor {
        assert!(p.x >= 0 && p.x < 64 && p.y >= 0 && p.y < 64);
    }
}

#[test]
fn carve_floor_draws_a_corridor_per_pair() {
    let rooms = two_rooms();
    let floor = cell_set(&carve_floor(&rooms, &mut StdRng::seed_from_u64(2)));
    let across = cell_set(&build_floor(&rooms, &vec![true]));
    let down_first = cell_set(&build_floor(&rooms, &vec![false]));
    assert!(floor == across || floor == down_first);
    assert_ne!(across, down_first);
}

#[test]
fn generation_at_the_edge_of_the_grid() {
    let root = rect(i32::MAX - 40, i32::MIN + 1, 40, 40);
    let d = generate(root, 4, &mut StdRng::seed_from_u64(4));
    assert!(!d.rooms.is_empty());
    for w in d.walls.cells() {
        assert!(w.x >= root.x - 1 && w.y >= root.y - 1);
    }
    let area: i64 = d.rooms.iter().map(|r| r.bounds.width as i64 * r.bounds.height as i64).sum();
    assert_eq!(area, 1600);
}

#[test]
fn thin_root_keeps_positive_interiors() {
    let rooms = bsp_split(rect(0, 0, 40, 2), 3, &mut StdRng::seed_from_u64(8));
    assert!(rooms.len() > 1);
    for room in &rooms {
        assert_eq!(room.bounds.height, 2);
        assert_eq!((room.inner.y, room.inner.height), (0, 2));
        assert!(room.inner.width > 0);
    }
}
