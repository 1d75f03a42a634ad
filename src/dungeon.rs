//! The whole generation: rooms, then floor, then walls.

use crate::bsp::{bounds_of, bsp_split, is_bsp_layout, lemma_covered_contains, Room};
use crate::cells::CellSet;
use crate::floor::{carve_floor, floor_of, on_corridor, pair_count};
use crate::geometry::{lemma_mid_inside, Position, Rect};
use crate::paths::{connected, lemma_rooms_connected};
use crate::walls::{derive_walls, has_margin, is_neighbor, walls_of};
use rand::rngs::StdRng;
use vstd::prelude::*;

verus! {

/// A generated dungeon.
pub struct Dungeon {
    /// The rooms, numbered in the order of the partition's leaves.
    pub rooms: Vec<Room>,
    /// Room interiors and corridors.
    pub floor: CellSet,
    /// The cells next to the floor that are not floor.
    pub walls: CellSet,
}

/// The floor of rooms laid out in `root` stays inside `root`.
pub proof fn lemma_floor_inside(root: Rect, depth: nat, rooms: Seq<Room>, flips: Seq<bool>, p: Position)
    requires
        is_bsp_layout(root, depth, rooms),
        flips.len() == pair_count(rooms.len() as int),
        floor_of(rooms, flips).contains(p),
    ensures
        root.contains(p),
{
    let leaves = bounds_of(rooms);
    assert forall|k: int| 0 <= k < rooms.len() implies (#[trigger] rooms[k]).bounds.within(root) by {
        let b = rooms[k].bounds;
        assert(leaves[k] == b);
        lemma_covered_contains(leaves, k, Position { x: b.x, y: b.y });
        lemma_covered_contains(
            leaves,
            k,
            Position { x: (b.end_x() - 1) as i32, y: (b.end_y() - 1) as i32 },
        );
        assert(root.cells().contains(Position { x: b.x, y: b.y }));
        assert(root.cells().contains(
            Position { x: (b.end_x() - 1) as i32, y: (b.end_y() - 1) as i32 },
        ));
    }
    if exists|k: int| 0 <= k < rooms.len() && #[trigger] rooms[k].inner.contains(p) {
        let k = choose|k: int| 0 <= k < rooms.len() && #[trigger] rooms[k].inner.contains(p);
        assert(rooms[k].bounds.within(root));
    } else {
        let k = choose|k: int|
            1 <= k < rooms.len() && #[trigger] on_corridor(
                rooms[k - 1].inner.mid(),
                rooms[k].inner.mid(),
                flips[k - 1],
                p,
            );
        lemma_mid_inside(rooms[k - 1].inner);
        lemma_mid_inside(rooms[k].inner);
        assert(rooms[k - 1].bounds.within(root));
        assert(rooms[k].bounds.within(root));
    }
}

/// Generates a dungeon in `root`: `depth` rounds of splitting, a room in each
/// leaf, consecutive rooms joined by corridors, and the walls around the floor.
pub fn generate(root: Rect, depth: u32, rng: &mut StdRng) -> (d: Dungeon)
    requires
        root.is_valid(),
        root.x > i32::MIN,
        root.y > i32::MIN,
    ensures
        is_bsp_layout(root, depth as nat, d.rooms@),
        d.floor.wf(),
        d.walls.wf(),
        exists|flips: Seq<bool>|
            flips.len() == pair_count(d.rooms@.len() as int) && d.floor@ == #[trigger] floor_of(
                d.rooms@,
                flips,
            ),
        d.walls@ == walls_of(d.floor@),
        forall|p: Position| #[trigger] d.floor@.contains(p) ==> root.contains(p),
        forall|w: Position|
            #[trigger] d.walls@.contains(w) ==> !d.floor@.contains(w) && exists|f: Position|
                d.floor@.contains(f) && #[trigger] is_neighbor(f, w),
        forall|i: int, j: int|
            0 <= i < d.rooms@.len() && 0 <= j < d.rooms@.len() ==> connected(
                d.floor@,
                (#[trigger] d.rooms@[i]).inner.mid(),
                (#[trigger] d.rooms@[j]).inner.mid(),
            ),
{
    let rooms = bsp_split(root, depth, rng);
    let floor = carve_floor(&rooms, rng);
    proof {
        let flips = choose|flips: Seq<bool>|
            flips.len() == pair_count(rooms@.len() as int) && floor@ == #[trigger] floor_of(
                rooms@,
                flips,
            );
        assert forall|p: Position| #[trigger] floor@.contains(p) implies root.contains(p) by {
            lemma_floor_inside(root, depth as nat, rooms@, flips, p);
        }
        assert(has_margin(floor@));
        assert forall|i: int, j: int|
            0 <= i < rooms@.len() && 0 <= j < rooms@.len() implies connected(
            floor@,
            (#[trigger] rooms@[i]).inner.mid(),
            (#[trigger] rooms@[j]).inner.mid(),
        ) by {
            lemma_rooms_connected(rooms@, flips, i, j);
        }
    }
    let walls = derive_walls(&floor);
    Dungeon { rooms, floor, walls }
}

} // verus!
