//! Floor cells: room interiors joined by L-shaped corridors.

use crate::bsp::Room;
use crate::cells::CellSet;
use crate::geometry::{Position, Rect};
use crate::random::chance;
use rand::rngs::StdRng;
use vstd::prelude::*;

verus! {

/// `v` lies between `a` and `b`, both included.
pub open spec fn between(v: int, a: int, b: int) -> bool {
    if a <= b {
        a <= v <= b
    } else {
        b <= v <= a
    }
}

/// The cells of row `y` from column `a` to column `b`, both included, left to right.
pub open spec fn row_run(y: i32, a: i32, b: i32) -> Seq<Position> {
    let lo = if a <= b { a } else { b };
    let hi = if a <= b { b } else { a };
    Seq::new((hi - lo + 1) as nat, |i: int| Position { x: (lo + i) as i32, y })
}

/// The cells of column `x` from row `a` to row `b`, both included, bottom to top.
pub open spec fn column_run(x: i32, a: i32, b: i32) -> Seq<Position> {
    let lo = if a <= b { a } else { b };
    let hi = if a <= b { b } else { a };
    Seq::new((hi - lo + 1) as nat, |i: int| Position { x, y: (lo + i) as i32 })
}

/// The cells of the corridor from `from` to `to`, in the order they are laid:
/// with `horizontal_first`, the row of `from` and then the column of `to`;
/// otherwise the column of `from` and then the row of `to`.
pub open spec fn corridor_path(from: Position, to: Position, horizontal_first: bool) -> Seq<
    Position,
> {
    if horizontal_first {
        row_run(from.y, from.x, to.x) + column_run(to.x, from.y, to.y)
    } else {
        column_run(from.x, from.y, to.y) + row_run(to.y, from.x, to.x)
    }
}

/// `p` is a cell of the corridor from `from` to `to`.
pub open spec fn on_corridor(from: Position, to: Position, horizontal_first: bool, p: Position) -> bool {
    if horizontal_first {
        ||| (p.y == from.y && between(p.x as int, from.x as int, to.x as int))
        ||| (p.x == to.x && between(p.y as int, from.y as int, to.y as int))
    } else {
        ||| (p.x == from.x && between(p.y as int, from.y as int, to.y as int))
        ||| (p.y == to.y && between(p.x as int, from.x as int, to.x as int))
    }
}

/// The cells of a run are the cells of its row between its two ends.
proof fn lemma_row_run_cells(y: i32, a: i32, b: i32, p: Position)
    ensures
        row_run(y, a, b).contains(p) <==> (p.y == y && between(p.x as int, a as int, b as int)),
{
    let lo = if a <= b { a } else { b };
    if p.y == y && between(p.x as int, a as int, b as int) {
        assert(row_run(y, a, b)[p.x - lo] == p);
    }
}

proof fn lemma_column_run_cells(x: i32, a: i32, b: i32, p: Position)
    ensures
        column_run(x, a, b).contains(p) <==> (p.x == x && between(p.y as int, a as int, b as int)),
{
    let lo = if a <= b { a } else { b };
    if p.x == x && between(p.y as int, a as int, b as int) {
        assert(column_run(x, a, b)[p.y - lo] == p);
    }
}

/// The laid cells of a corridor are exactly its cells.
pub proof fn lemma_corridor_path_cells(from: Position, to: Position, horizontal_first: bool, p: Position)
    ensures
        corridor_path(from, to, horizontal_first).contains(p) <==> on_corridor(
            from,
            to,
            horizontal_first,
            p,
        ),
{
    let s = corridor_path(from, to, horizontal_first);
    let (first, second) = if horizontal_first {
        (row_run(from.y, from.x, to.x), column_run(to.x, from.y, to.y))
    } else {
        (column_run(from.x, from.y, to.y), row_run(to.y, from.x, to.x))
    };
    assert(s == first + second);
    lemma_row_run_cells(from.y, from.x, to.x, p);
    lemma_column_run_cells(to.x, from.y, to.y, p);
    lemma_column_run_cells(from.x, from.y, to.y, p);
    lemma_row_run_cells(to.y, from.x, to.x, p);
    if first.contains(p) {
        let i = choose|i: int| 0 <= i < first.len() && first[i] == p;
        assert(s[i] == p);
    }
    if second.contains(p) {
        let i = choose|i: int| 0 <= i < second.len() && second[i] == p;
        assert(s[first.len() + i] == p);
    }
    if s.contains(p) {
        let i = choose|i: int| 0 <= i < s.len() && s[i] == p;
        if i < first.len() {
            assert(first[i] == p);
        } else {
            assert(second[i - first.len()] == p);
        }
    }
}

/// Appends the cells of a run along one axis, from `a` to `b` in increasing order.
fn push_run(cells: &mut Vec<Position>, fixed: i32, a: i32, b: i32, along_row: bool)
    ensures
        final(cells)@ == old(cells)@ + if along_row {
            row_run(fixed, a, b)
        } else {
            column_run(fixed, a, b)
        },
{
    let lo = if a <= b { a } else { b };
    let hi = if a <= b { b } else { a };
    let ghost start = cells@;
    let ghost run = if along_row { row_run(fixed, a, b) } else { column_run(fixed, a, b) };
    let mut v: i64 = lo as i64;
    while v <= hi as i64
        invariant
            lo <= v <= hi + 1,
            lo == (if a <= b { a } else { b }),
            hi == (if a <= b { b } else { a }),
            run == (if along_row { row_run(fixed, a, b) } else { column_run(fixed, a, b) }),
            cells@ == start + run.subrange(0, v - lo),
        decreases hi + 1 - v,
    {
        let c = v as i32;
        let p = if along_row { Position { x: c, y: fixed } } else { Position { x: fixed, y: c } };
        cells.push(p);
        proof {
            assert(run[v - lo] == p);
            assert(cells@ =~= start + run.subrange(0, v - lo + 1));
        }
        v = v + 1;
    }
    proof {
        assert(run.subrange(0, hi - lo + 1) =~= run);
    }
}

/// The cells of the L-shaped corridor from `from` to `to`, in the order they
/// are laid. Both ends of each leg are included.
pub fn corridor_cells(from: Position, to: Position, horizontal_first: bool) -> (cells: Vec<
    Position,
>)
    ensures
        cells@ == corridor_path(from, to, horizontal_first),
{
    let mut cells: Vec<Position> = Vec::new();
    if horizontal_first {
        push_run(&mut cells, from.y, from.x, to.x, true);
        push_run(&mut cells, to.x, from.y, to.y, false);
    } else {
        push_run(&mut cells, from.x, from.y, to.y, false);
        push_run(&mut cells, to.y, from.x, to.x, true);
    }
    proof {
        assert(cells@ =~= corridor_path(from, to, horizontal_first));
    }
    cells
}

/// The number of corridors between `n` rooms in a row: one per consecutive pair.
pub open spec fn pair_count(n: int) -> int {
    if n == 0 {
        0
    } else {
        n - 1
    }
}

/// `p` is in the interior of one of the rooms.
pub open spec fn in_some_room(rooms: Seq<Room>, p: Position) -> bool {
    exists|i: int| 0 <= i < rooms.len() && #[trigger] rooms[i].inner.contains(p)
}

/// `p` is on the corridor between the centers of rooms `i - 1` and `i` for some
/// `i`, laid horizontal leg first when `flips[i - 1]` holds.
pub open spec fn on_some_corridor(rooms: Seq<Room>, flips: Seq<bool>, p: Position) -> bool {
    exists|i: int|
        1 <= i < rooms.len() && #[trigger] on_corridor(
            rooms[i - 1].inner.mid(),
            rooms[i].inner.mid(),
            flips[i - 1],
            p,
        )
}

/// The floor of a dungeon: every room interior and every corridor.
pub open spec fn floor_of(rooms: Seq<Room>, flips: Seq<bool>) -> Set<Position> {
    Set::new(|p: Position| in_some_room(rooms, p) || on_some_corridor(rooms, flips, p))
}

/// Adds every cell of `r` to `floor`.
fn insert_rect(floor: &mut CellSet, r: Rect)
    requires
        old(floor).wf(),
        r.is_valid(),
    ensures
        final(floor).wf(),
        final(floor)@ == old(floor)@.union(r.cells()),
{
    let ghost start = floor@;
    let mut y: i32 = r.y;
    while y < r.y + r.height
        invariant
            r.is_valid(),
            r.y <= y <= r.end_y(),
            floor.wf(),
            floor@ == start.union(Set::new(|p: Position| r.contains(p) && p.y < y)),
        decreases r.end_y() - y,
    {
        let mut x: i32 = r.x;
        while x < r.x + r.width
            invariant
                r.is_valid(),
                r.y <= y < r.end_y(),
                r.x <= x <= r.end_x(),
                floor.wf(),
                floor@ == start.union(
                    Set::new(|p: Position| r.contains(p) && (p.y < y || (p.y == y && p.x < x))),
                ),
            decreases r.end_x() - x,
        {
            floor.insert(Position { x, y });
            proof {
                assert(floor@ =~= start.union(
                    Set::new(
                        |p: Position| r.contains(p) && (p.y < y || (p.y == y && p.x < x + 1)),
                    ),
                ));
            }
            x = x + 1;
        }
        proof {
            assert(floor@ =~= start.union(
                Set::new(|p: Position| r.contains(p) && p.y < y + 1),
            ));
        }
        y = y + 1;
    }
    proof {
        assert(floor@ =~= start.union(r.cells()));
    }
}

/// Adds every listed cell to `floor`.
fn insert_all(floor: &mut CellSet, cells: &Vec<Position>)
    requires
        old(floor).wf(),
    ensures
        final(floor).wf(),
        final(floor)@ == old(floor)@.union(cells@.to_set()),
{
    let ghost start = floor@;
    let mut i: usize = 0;
    while i < cells.len()
        invariant
            i <= cells@.len(),
            floor.wf(),
            floor@ == start.union(cells@.subrange(0, i as int).to_set()),
        decreases cells@.len() - i,
    {
        floor.insert(cells[i]);
        proof {
            let prev = cells@.subrange(0, i as int);
            let next = cells@.subrange(0, i + 1);
            assert forall|p: Position|
                floor@.contains(p) <==> start.union(next.to_set()).contains(p) by {
                assert(next[i as int] == cells@[i as int]);
                if next.contains(p) {
                    let k = choose|k: int| 0 <= k < next.len() && next[k] == p;
                    if k < i {
                        assert(prev[k] == p);
                    }
                }
                if prev.contains(p) {
                    let k = choose|k: int| 0 <= k < prev.len() && prev[k] == p;
                    assert(next[k] == p);
                }
            }
            assert(floor@ =~= start.union(next.to_set()));
        }
        i = i + 1;
    }
    proof {
        assert(cells@.subrange(0, i as int) =~= cells@);
    }
}

/// The floor of the rooms joined in order by corridors, the corridor between
/// rooms `i - 1` and `i` laid horizontal leg first when `flips[i - 1]` holds.
pub fn build_floor(rooms: &Vec<Room>, flips: &Vec<bool>) -> (floor: CellSet)
    requires
        forall|i: int| 0 <= i < rooms@.len() ==> (#[trigger] rooms@[i]).inner.is_valid(),
        flips@.len() == pair_count(rooms@.len() as int),
    ensures
        floor.wf(),
        floor@ == floor_of(rooms@, flips@),
{
    let mut floor = CellSet::new();
    let mut i: usize = 0;
    while i < rooms.len()
        invariant
            i <= rooms@.len(),
            forall|i: int| 0 <= i < rooms@.len() ==> (#[trigger] rooms@[i]).inner.is_valid(),
            floor.wf(),
            floor@ == Set::new(
                |p: Position| exists|k: int| 0 <= k < i && #[trigger] rooms@[k].inner.contains(p),
            ),
        decreases rooms@.len() - i,
    {
        let ghost before = floor@;
        insert_rect(&mut floor, rooms[i].inner);
        proof {
            assert forall|p: Position|
                floor@.contains(p) <==> exists|k: int|
                    0 <= k < i + 1 && #[trigger] rooms@[k].inner.contains(p) by {
                if rooms@[i as int].inner.contains(p) {
                    assert(rooms@[i as int].inner.contains(p));
                }
                if before.contains(p) {
                    let k = choose|k: int| 0 <= k < i && #[trigger] rooms@[k].inner.contains(p);
                    assert(rooms@[k].inner.contains(p));
                }
            }
            assert(floor@ =~= Set::new(
                |p: Position| exists|k: int| 0 <= k < i + 1 && #[trigger] rooms@[k].inner.contains(p),
            ));
        }
        i = i + 1;
    }
    let ghost room_floor = floor@;
    let mut i: usize = 1;
    while i < rooms.len()
        invariant
            1 <= i,
            i <= rooms@.len() || (rooms@.len() == 0 && i == 1),
            forall|i: int| 0 <= i < rooms@.len() ==> (#[trigger] rooms@[i]).inner.is_valid(),
            flips@.len() == pair_count(rooms@.len() as int),
            floor.wf(),
            room_floor == Set::new(|p: Position| in_some_room(rooms@, p)),
            floor@ == room_floor.union(
                Set::new(
                    |p: Position|
                        exists|k: int|
                            1 <= k < i && #[trigger] on_corridor(
                                rooms@[k - 1].inner.mid(),
                                rooms@[k].inner.mid(),
                                flips@[k - 1],
                                p,
                            ),
                ),
            ),
        decreases rooms@.len() - i,
    {
        let from = rooms[i - 1].inner.center();
        let to = rooms[i].inner.center();
        let from = Position { x: from.0, y: from.1 };
        let to = Position { x: to.0, y: to.1 };
        let cells = corridor_cells(from, to, flips[i - 1]);
        let ghost before = floor@;
        insert_all(&mut floor, &cells);
        proof {
            assert(from == rooms@[i - 1].inner.mid());
            assert(to == rooms@[i as int].inner.mid());
            assert forall|p: Position|
                floor@.contains(p) <==> (room_floor.contains(p) || exists|k: int|
                    1 <= k < i + 1 && #[trigger] on_corridor(
                        rooms@[k - 1].inner.mid(),
                        rooms@[k].inner.mid(),
                        flips@[k - 1],
                        p,
                    )) by {
                lemma_corridor_path_cells(from, to, flips@[i - 1], p);
                if cells@.contains(p) {
                    assert(on_corridor(
                        rooms@[i - 1].inner.mid(),
                        rooms@[i as int].inner.mid(),
                        flips@[i - 1],
                        p,
                    ));
                }
            }
            assert(floor@ =~= room_floor.union(
                Set::new(
                    |p: Position|
                        exists|k: int|
                            1 <= k < i + 1 && #[trigger] on_corridor(
                                rooms@[k - 1].inner.mid(),
                                rooms@[k].inner.mid(),
                                flips@[k - 1],
                                p,
                            ),
                ),
            ));
        }
        i = i + 1;
    }
    proof {
        assert forall|p: Position| floor@.contains(p) <==> floor_of(rooms@, flips@).contains(p) by {
            if on_some_corridor(rooms@, flips@, p) {
                let k = choose|k: int|
                    1 <= k < rooms@.len() && #[trigger] on_corridor(
                        rooms@[k - 1].inner.mid(),
                        rooms@[k].inner.mid(),
                        flips@[k - 1],
                        p,
                    );
                assert(1 <= k < i);
            }
        }
        assert(floor@ =~= floor_of(rooms@, flips@));
    }
    floor
}

/// The floor of the rooms joined in order by corridors, the leg order of each
/// corridor decided by a fair coin.
pub fn carve_floor(rooms: &Vec<Room>, rng: &mut StdRng) -> (floor: CellSet)
    requires
        forall|i: int| 0 <= i < rooms@.len() ==> (#[trigger] rooms@[i]).inner.is_valid(),
    ensures
        floor.wf(),
        exists|flips: Seq<bool>|
            flips.len() == pair_count(rooms@.len() as int) && floor@ == #[trigger] floor_of(
                rooms@,
                flips,
            ),
{
    let mut flips: Vec<bool> = Vec::new();
    let mut i: usize = 1;
    while i < rooms.len()
        invariant
            1 <= i,
            i <= rooms@.len() || (rooms@.len() == 0 && i == 1),
            flips@.len() == i - 1,
        decreases rooms@.len() - i,
    {
        flips.push(chance(rng, 1, 2));
        i = i + 1;
    }
    let floor = build_floor(rooms, &flips);
    proof {
        assert(floor@ == floor_of(rooms@, flips@));
    }
    floor
}

} // verus!
