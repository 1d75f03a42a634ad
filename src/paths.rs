//! Walks over the floor, and the proof that corridors join every pair of rooms.

use crate::bsp::Room;
use crate::floor::{between, floor_of, in_some_room, on_corridor, on_some_corridor, pair_count};
use crate::geometry::{lemma_mid_inside, Position};
use vstd::prelude::*;

verus! {

/// `b` is `a` or one of its four side neighbors.
pub open spec fn is_step(a: Position, b: Position) -> bool {
    ||| (a.x == b.x && -1 <= a.y - b.y <= 1)
    ||| (a.y == b.y && -1 <= a.x - b.x <= 1)
}

/// `path` goes from `from` to `to` through floor cells, one side step at a time.
pub open spec fn is_walk(floor: Set<Position>, path: Seq<Position>, from: Position, to: Position) -> bool {
    &&& path.len() >= 1
    &&& path[0] == from
    &&& path.last() == to
    &&& forall|i: int| 0 <= i < path.len() ==> floor.contains(#[trigger] path[i])
    &&& forall|i: int| 0 <= i < path.len() - 1 ==> is_step(#[trigger] path[i], path[i + 1])
}

/// Some walk over `floor` leads from `from` to `to`.
pub open spec fn connected(floor: Set<Position>, from: Position, to: Position) -> bool {
    exists|path: Seq<Position>| #[trigger] is_walk(floor, path, from, to)
}

/// The cells of row `y` from column `a` to column `b`, in that direction.
pub open spec fn row_walk(y: i32, a: i32, b: i32) -> Seq<Position> {
    if a <= b {
        Seq::new((b - a + 1) as nat, |i: int| Position { x: (a + i) as i32, y })
    } else {
        Seq::new((a - b + 1) as nat, |i: int| Position { x: (a - i) as i32, y })
    }
}

/// The cells of column `x` from row `a` to row `b`, in that direction.
pub open spec fn column_walk(x: i32, a: i32, b: i32) -> Seq<Position> {
    if a <= b {
        Seq::new((b - a + 1) as nat, |i: int| Position { x, y: (a + i) as i32 })
    } else {
        Seq::new((a - b + 1) as nat, |i: int| Position { x, y: (a - i) as i32 })
    }
}

proof fn lemma_row_walk(y: i32, a: i32, b: i32)
    ensures
        row_walk(y, a, b).len() >= 1,
        row_walk(y, a, b)[0] == (Position { x: a, y }),
        row_walk(y, a, b).last() == (Position { x: b, y }),
        forall|i: int|
            0 <= i < row_walk(y, a, b).len() ==> (#[trigger] row_walk(y, a, b)[i]).y == y
                && between(row_walk(y, a, b)[i].x as int, a as int, b as int),
        forall|i: int|
            0 <= i < row_walk(y, a, b).len() - 1 ==> is_step(
                #[trigger] row_walk(y, a, b)[i],
                row_walk(y, a, b)[i + 1],
            ),
{
}

proof fn lemma_column_walk(x: i32, a: i32, b: i32)
    ensures
        column_walk(x, a, b).len() >= 1,
        column_walk(x, a, b)[0] == (Position { x, y: a }),
        column_walk(x, a, b).last() == (Position { x, y: b }),
        forall|i: int|
            0 <= i < column_walk(x, a, b).len() ==> (#[trigger] column_walk(x, a, b)[i]).x == x
                && between(column_walk(x, a, b)[i].y as int, a as int, b as int),
        forall|i: int|
            0 <= i < column_walk(x, a, b).len() - 1 ==> is_step(
                #[trigger] column_walk(x, a, b)[i],
                column_walk(x, a, b)[i + 1],
            ),
{
}

/// Two walks that meet join into one.
pub proof fn lemma_walk_join(
    floor: Set<Position>,
    p: Seq<Position>,
    q: Seq<Position>,
    a: Position,
    b: Position,
    c: Position,
)
    requires
        is_walk(floor, p, a, b),
        is_walk(floor, q, b, c),
    ensures
        is_walk(floor, p + q, a, c),
{
    let s = p + q;
    assert forall|i: int| 0 <= i < s.len() implies floor.contains(#[trigger] s[i]) by {
        if i >= p.len() {
            assert(s[i] == q[i - p.len()]);
        }
    }
    assert forall|i: int| 0 <= i < s.len() - 1 implies is_step(#[trigger] s[i], s[i + 1]) by {
        if i >= p.len() {
            assert(s[i] == q[i - p.len()]);
            assert(s[i + 1] == q[i + 1 - p.len()]);
        } else if i == p.len() - 1 {
            assert(s[i + 1] == q[0]);
        }
    }
}

/// A walk taken backwards is a walk.
pub proof fn lemma_walk_reverse(floor: Set<Position>, p: Seq<Position>, a: Position, b: Position)
    requires
        is_walk(floor, p, a, b),
    ensures
        is_walk(floor, p.reverse(), b, a),
{
    let r = p.reverse();
    assert forall|i: int| 0 <= i < r.len() - 1 implies is_step(#[trigger] r[i], r[i + 1]) by {
        assert(is_step(p[p.len() - 2 - i], p[p.len() - 1 - i]));
    }
    assert forall|i: int| 0 <= i < r.len() implies floor.contains(#[trigger] r[i]) by {
        assert(floor.contains(p[p.len() - 1 - i]));
    }
}

/// The corridor between rooms `k - 1` and `k` is a walk between their centers.
proof fn corridor_walk(rooms: Seq<Room>, flips: Seq<bool>, k: int) -> (path: Seq<Position>)
    requires
        1 <= k < rooms.len(),
        flips.len() == pair_count(rooms.len() as int),
    ensures
        is_walk(floor_of(rooms, flips), path, rooms[k - 1].inner.mid(), rooms[k].inner.mid()),
{
    let from = rooms[k - 1].inner.mid();
    let to = rooms[k].inner.mid();
    let floor = floor_of(rooms, flips);
    let (first, second) = if flips[k - 1] {
        (row_walk(from.y, from.x, to.x), column_walk(to.x, from.y, to.y))
    } else {
        (column_walk(from.x, from.y, to.y), row_walk(to.y, from.x, to.x))
    };
    lemma_row_walk(from.y, from.x, to.x);
    lemma_column_walk(to.x, from.y, to.y);
    lemma_column_walk(from.x, from.y, to.y);
    lemma_row_walk(to.y, from.x, to.x);
    let corner = if flips[k - 1] {
        Position { x: to.x, y: from.y }
    } else {
        Position { x: from.x, y: to.y }
    };
    assert forall|i: int| 0 <= i < first.len() implies floor.contains(#[trigger] first[i]) by {
        assert(on_corridor(from, to, flips[k - 1], first[i]));
        assert(on_some_corridor(rooms, flips, first[i]));
    }
    assert forall|i: int| 0 <= i < second.len() implies floor.contains(#[trigger] second[i]) by {
        assert(on_corridor(from, to, flips[k - 1], second[i]));
        assert(on_some_corridor(rooms, flips, second[i]));
    }
    assert(is_walk(floor, first, from, corner));
    assert(is_walk(floor, second, corner, to));
    lemma_walk_join(floor, first, second, from, corner, to);
    first + second
}

/// A walk from the center of room `i` to the center of room `j`, for `i <= j`.
proof fn forward_walk(rooms: Seq<Room>, flips: Seq<bool>, i: int, j: int) -> (path: Seq<Position>)
    requires
        0 <= i <= j < rooms.len(),
        forall|k: int| 0 <= k < rooms.len() ==> (#[trigger] rooms[k]).inner.is_valid(),
        flips.len() == pair_count(rooms.len() as int),
    ensures
        is_walk(floor_of(rooms, flips), path, rooms[i].inner.mid(), rooms[j].inner.mid()),
    decreases j - i,
{
    let floor = floor_of(rooms, flips);
    if i == j {
        let c = rooms[i].inner.mid();
        lemma_mid_inside(rooms[i].inner);
        assert(rooms[i].inner.contains(c));
        assert(in_some_room(rooms, c));
        let path = seq![c];
        assert(is_walk(floor, path, c, c));
        path
    } else {
        let head = forward_walk(rooms, flips, i, j - 1);
        let tail = corridor_walk(rooms, flips, j);
        lemma_walk_join(
            floor,
            head,
            tail,
            rooms[i].inner.mid(),
            rooms[j - 1].inner.mid(),
            rooms[j].inner.mid(),
        );
        head + tail
    }
}

/// Every room center can be reached from every other room center by walking
/// over floor cells only.
pub proof fn lemma_rooms_connected(rooms: Seq<Room>, flips: Seq<bool>, i: int, j: int)
    requires
        0 <= i < rooms.len(),
        0 <= j < rooms.len(),
        forall|k: int| 0 <= k < rooms.len() ==> (#[trigger] rooms[k]).inner.is_valid(),
        flips.len() == pair_count(rooms.len() as int),
    ensures
        connected(floor_of(rooms, flips), rooms[i].inner.mid(), rooms[j].inner.mid()),
{
    let floor = floor_of(rooms, flips);
    if i <= j {
        let path = forward_walk(rooms, flips, i, j);
        assert(is_walk(floor, path, rooms[i].inner.mid(), rooms[j].inner.mid()));
    } else {
        let path = forward_walk(rooms, flips, j, i);
        lemma_walk_reverse(floor, path, rooms[j].inner.mid(), rooms[i].inner.mid());
        assert(is_walk(floor, path.reverse(), rooms[i].inner.mid(), rooms[j].inner.mid()));
    }
}

} // verus!
