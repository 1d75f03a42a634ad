//! Walls: the cells next to the floor that are not floor themselves.

use crate::cells::CellSet;
use crate::geometry::Position;
use vstd::prelude::*;

verus! {

/// `a` and `b` are distinct and touch by a side or a corner.
pub open spec fn is_neighbor(a: Position, b: Position) -> bool {
    a != b && -1 <= a.x - b.x <= 1 && -1 <= a.y - b.y <= 1
}

/// The cells off the floor that touch a floor cell by a side or a corner.
pub open spec fn walls_of(floor: Set<Position>) -> Set<Position> {
    Set::new(
        |w: Position|
            !floor.contains(w) && exists|f: Position| floor.contains(f) && #[trigger] is_neighbor(
                f,
                w,
            ),
    )
}

/// Every cell of the floor can have all its neighbors represented.
pub open spec fn has_margin(floor: Set<Position>) -> bool {
    forall|p: Position|
        #[trigger] floor.contains(p) ==> i32::MIN < p.x < i32::MAX && i32::MIN < p.y < i32::MAX
}

/// Adds to `walls` each neighbor of `p` that is not on the floor.
fn add_walls_around(walls: &mut CellSet, floor: &CellSet, p: Position)
    requires
        old(walls).wf(),
        floor.wf(),
        i32::MIN < p.x < i32::MAX,
        i32::MIN < p.y < i32::MAX,
    ensures
        final(walls).wf(),
        final(walls)@ == old(walls)@.union(
            Set::new(|w: Position| !floor@.contains(w) && is_neighbor(p, w)),
        ),
{
    let ghost start = walls@;
    let mut dy: i32 = -1;
    while dy <= 1
        invariant
            -1 <= dy <= 2,
            floor.wf(),
            walls.wf(),
            i32::MIN < p.x < i32::MAX,
            i32::MIN < p.y < i32::MAX,
            walls@ == start.union(
                Set::new(|w: Position| !floor@.contains(w) && is_neighbor(p, w) && w.y - p.y < dy),
            ),
        decreases 2 - dy,
    {
        let mut dx: i32 = -1;
        while dx <= 1
            invariant
                -1 <= dy <= 1,
                -1 <= dx <= 2,
                floor.wf(),
                walls.wf(),
                i32::MIN < p.x < i32::MAX,
                i32::MIN < p.y < i32::MAX,
                walls@ == start.union(
                    Set::new(
                        |w: Position|
                            !floor@.contains(w) && is_neighbor(p, w) && (w.y - p.y < dy || (w.y
                                - p.y == dy && w.x - p.x < dx)),
                    ),
                ),
            decreases 2 - dx,
        {
            if !(dx == 0 && dy == 0) {
                let neighbor = Position { x: p.x + dx, y: p.y + dy };
                if !floor.contains(neighbor) {
                    walls.insert(neighbor);
                }
            }
            proof {
                assert(walls@ =~= start.union(
                    Set::new(
                        |w: Position|
                            !floor@.contains(w) && is_neighbor(p, w) && (w.y - p.y < dy || (w.y
                                - p.y == dy && w.x - p.x < dx + 1)),
                    ),
                ));
            }
            dx = dx + 1;
        }
        proof {
            assert(walls@ =~= start.union(
                Set::new(
                    |w: Position| !floor@.contains(w) && is_neighbor(p, w) && w.y - p.y < dy + 1,
                ),
            ));
        }
        dy = dy + 1;
    }
    proof {
        assert(walls@ =~= start.union(
            Set::new(|w: Position| !floor@.contains(w) && is_neighbor(p, w)),
        ));
    }
}

/// The walls around a floor: every neighbor of a floor cell that is not itself
/// a floor cell, each once.
pub fn derive_walls(floor: &CellSet) -> (walls: CellSet)
    requires
        floor.wf(),
        has_margin(floor@),
    ensures
        walls.wf(),
        walls@ == walls_of(floor@),
{
    let cells = floor.cells();
    let mut walls = CellSet::new();
    let mut i: usize = 0;
    while i < cells.len()
        invariant
            floor.wf(),
            has_margin(floor@),
            cells@.to_set() == floor@,
            i <= cells@.len(),
            walls.wf(),
            walls@ == Set::new(
                |w: Position|
                    !floor@.contains(w) && exists|k: int|
                        0 <= k < i && #[trigger] is_neighbor(cells@[k], w),
            ),
        decreases cells@.len() - i,
    {
        let p = cells[i];
        proof {
            assert(cells@.contains(p));
            assert(floor@.contains(p));
        }
        let ghost before = walls@;
        add_walls_around(&mut walls, floor, p);
        proof {
            assert forall|w: Position|
                walls@.contains(w) <==> (!floor@.contains(w) && exists|k: int|
                    0 <= k < i + 1 && #[trigger] is_neighbor(cells@[k], w)) by {
                if before.contains(w) {
                    let k = choose|k: int| 0 <= k < i && #[trigger] is_neighbor(cells@[k], w);
                    assert(is_neighbor(cells@[k], w));
                }
                if is_neighbor(p, w) {
                    assert(is_neighbor(cells@[i as int], w));
                }
            }
            assert(walls@ =~= Set::new(
                |w: Position|
                    !floor@.contains(w) && exists|k: int|
                        0 <= k < i + 1 && #[trigger] is_neighbor(cells@[k], w),
            ));
        }
        i = i + 1;
    }
    proof {
        assert forall|w: Position| walls@.contains(w) <==> walls_of(floor@).contains(w) by {
            if walls@.contains(w) {
                let k = choose|k: int| 0 <= k < i && #[trigger] is_neighbor(cells@[k], w);
                assert(cells@.contains(cells@[k]));
                assert(floor@.contains(cells@[k]) && is_neighbor(cells@[k], w));
            }
            if walls_of(floor@).contains(w) {
                let f = choose|f: Position| floor@.contains(f) && #[trigger] is_neighbor(f, w);
                assert(cells@.to_set().contains(f));
                let k = choose|k: int| 0 <= k < cells@.len() && cells@[k] == f;
                assert(is_neighbor(cells@[k], w));
            }
        }
        assert(walls@ =~= walls_of(floor@));
    }
    walls
}

/// No wall cell is a floor cell.
pub proof fn lemma_walls_off_floor(floor: Set<Position>, w: Position)
    requires
        walls_of(floor).contains(w),
    ensures
        !floor.contains(w),
{
}

/// Every wall cell touches a floor cell by a side or a corner.
pub proof fn lemma_walls_touch_floor(floor: Set<Position>, w: Position)
    requires
        walls_of(floor).contains(w),
    ensures
        exists|f: Position| floor.contains(f) && #[trigger] is_neighbor(f, w),
{
}

} // verus!
