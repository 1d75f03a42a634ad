//! Binary space partition of a rectangle into leaves, and the rooms carved from them.

use crate::geometry::{Position, Rect};
use crate::random::{chance, draw_below};
use rand::rngs::StdRng;
use vstd::prelude::*;

verus! {

/// No piece of a cut is thinner than this along the cut axis.
pub const MIN_SIZE: i32 = 6;

/// The direction of a cut.
#[derive(Clone, Copy, Debug, PartialEq, Eq, Structural)]
pub enum SplitAxis {
    /// A cut along a row boundary: the pieces share the full width.
    Horizontal,
    /// A cut along a column boundary: the pieces share the full height.
    Vertical,
}

impl Rect {
    /// Tall enough for a horizontal cut.
    pub open spec fn splits_horizontally(self) -> bool {
        self.height > 2 * MIN_SIZE
    }

    /// Wide enough for a vertical cut.
    pub open spec fn splits_vertically(self) -> bool {
        self.width > 2 * MIN_SIZE
    }

    pub open spec fn is_splittable(self) -> bool {
        self.splits_horizontally() || self.splits_vertically()
    }

    /// The extent of the rectangle across a cut along `axis`.
    pub open spec fn extent(self, axis: SplitAxis) -> int {
        match axis {
            SplitAxis::Horizontal => self.height as int,
            SplitAxis::Vertical => self.width as int,
        }
    }

    /// The two pieces of a cut along `axis`, `offset` cells from the origin edge.
    pub open spec fn cut(self, axis: SplitAxis, offset: int) -> (Rect, Rect) {
        match axis {
            SplitAxis::Horizontal => (
                Rect { x: self.x, y: self.y, width: self.width, height: offset as i32 },
                Rect {
                    x: self.x,
                    y: (self.y + offset) as i32,
                    width: self.width,
                    height: (self.height - offset) as i32,
                },
            ),
            SplitAxis::Vertical => (
                Rect { x: self.x, y: self.y, width: offset as i32, height: self.height },
                Rect {
                    x: (self.x + offset) as i32,
                    y: self.y,
                    width: (self.width - offset) as i32,
                    height: self.height,
                },
            ),
        }
    }

    /// `(a, b)` is a possible outcome of `subdivide`: an eligible axis, cut at
    /// an offset of at least `MIN_SIZE` that leaves more than `MIN_SIZE` beyond it.
    pub open spec fn is_subdivision(self, a: Rect, b: Rect) -> bool {
        ||| (self.splits_horizontally() && MIN_SIZE <= a.height < self.height - MIN_SIZE && (a, b)
            == self.cut(SplitAxis::Horizontal, a.height as int))
        ||| (self.splits_vertically() && MIN_SIZE <= a.width < self.width - MIN_SIZE && (a, b)
            == self.cut(SplitAxis::Vertical, a.width as int))
    }

    /// Cuts the rectangle along `axis` at `offset` cells from its origin edge.
    pub fn split_at(&self, axis: SplitAxis, offset: i32) -> (r: (Rect, Rect))
        requires
            self.fits(),
            0 < offset < self.extent(axis),
        ensures
            r == self.cut(axis, offset as int),
    {
        match axis {
            SplitAxis::Horizontal => (
                Rect { x: self.x, y: self.y, width: self.width, height: offset },
                Rect {
                    x: self.x,
                    y: self.y + offset,
                    width: self.width,
                    height: self.height - offset,
                },
            ),
            SplitAxis::Vertical => (
                Rect { x: self.x, y: self.y, width: offset, height: self.height },
                Rect {
                    x: self.x + offset,
                    y: self.y,
                    width: self.width - offset,
                    height: self.height,
                },
            ),
        }
    }

    /// Splits the rectangle in two, or returns `None` when it is too small on
    /// both axes. When both axes are eligible a fair coin picks one; the offset
    /// is drawn uniformly from `MIN_SIZE .. extent - MIN_SIZE`.
    pub fn subdivide(&self, rng: &mut StdRng) -> (r: Option<(Rect, Rect)>)
        requires
            self.fits(),
        ensures
            r is None <==> !self.is_splittable(),
            r matches Some((a, b)) ==> self.is_subdivision(a, b),
    {
        let can_split_h = self.height > MIN_SIZE * 2;
        let can_split_v = self.width > MIN_SIZE * 2;
        if !can_split_h && !can_split_v {
            return None;
        }
        let axis = if can_split_h && can_split_v {
            if chance(rng, 1, 2) {
                SplitAxis::Horizontal
            } else {
                SplitAxis::Vertical
            }
        } else if can_split_h {
            SplitAxis::Horizontal
        } else {
            SplitAxis::Vertical
        };
        let extent = match axis {
            SplitAxis::Horizontal => self.height,
            SplitAxis::Vertical => self.width,
        };
        let min_split = MIN_SIZE;
        let max_split = extent - MIN_SIZE;
        // An eligible axis always leaves a non-empty range; the draw must never see an empty one.
        if min_split < max_split {
            let offset = draw_below(rng, min_split, max_split);
            Some(self.split_at(axis, offset))
        } else {
            None
        }
    }
}

/// Each piece of a subdivision is a valid rectangle inside the parent, the
/// pieces do not overlap, and together they cover the parent exactly.
pub proof fn lemma_subdivision_partitions(r: Rect, a: Rect, b: Rect)
    requires
        r.is_valid(),
        r.is_subdivision(a, b),
    ensures
        a.is_valid(),
        b.is_valid(),
        a.within(r),
        b.within(r),
        a.is_disjoint(b),
        a.cells().union(b.cells()) == r.cells(),
        a.area() + b.area() == r.area(),
{
    assert(a.cells().union(b.cells()) =~= r.cells());
    if r.splits_horizontally() && MIN_SIZE <= a.height < r.height - MIN_SIZE && (a, b) == r.cut(
        SplitAxis::Horizontal,
        a.height as int,
    ) {
        assert(r.width * a.height + r.width * (r.height - a.height) == r.width * r.height)
            by (nonlinear_arith);
    } else {
        assert(a.width * r.height + (r.width - a.width) * r.height == r.width * r.height)
            by (nonlinear_arith);
    }
}

/// Rectangles inside two disjoint rectangles are disjoint.
pub proof fn lemma_disjoint_inside(x: Rect, outer_x: Rect, y: Rect, outer_y: Rect)
    requires
        x.within(outer_x),
        y.within(outer_y),
        outer_x.is_disjoint(outer_y),
    ensures
        x.is_disjoint(y),
{
}

/// A room: its leaf of the partition, and the interior carved from it.
/// `id` is the room's index in the sequence that `bsp_split` returns.
#[derive(Clone, Copy, Debug, PartialEq, Eq, Structural)]
pub struct Room {
    pub id: usize,
    pub bounds: Rect,
    pub inner: Rect,
}

/// The interior of a leaf: a margin of one cell on every side, dropped on an
/// axis where it would leave no cell.
pub open spec fn interior(bounds: Rect) -> Rect {
    Rect {
        x: if bounds.width > 2 { (bounds.x + 1) as i32 } else { bounds.x },
        y: if bounds.height > 2 { (bounds.y + 1) as i32 } else { bounds.y },
        width: if bounds.width > 2 { (bounds.width - 2) as i32 } else { bounds.width },
        height: if bounds.height > 2 { (bounds.height - 2) as i32 } else { bounds.height },
    }
}

/// The rooms carved from a sequence of leaves, numbered in order.
pub open spec fn rooms_of(leaves: Seq<Rect>) -> Seq<Room> {
    Seq::new(
        leaves.len(),
        |i: int| Room { id: i as usize, bounds: leaves[i], inner: interior(leaves[i]) },
    )
}

/// The leaves that a sequence of rooms was carved from.
pub open spec fn bounds_of(rooms: Seq<Room>) -> Seq<Rect> {
    rooms.map_values(|room: Room| room.bounds)
}

/// Carves the room numbered `id` from the leaf `bounds`.
pub fn carve_room(id: usize, bounds: Rect) -> (room: Room)
    requires
        bounds.fits(),
    ensures
        room == (Room { id, bounds, inner: interior(bounds) }),
{
    let margin: i32 = 1;
    let (x, width) = if bounds.width > 2 * margin {
        (bounds.x + margin, bounds.width - 2 * margin)
    } else {
        (bounds.x, bounds.width)
    };
    let (y, height) = if bounds.height > 2 * margin {
        (bounds.y + margin, bounds.height - 2 * margin)
    } else {
        (bounds.y, bounds.height)
    };
    Room { id, bounds, inner: Rect { x, y, width, height } }
}

/// The interior of a valid leaf is valid and lies inside it.
pub proof fn lemma_interior_inside(bounds: Rect)
    requires
        bounds.is_valid(),
    ensures
        interior(bounds).is_valid(),
        interior(bounds).within(bounds),
{
}

/// The cells covered by a sequence of rectangles.
pub open spec fn covered(leaves: Seq<Rect>) -> Set<Position>
    decreases leaves.len(),
{
    if leaves.len() == 0 {
        Set::empty()
    } else {
        covered(leaves.drop_last()).union(leaves.last().cells())
    }
}

/// Each rectangle's cells are covered.
pub proof fn lemma_covered_contains(leaves: Seq<Rect>, i: int, p: Position)
    requires
        0 <= i < leaves.len(),
        leaves[i].contains(p),
    ensures
        covered(leaves).contains(p),
    decreases leaves.len(),
{
    if i < leaves.len() - 1 {
        lemma_covered_contains(leaves.drop_last(), i, p);
    }
}

/// No two rectangles of the sequence overlap.
pub open spec fn pairwise_disjoint(leaves: Seq<Rect>) -> bool {
    forall|i: int, j: int|
        0 <= i < j < leaves.len() ==> (#[trigger] leaves[i]).is_disjoint(#[trigger] leaves[j])
}

/// The sum of the areas of a sequence of rectangles.
pub open spec fn area_sum(leaves: Seq<Rect>) -> int
    decreases leaves.len(),
{
    if leaves.len() == 0 {
        0
    } else {
        area_sum(leaves.drop_last()) + leaves.last().area()
    }
}

/// The leaves cover `root` exactly, without overlap.
pub open spec fn tiles(root: Rect, leaves: Seq<Rect>) -> bool {
    &&& covered(leaves) == root.cells()
    &&& pairwise_disjoint(leaves)
    &&& area_sum(leaves) == root.area()
}

/// `next` is a possible result of one round of splitting `prev`: each leaf in
/// turn is replaced by the two pieces of a subdivision when it is splittable,
/// and kept as it is otherwise.
pub open spec fn is_round(prev: Seq<Rect>, next: Seq<Rect>) -> bool
    decreases prev.len(),
{
    if prev.len() == 0 {
        next.len() == 0
    } else if prev.last().is_splittable() {
        &&& next.len() >= 2
        &&& prev.last().is_subdivision(next[next.len() - 2], next.last())
        &&& is_round(prev.drop_last(), next.subrange(0, next.len() - 2))
    } else {
        &&& next.len() >= 1
        &&& next.last() == prev.last()
        &&& is_round(prev.drop_last(), next.drop_last())
    }
}

/// `rounds` starts from `root` alone, and each entry is a round of the one before.
pub open spec fn is_split_history(root: Rect, rounds: Seq<Seq<Rect>>) -> bool {
    &&& rounds.len() >= 1
    &&& rounds[0] == seq![root]
    &&& forall|i: int| 0 <= i < rounds.len() - 1 ==> is_round(#[trigger] rounds[i], rounds[i + 1])
}

/// `rooms` is a possible result of `bsp_split(root, depth, _)`: the rooms
/// carved, in order, from the leaves of `depth` rounds of splitting `root`.
/// The leaves tile `root`, and each interior is a valid rectangle inside its leaf.
pub open spec fn is_bsp_layout(root: Rect, depth: nat, rooms: Seq<Room>) -> bool {
    &&& exists|rounds: Seq<Seq<Rect>>|
        #[trigger] is_split_history(root, rounds) && rounds.len() == depth + 1 && rooms
            == rooms_of(rounds.last())
    &&& tiles(root, bounds_of(rooms))
    &&& rooms.len() >= 1
    &&& forall|i: int|
        0 <= i < rooms.len() ==> {
            &&& (#[trigger] rooms[i]).id == i
            &&& rooms[i].bounds.is_valid()
            &&& rooms[i].inner.is_valid()
            &&& rooms[i].inner.within(rooms[i].bounds)
        }
}

/// Splits `rect` for `depth` rounds and carves a room from each leaf.
///
/// In each round every leaf is subdivided when it can be, its two pieces taking
/// its place; the rooms are numbered in the order of the final leaves.
pub fn bsp_split(rect: Rect, depth: u32, rng: &mut StdRng) -> (rooms: Vec<Room>)
    requires
        rect.is_valid(),
    ensures
        is_bsp_layout(rect, depth as nat, rooms@),
{
    let mut leaves: Vec<Rect> = vec![rect];
    let ghost mut rounds: Seq<Seq<Rect>> = seq![seq![rect]];
    proof {
        assert(leaves@.drop_last() =~= Seq::<Rect>::empty());
        assert(covered(leaves@) == covered(Seq::<Rect>::empty()).union(rect.cells()));
        assert(covered(leaves@) =~= rect.cells());
        assert(area_sum(leaves@) == area_sum(Seq::<Rect>::empty()) + rect.area());
    }
    let mut round: u32 = 0;
    while round < depth
        invariant
            rect.is_valid(),
            round <= depth,
            rounds.len() == round + 1,
            is_split_history(rect, rounds),
            rounds.last() == leaves@,
            tiles(rect, leaves@),
            forall|i: int| 0 <= i < leaves@.len() ==> (#[trigger] leaves@[i]).is_valid(),
        decreases depth - round,
    {
        let mut next: Vec<Rect> = Vec::new();
        let ghost mut parent: Seq<int> = seq![];
        let mut j: usize = 0;
        while j < leaves.len()
            invariant
                j <= leaves@.len(),
                pairwise_disjoint(leaves@),
                forall|i: int| 0 <= i < leaves@.len() ==> (#[trigger] leaves@[i]).is_valid(),
                is_round(leaves@.subrange(0, j as int), next@),
                covered(next@) == covered(leaves@.subrange(0, j as int)),
                area_sum(next@) == area_sum(leaves@.subrange(0, j as int)),
                pairwise_disjoint(next@),
                parent.len() == next@.len(),
                forall|k: int|
                    0 <= k < next@.len() ==> 0 <= #[trigger] parent[k] < j && next@[k].within(
                        leaves@[parent[k]],
                    ),
                forall|k: int| 0 <= k < next@.len() ==> (#[trigger] next@[k]).is_valid(),
            decreases leaves@.len() - j,
        {
            let r = leaves[j];
            let ghost before = next@;
            let ghost done = leaves@.subrange(0, j as int);
            let ghost upto = leaves@.subrange(0, j + 1);
            proof {
                assert(upto.drop_last() =~= done);
                assert(upto.last() == r);
            }
            match r.subdivide(rng) {
                Some((a, b)) => {
                    next.push(a);
                    next.push(b);
                    proof {
                        lemma_subdivision_partitions(r, a, b);
                        let ghost with_a = before.push(a);
                        assert(next@.subrange(0, next@.len() - 2) =~= before);
                        assert(next@.drop_last() =~= with_a);
                        assert(with_a.drop_last() =~= before);
                        assert(covered(with_a) == covered(before).union(a.cells()));
                        assert(covered(next@) == covered(with_a).union(b.cells()));
                        assert(covered(next@) =~= covered(upto));
                        assert(area_sum(with_a) == area_sum(before) + a.area());
                        assert(area_sum(next@) == area_sum(with_a) + b.area());
                        parent = parent.push(j as int).push(j as int);
                        assert forall|k: int, m: int|
                            0 <= k < m < next@.len() implies (#[trigger] next@[k]).is_disjoint(
                            #[trigger] next@[m],
                        ) by {
                            if m >= before.len() && k < before.len() {
                                lemma_disjoint_inside(
                                    next@[k],
                                    leaves@[parent[k]],
                                    next@[m],
                                    leaves@[j as int],
                                );
                            }
                        }
                    }
                },
                None => {
                    next.push(r);
                    proof {
                        assert(next@.drop_last() =~= before);
                        parent = parent.push(j as int);
                        assert forall|k: int, m: int|
                            0 <= k < m < next@.len() implies (#[trigger] next@[k]).is_disjoint(
                            #[trigger] next@[m],
                        ) by {
                            if m == before.len() {
                                lemma_disjoint_inside(
                                    next@[k],
                                    leaves@[parent[k]],
                                    r,
                                    leaves@[j as int],
                                );
                            }
                        }
                    }
                },
            }
            j = j + 1;
        }
        proof {
            assert(leaves@.subrange(0, leaves@.len() as int) =~= leaves@);
            let prev = rounds;
            rounds = rounds.push(next@);
            assert forall|i: int| 0 <= i < rounds.len() - 1 implies is_round(
                #[trigger] rounds[i],
                rounds[i + 1],
            ) by {
                if i < prev.len() - 1 {
                    assert(rounds[i] == prev[i] && rounds[i + 1] == prev[i + 1]);
                }
            }
        }
        leaves = next;
        round = round + 1;
    }
    let mut rooms: Vec<Room> = Vec::new();
    let mut i: usize = 0;
    while i < leaves.len()
        invariant
            i <= leaves@.len(),
            rooms@.len() == i,
            forall|i: int| 0 <= i < leaves@.len() ==> (#[trigger] leaves@[i]).is_valid(),
            forall|k: int| 0 <= k < i ==> #[trigger] rooms@[k] == rooms_of(leaves@)[k],
        decreases leaves@.len() - i,
    {
        rooms.push(carve_room(i, leaves[i]));
        i = i + 1;
    }
    proof {
        assert(rooms@ =~= rooms_of(leaves@));
        assert(bounds_of(rooms@) =~= leaves@);
        assert(is_split_history(rect, rounds));
        assert forall|i: int| 0 <= i < rooms@.len() implies rooms@[i].inner.within(
            rooms@[i].bounds,
        ) && rooms@[i].inner.is_valid() by {
            lemma_interior_inside(leaves@[i]);
        }
        if leaves@.len() == 0 {
            assert(covered(leaves@) =~= Set::empty());
            assert(rect.cells().contains(Position { x: rect.x, y: rect.y }));
        }
    }
    rooms
}

} // verus!
