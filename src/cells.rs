//! A set of grid cells with constant-time membership and a stable order of insertion.

use crate::geometry::Position;
use std::collections::HashSet;
use vstd::prelude::*;

verus! {

/// The integer that stands for a cell in the membership index.
pub open spec fn key_of(p: Position) -> int {
    p.x * 0x1_0000_0000 + p.y + 0x8000_0000
}

/// Distinct cells have distinct keys, and every key fits in an `i64`.
pub proof fn lemma_key_injective(p: Position, q: Position)
    ensures
        i64::MIN <= key_of(p) <= i64::MAX,
        key_of(p) == key_of(q) ==> p == q,
{
    if key_of(p) == key_of(q) {
        assert(p.x == q.x) by (nonlinear_arith)
            requires
                p.x * 0x1_0000_0000 + p.y + 0x8000_0000 == q.x * 0x1_0000_0000 + q.y + 0x8000_0000,
                i32::MIN <= p.y <= i32::MAX,
                i32::MIN <= q.y <= i32::MAX,
        ;
    }
}

fn key(p: Position) -> (k: i64)
    ensures
        k == key_of(p),
{
    proof {
        lemma_key_injective(p, p);
    }
    (p.x as i64) * 0x1_0000_0000 + ((p.y as i64) + 0x8000_0000)
}

/// A set of cells. The cells are kept in the order they were first inserted.
pub struct CellSet {
    order: Vec<Position>,
    index: HashSet<i64>,
}

impl View for CellSet {
    type V = Set<Position>;

    closed spec fn view(&self) -> Set<Position> {
        self.order@.to_set()
    }
}

impl CellSet {
    /// The index holds exactly the keys of the listed cells, each listed once.
    pub closed spec fn wf(&self) -> bool {
        &&& self.order@.no_duplicates()
        &&& forall|p: Position| self.index@.contains(key_of(p) as i64) <==> self.order@.contains(p)
    }

    pub fn new() -> (s: CellSet)
        ensures
            s.wf(),
            s@ == Set::<Position>::empty(),
    {
        let s = CellSet { order: Vec::new(), index: HashSet::new() };
        proof {
            assert(s@ =~= Set::<Position>::empty());
        }
        s
    }

    pub fn contains(&self, p: Position) -> (r: bool)
        requires
            self.wf(),
        ensures
            r == self@.contains(p),
    {
        self.index.contains(&key(p))
    }

    /// Adds a cell; adding one that is already there changes nothing.
    pub fn insert(&mut self, p: Position)
        requires
            old(self).wf(),
        ensures
            final(self).wf(),
            final(self)@ == old(self)@.insert(p),
    {
        let k = key(p);
        if !self.index.contains(&k) {
            proof {
                lemma_key_injective(p, p);
                assert(!old(self).order@.contains(p));
            }
            self.order.push(p);
            self.index.insert(k);
            proof {
                assert forall|i: int, j: int|
                    0 <= i < self.order@.len() && 0 <= j < self.order@.len() && i != j implies
                    self.order@[i] != self.order@[j] by {
                    if j == self.order@.len() - 1 {
                        assert(old(self).order@.contains(self.order@[i]) || i == j);
                    } else if i == self.order@.len() - 1 {
                        assert(old(self).order@.contains(self.order@[j]));
                    }
                }
                assert forall|q: Position|
                    self.index@.contains(key_of(q) as i64) <==> self.order@.contains(q) by {
                    lemma_key_injective(p, q);
                    lemma_key_injective(q, q);
                    assert(self.order@.last() == p);
                    if old(self).order@.contains(q) {
                        let i = choose|i: int|
                            0 <= i < old(self).order@.len() && old(self).order@[i] == q;
                        assert(self.order@[i] == q);
                    }
                    if self.order@.contains(q) && q != p {
                        let i = choose|i: int| 0 <= i < self.order@.len() && self.order@[i] == q;
                        assert(old(self).order@[i] == q);
                    }
                }
            }
        }
        proof {
            assert(self@ =~= old(self)@.insert(p));
        }
    }

    /// The cells in the order they were first inserted, each once.
    pub fn cells(&self) -> (r: &Vec<Position>)
        requires
            self.wf(),
        ensures
            r@.no_duplicates(),
            r@.to_set() == self@,
    {
        &self.order
    }

    pub fn len(&self) -> (n: usize)
        requires
            self.wf(),
        ensures
            n == self@.len(),
    {
        proof {
            self.order@.unique_seq_to_set();
        }
        self.order.len()
    }
}

} // verus!
